//! Connectivity of a rig graph: every node must be reachable from the root,
//! and every body must be touched by a member.
//!
//! Two identifiers are linked when they are nodes on the same body (rigidly
//! connected) or consecutive stops of a member's path.
use vstd::prelude::*;
use vstd::string::*;
use super::{RigError, RigErrorKind};
use super::topology::{
    Issue, TopoBody, TopoNode, Topology, concat, has_node, issues_of, lemma_concat_take, node_index,
    push_issue, quoted, quoted_string,
};

verus! {

/// `x` and `y` are nodes on the same body.
pub open spec fn same_body(t: Topology, x: u128, y: u128) -> bool {
    exists|i: int, j: int|
        0 <= i < t.nodes@.len() && 0 <= j < t.nodes@.len() && #[trigger] t.nodes@[i].id == x
            && #[trigger] t.nodes@[j].id == y && t.nodes@[i].body is Some && t.nodes@[i].body
            == t.nodes@[j].body
}

/// `x` and `y` are consecutive stops (in either order) of some member.
pub open spec fn path_neighbors(t: Topology, x: u128, y: u128) -> bool {
    exists|m: int, k: int|
        0 <= m < t.members@.len() && 0 <= k < t.members@[m].path@.len() - 1 && ((
        #[trigger] t.members@[m].path@[k] == x && t.members@[m].path@[k + 1] == y) || (
        t.members@[m].path@[k] == y && t.members@[m].path@[k + 1] == x))
}

/// One step of the rig graph.
pub open spec fn linked(t: Topology, x: u128, y: u128) -> bool {
    same_body(t, x, y) || path_neighbors(t, x, y)
}

/// `w` is a walk in the rig graph.
pub open spec fn is_walk(t: Topology, w: Seq<u128>) -> bool {
    w.len() >= 1 && forall|k: int| 0 <= k < w.len() - 1 ==> linked(t, #[trigger] w[k], w[k + 1])
}

/// `x` can be reached from the rig's root.
pub open spec fn connected(t: Topology, x: u128) -> bool {
    exists|w: Seq<u128>| #[trigger] is_walk(t, w) && w[0] == t.root && w.last() == x
}

/// One step along a list of undirected edges.
pub open spec fn edge_linked(edges: Seq<(u128, u128)>, x: u128, y: u128) -> bool {
    exists|i: int|
        0 <= i < edges.len() && ((#[trigger] edges[i].0 == x && edges[i].1 == y) || (edges[i].0 == y
            && edges[i].1 == x))
}

/// `w` is a walk along the edges.
pub open spec fn is_edge_walk(edges: Seq<(u128, u128)>, w: Seq<u128>) -> bool {
    w.len() >= 1 && forall|k: int|
        0 <= k < w.len() - 1 ==> edge_linked(edges, #[trigger] w[k], w[k + 1])
}

/// `x` can be reached from `from` along the edges.
pub open spec fn edge_connected(edges: Seq<(u128, u128)>, from: u128, x: u128) -> bool {
    exists|w: Seq<u128>| #[trigger] is_edge_walk(edges, w) && w[0] == from && w.last() == x
}

fn contains(v: &Vec<u128>, x: u128) -> (r: bool)
    ensures
        r == v@.contains(x),
{
    let mut i: usize = 0;
    while i < v.len()
        invariant
            i <= v@.len(),
            forall|j: int| 0 <= j < i ==> v@[j] != x,
        decreases v@.len() - i,
    {
        if v[i] == x {
            return true;
        }
        i = i + 1;
    }
    false
}

/// The edges of the rig graph.
fn rig_edges(t: &Topology) -> (edges: Vec<(u128, u128)>)
    ensures
        forall|x: u128, y: u128| linked(*t, x, y) <==> edge_linked(edges@, x, y),
{
    let mut edges: Vec<(u128, u128)> = Vec::new();
    let n = t.nodes.len();
    let mut i: usize = 0;
    while i < n
        invariant
            n == t.nodes@.len(),
            i <= n,
            forall|e: int| 0 <= e < edges@.len() ==> same_body(*t, #[trigger] edges@[e].0, edges@[e].1),
            forall|a: int, b: int|
                0 <= a < i && 0 <= b < n && t.nodes@[a].body is Some && t.nodes@[a].body
                    == t.nodes@[b].body ==> edge_linked(
                    edges@,
                    #[trigger] t.nodes@[a].id,
                    #[trigger] t.nodes@[b].id,
                ),
        decreases n - i,
    {
        let mut j: usize = 0;
        while j < n
            invariant
                n == t.nodes@.len(),
                i < n,
                j <= n,
                forall|e: int|
                    0 <= e < edges@.len() ==> same_body(*t, #[trigger] edges@[e].0, edges@[e].1),
                forall|a: int, b: int|
                    ((0 <= a < i && 0 <= b < n) || (a == i && 0 <= b < j)) && t.nodes@[a].body is Some
                        && t.nodes@[a].body == t.nodes@[b].body ==> edge_linked(
                        edges@,
                        #[trigger] t.nodes@[a].id,
                        #[trigger] t.nodes@[b].id,
                    ),
            decreases n - j,
        {
            let bi = t.nodes[i].body;
            let bj = t.nodes[j].body;
            let same = match (bi, bj) {
                (Some(p), Some(q)) => p == q,
                _ => false,
            };
            if same {
                let ghost old_edges = edges@;
                edges.push((t.nodes[i].id, t.nodes[j].id));
                proof {
                    assert(same_body(*t, t.nodes@[i as int].id, t.nodes@[j as int].id));
                    assert(edges@[edges@.len() - 1] == (t.nodes@[i as int].id, t.nodes@[j as int].id));
                    assert forall|a: int, b: int|
                        ((0 <= a < i && 0 <= b < n) || (a == i && 0 <= b < j + 1))
                            && t.nodes@[a].body is Some && t.nodes@[a].body == t.nodes@[b].body
                        implies edge_linked(edges@, #[trigger] t.nodes@[a].id, #[trigger] t.nodes@[b].id) by {
                        if a == i && b == j {
                            let w = edges@.len() - 1;
                            assert(edges@[w].0 == t.nodes@[a].id && edges@[w].1 == t.nodes@[b].id);
                        } else {
                            assert(edge_linked(old_edges, t.nodes@[a].id, t.nodes@[b].id));
                            let w = choose|w: int|
                                0 <= w < old_edges.len() && ((#[trigger] old_edges[w].0 == t.nodes@[a].id
                                    && old_edges[w].1 == t.nodes@[b].id) || (old_edges[w].0
                                    == t.nodes@[b].id && old_edges[w].1 == t.nodes@[a].id));
                            assert(edges@[w] == old_edges[w]);
                        }
                    }
                }
            }
            j = j + 1;
        }
        i = i + 1;
    }

    let mm = t.members.len();
    let mut m: usize = 0;
    while m < mm
        invariant
            n == t.nodes@.len(),
            mm == t.members@.len(),
            m <= mm,
            forall|e: int| 0 <= e < edges@.len() ==> linked(*t, #[trigger] edges@[e].0, edges@[e].1),
            forall|a: int, b: int|
                0 <= a < n && 0 <= b < n && t.nodes@[a].body is Some && t.nodes@[a].body
                    == t.nodes@[b].body ==> edge_linked(
                    edges@,
                    #[trigger] t.nodes@[a].id,
                    #[trigger] t.nodes@[b].id,
                ),
            forall|p: int, k: int|
                0 <= p < m && 0 <= k < t.members@[p].path@.len() - 1 ==> edge_linked(
                    edges@,
                    #[trigger] t.members@[p].path@[k],
                    t.members@[p].path@[k + 1],
                ),
        decreases mm - m,
    {
        let path = &t.members[m].path;
        let last: usize = if path.len() == 0 { 0 } else { path.len() - 1 };
        let mut k: usize = 0;
        while k < last
            invariant
                last == (if path@.len() == 0 { 0 } else { path@.len() - 1 }),
                k <= last,
                n == t.nodes@.len(),
                mm == t.members@.len(),
                m < mm,
                path@ == t.members@[m as int].path@,
                forall|e: int|
                    0 <= e < edges@.len() ==> linked(*t, #[trigger] edges@[e].0, edges@[e].1),
                forall|a: int, b: int|
                    0 <= a < n && 0 <= b < n && t.nodes@[a].body is Some && t.nodes@[a].body
                        == t.nodes@[b].body ==> edge_linked(
                        edges@,
                        #[trigger] t.nodes@[a].id,
                        #[trigger] t.nodes@[b].id,
                    ),
                forall|p: int, q: int|
                    ((0 <= p < m && 0 <= q < t.members@[p].path@.len() - 1) || (p == m && 0 <= q
                        < k && q < t.members@[p].path@.len() - 1)) ==> edge_linked(
                        edges@,
                        #[trigger] t.members@[p].path@[q],
                        t.members@[p].path@[q + 1],
                    ),
            decreases path@.len() - k,
        {
            let ghost old_edges = edges@;
            edges.push((path[k], path[k + 1]));
            proof {
                assert(path_neighbors(*t, path@[k as int], path@[k + 1]));
                assert(edges@[edges@.len() - 1] == (path@[k as int], path@[k + 1]));
                assert forall|a: int, b: int|
                    0 <= a < n && 0 <= b < n && t.nodes@[a].body is Some && t.nodes@[a].body
                        == t.nodes@[b].body implies edge_linked(
                    edges@,
                    #[trigger] t.nodes@[a].id,
                    #[trigger] t.nodes@[b].id,
                ) by {
                    assert(edge_linked(old_edges, t.nodes@[a].id, t.nodes@[b].id));
                    let w = choose|w: int|
                        0 <= w < old_edges.len() && ((#[trigger] old_edges[w].0 == t.nodes@[a].id
                            && old_edges[w].1 == t.nodes@[b].id) || (old_edges[w].0
                            == t.nodes@[b].id && old_edges[w].1 == t.nodes@[a].id));
                    assert(edges@[w] == old_edges[w]);
                }
                assert forall|p: int, q: int|
                    ((0 <= p < m && 0 <= q < t.members@[p].path@.len() - 1) || (p == m && 0 <= q
                        < k + 1 && q < t.members@[p].path@.len() - 1)) implies edge_linked(
                    edges@,
                    #[trigger] t.members@[p].path@[q],
                    t.members@[p].path@[q + 1],
                ) by {
                    if p == m && q == k {
                        let w = edges@.len() - 1;
                        assert(edges@[w].0 == t.members@[p].path@[q]);
                    } else {
                        assert(edge_linked(old_edges, t.members@[p].path@[q], t.members@[p].path@[q + 1]));
                        let w = choose|w: int|
                            0 <= w < old_edges.len() && ((#[trigger] old_edges[w].0
                                == t.members@[p].path@[q] && old_edges[w].1 == t.members@[p].path@[q + 1])
                                || (old_edges[w].0 == t.members@[p].path@[q + 1] && old_edges[w].1
                                == t.members@[p].path@[q]));
                        assert(edges@[w] == old_edges[w]);
                    }
                }
            }
            k = k + 1;
        }
        m = m + 1;
    }
    proof {
        assert forall|x: u128, y: u128| linked(*t, x, y) implies edge_linked(edges@, x, y) by {
            if same_body(*t, x, y) {
                let (a, b) = choose|a: int, b: int|
                    0 <= a < t.nodes@.len() && 0 <= b < t.nodes@.len() && #[trigger] t.nodes@[a].id == x
                        && #[trigger] t.nodes@[b].id == y && t.nodes@[a].body is Some && t.nodes@[a].body
                        == t.nodes@[b].body;
            } else {
                let (p, q) = choose|p: int, q: int|
                    0 <= p < t.members@.len() && 0 <= q < t.members@[p].path@.len() - 1 && ((
                    #[trigger] t.members@[p].path@[q] == x && t.members@[p].path@[q + 1] == y) || (
                    t.members@[p].path@[q] == y && t.members@[p].path@[q + 1] == x));
                if t.members@[p].path@[q] != x {
                    assert(edge_linked(edges@, y, x));
                    let w = choose|w: int|
                        0 <= w < edges@.len() && ((#[trigger] edges@[w].0 == y && edges@[w].1 == x)
                            || (edges@[w].0 == x && edges@[w].1 == y));
                    assert(edges@[w].0 == x || edges@[w].0 == y);
                }
            }
        }
        assert forall|x: u128, y: u128| edge_linked(edges@, x, y) implies linked(*t, x, y) by {
            let w = choose|w: int|
                0 <= w < edges@.len() && ((#[trigger] edges@[w].0 == x && edges@[w].1 == y) || (
                edges@[w].0 == y && edges@[w].1 == x));
            assert(linked(*t, edges@[w].0, edges@[w].1));
            if edges@[w].0 != x {
                lemma_linked_symmetric(*t, y, x);
            }
        }
    }
    edges
}

proof fn lemma_linked_symmetric(t: Topology, x: u128, y: u128)
    requires
        linked(t, x, y),
    ensures
        linked(t, y, x),
{
    if same_body(t, x, y) {
        let (a, b) = choose|a: int, b: int|
            0 <= a < t.nodes@.len() && 0 <= b < t.nodes@.len() && #[trigger] t.nodes@[a].id == x
                && #[trigger] t.nodes@[b].id == y && t.nodes@[a].body is Some && t.nodes@[a].body
                == t.nodes@[b].body;
        assert(t.nodes@[b].id == y && t.nodes@[a].id == x);
    } else {
        let (p, q) = choose|p: int, q: int|
            0 <= p < t.members@.len() && 0 <= q < t.members@[p].path@.len() - 1 && ((
            #[trigger] t.members@[p].path@[q] == x && t.members@[p].path@[q + 1] == y) || (
            t.members@[p].path@[q] == y && t.members@[p].path@[q + 1] == x));
        assert(t.members@[p].path@[q] == x || t.members@[p].path@[q] == y);
    }
}

proof fn lemma_len_bounded(reached: Seq<u128>, univ: Set<u128>, univ_seq: Seq<u128>)
    requires
        reached.no_duplicates(),
        univ == univ_seq.to_set(),
        forall|x: u128| reached.contains(x) ==> univ.contains(x),
    ensures
        reached.len() <= univ.len(),
        univ.finite(),
{
    broadcast use vstd::seq_lib::seq_to_set_is_finite;
    reached.unique_seq_to_set();
    assert(reached.to_set().subset_of(univ));
    vstd::set_lib::lemma_len_subset(reached.to_set(), univ);
}

proof fn lemma_extend_walk(edges: Seq<(u128, u128)>, from: u128, x: u128, y: u128, i: int)
    requires
        edge_connected(edges, from, x),
        0 <= i < edges.len(),
        (edges[i].0 == x && edges[i].1 == y) || (edges[i].0 == y && edges[i].1 == x),
    ensures
        edge_connected(edges, from, y),
{
    let w = choose|w: Seq<u128>| #[trigger] is_edge_walk(edges, w) && w[0] == from && w.last() == x;
    let w2 = w.push(y);
    assert forall|k: int| 0 <= k < w2.len() - 1 implies edge_linked(edges, #[trigger] w2[k], w2[k + 1]) by {
        if k < w.len() - 1 {
            assert(w2[k] == w[k] && w2[k + 1] == w[k + 1]);
        } else {
            assert(w2[k] == x && w2[k + 1] == y);
            assert(edges[i].0 == x || edges[i].0 == y);
        }
    }
    assert(is_edge_walk(edges, w2));
}

/// A set holding the start and closed under the edges holds everything
/// reachable from the start.
proof fn lemma_closed_holds_reachable(edges: Seq<(u128, u128)>, from: u128, reached: Seq<u128>, x: u128)
    requires
        reached.contains(from),
        forall|i: int| 0 <= i < edges.len() ==> (reached.contains(#[trigger] edges[i].0) <==> reached.contains(edges[i].1)),
        edge_connected(edges, from, x),
    ensures
        reached.contains(x),
{
    let w = choose|w: Seq<u128>| #[trigger] is_edge_walk(edges, w) && w[0] == from && w.last() == x;
    lemma_walk_prefix_in(edges, reached, w, w.len() - 1);
}

proof fn lemma_walk_prefix_in(edges: Seq<(u128, u128)>, reached: Seq<u128>, w: Seq<u128>, k: int)
    requires
        is_edge_walk(edges, w),
        reached.contains(w[0]),
        forall|i: int| 0 <= i < edges.len() ==> (reached.contains(#[trigger] edges[i].0) <==> reached.contains(edges[i].1)),
        0 <= k < w.len(),
    ensures
        reached.contains(w[k]),
    decreases k,
{
    if k > 0 {
        lemma_walk_prefix_in(edges, reached, w, k - 1);
        assert(edge_linked(edges, w[k - 1], w[k]));
        let i = choose|i: int|
            0 <= i < edges.len() && ((#[trigger] edges[i].0 == w[k - 1] && edges[i].1 == w[k]) || (edges[i].0 == w[k]
                && edges[i].1 == w[k - 1]));
        assert(reached.contains(edges[i].0) <==> reached.contains(edges[i].1));
    }
}

/// Every listed vertex is an edge vertex reachable from `from`.
pub open spec fn sound_reach(edges: Seq<(u128, u128)>, from: u128, univ: Set<u128>, s: Seq<u128>) -> bool {
    forall|x: u128| #[trigger] s.contains(x) ==> univ.contains(x) && edge_connected(edges, from, x)
}

proof fn lemma_sound_push(edges: Seq<(u128, u128)>, from: u128, univ: Set<u128>, s: Seq<u128>, y: u128)
    requires
        sound_reach(edges, from, univ, s),
        univ.contains(y),
        edge_connected(edges, from, y),
    ensures
        sound_reach(edges, from, univ, s.push(y)),
{
    assert forall|x: u128| #[trigger] s.push(y).contains(x) implies univ.contains(x) && edge_connected(edges, from, x) by {
        if x != y {
            let k = choose|k: int| 0 <= k < s.push(y).len() && s.push(y)[k] == x;
            assert(s[k] == x);
            assert(s.contains(x));
        }
    }
}

proof fn lemma_no_dup_push(s: Seq<u128>, y: u128)
    requires
        s.no_duplicates(),
        !s.contains(y),
    ensures
        s.push(y).no_duplicates(),
{
    let t = s.push(y);
    assert forall|p: int, q: int| 0 <= p < t.len() && 0 <= q < t.len() && p != q implies t[p] != t[q] by {
        if q == t.len() - 1 {
            assert(t[p] == s[p]);
        } else if p == t.len() - 1 {
            assert(t[q] == s[q]);
        } else {
            assert(t[p] == s[p] && t[q] == s[q]);
        }
    }
}

/// Everything reachable from `from` along the edges.
fn reach_closure(edges: &Vec<(u128, u128)>, from: u128) -> (reached: Vec<u128>)
    ensures
        forall|x: u128| reached@.contains(x) <==> edge_connected(edges@, from, x),
{
    let ghost univ_seq = seq![from] + edges@.map_values(|e: (u128, u128)| e.0) + edges@.map_values(
        |e: (u128, u128)| e.1,
    );
    let ghost univ = univ_seq.to_set();
    let mut reached: Vec<u128> = Vec::new();
    reached.push(from);
    proof {
        assert(univ_seq[0] == from);
        let w = seq![from];
        assert(is_edge_walk(edges@, w));
        assert(is_edge_walk(edges@, w) && w[0] == from && w.last() == from);
        assert(edge_connected(edges@, from, from));
        assert(univ.contains(from));
        lemma_sound_push(edges@, from, univ, Seq::empty(), from);
        assert(Seq::<u128>::empty().push(from) =~= reached@);
        lemma_len_bounded(reached@, univ, univ_seq);
    }
    loop
        invariant
            univ == univ_seq.to_set(),
            univ_seq == seq![from] + edges@.map_values(|e: (u128, u128)| e.0) + edges@.map_values(
                |e: (u128, u128)| e.1,
            ),
            reached@.no_duplicates(),
            reached@.len() > 0,
            reached@[0] == from,
            reached@.len() <= univ.len(),
            sound_reach(edges@, from, univ, reached@),
        ensures
            forall|x: u128| reached@.contains(x) <==> edge_connected(edges@, from, x),
        decreases univ.len() - reached@.len(),
    {
        let ghost start = reached@;
        let mut changed = false;
        let mut i: usize = 0;
        while i < edges.len()
            invariant
                univ == univ_seq.to_set(),
                univ_seq == seq![from] + edges@.map_values(|e: (u128, u128)| e.0) + edges@.map_values(
                    |e: (u128, u128)| e.1,
                ),
                i <= edges@.len(),
                reached@.no_duplicates(),
                reached@.len() > 0,
                reached@[0] == from,
                reached@.len() <= univ.len(),
                reached@.len() >= start.len(),
                changed ==> reached@.len() > start.len(),
                !changed ==> reached@ == start,
                !changed ==> forall|j: int| 0 <= j < i ==> (start.contains(#[trigger] edges@[j].0) <==> start.contains(edges@[j].1)),
                sound_reach(edges@, from, univ, reached@),
            decreases edges@.len() - i,
        {
            let (a, b) = edges[i];
            let ra = contains(&reached, a);
            let rb = contains(&reached, b);
            if ra && !rb {
                let ghost before = reached@;
                reached.push(b);
                proof {
                    assert(univ_seq[1 + edges@.len() + i] == b);
                    assert(univ.contains(b));
                    assert(before.contains(a));
                    lemma_extend_walk(edges@, from, a, b, i as int);
                    lemma_sound_push(edges@, from, univ, before, b);
                    lemma_no_dup_push(before, b);
                    lemma_len_bounded(reached@, univ, univ_seq);
                }
                changed = true;
            } else if rb && !ra {
                let ghost before = reached@;
                reached.push(a);
                proof {
                    assert(univ_seq[1 + i] == a);
                    assert(univ.contains(a));
                    assert(before.contains(b));
                    lemma_extend_walk(edges@, from, b, a, i as int);
                    lemma_sound_push(edges@, from, univ, before, a);
                    lemma_no_dup_push(before, a);
                    lemma_len_bounded(reached@, univ, univ_seq);
                }
                changed = true;
            }
            i = i + 1;
        }
        if !changed {
            proof {
                assert(reached@.contains(from)) by {
                    assert(reached@[0] == from);
                }
                assert forall|x: u128| edge_connected(edges@, from, x) implies reached@.contains(x) by {
                    lemma_closed_holds_reachable(edges@, from, reached@, x);
                }
                assert forall|x: u128| reached@.contains(x) implies edge_connected(edges@, from, x) by {
                    assert(sound_reach(edges@, from, univ, reached@));
                }
            }
            break;
        }
    }
    reached
}

/// Walks of the rig graph are walks along its edges, and back.
proof fn lemma_same_walks(t: Topology, edges: Seq<(u128, u128)>, x: u128)
    requires
        forall|a: u128, b: u128| linked(t, a, b) <==> edge_linked(edges, a, b),
    ensures
        connected(t, x) <==> edge_connected(edges, t.root, x),
{
    if connected(t, x) {
        let w = choose|w: Seq<u128>| #[trigger] is_walk(t, w) && w[0] == t.root && w.last() == x;
        assert forall|k: int| 0 <= k < w.len() - 1 implies edge_linked(edges, #[trigger] w[k], w[k + 1]) by {
            assert(linked(t, w[k], w[k + 1]));
        }
        assert(is_edge_walk(edges, w));
    }
    if edge_connected(edges, t.root, x) {
        let w = choose|w: Seq<u128>| #[trigger] is_edge_walk(edges, w) && w[0] == t.root && w.last() == x;
        assert forall|k: int| 0 <= k < w.len() - 1 implies linked(t, #[trigger] w[k], w[k + 1]) by {
            assert(edge_linked(edges, w[k], w[k + 1]));
        }
        assert(is_walk(t, w));
    }
}

/// Some node on body `bid` is a stop of some member.
pub open spec fn touched(t: Topology, bid: u128) -> bool {
    exists|i: int, m: int|
        0 <= i < t.nodes@.len() && 0 <= m < t.members@.len() && #[trigger] t.nodes@[i].body == Some(bid)
            && #[trigger] t.members@[m].path@.contains(t.nodes@[i].id)
}

/// Finding for a node the root cannot reach.
pub open spec fn disconnected_issue(t: Topology, n: TopoNode) -> Seq<Issue> {
    if connected(t, n.id) {
        Seq::empty()
    } else {
        seq![(RigErrorKind::Disconnected, quoted("node "@, n.label@, " is not connected from the root"@))]
    }
}

/// Finding for a body that no member touches.
pub open spec fn unsupported_issue(t: Topology, b: TopoBody) -> Seq<Issue> {
    if touched(t, b.id) {
        Seq::empty()
    } else {
        seq![(RigErrorKind::UnsupportedBody, quoted("body "@, b.label@, " has no node touched by a member"@))]
    }
}

/// Connectivity findings: unreachable nodes, then untouched bodies; none
/// at all when the root is not a node (that is a dangling reference).
pub open spec fn connectivity_issues(t: Topology) -> Seq<Issue> {
    if !has_node(t, t.root) {
        Seq::empty()
    } else {
        concat(t.nodes@.map_values(|n: TopoNode| disconnected_issue(t, n))) + concat(
            t.bodies@.map_values(|b: TopoBody| unsupported_issue(t, b)),
        )
    }
}

fn body_touched(t: &Topology, bid: u128) -> (r: bool)
    ensures
        r == touched(*t, bid),
{
    let mut i: usize = 0;
    while i < t.nodes.len()
        invariant
            i <= t.nodes@.len(),
            forall|a: int, m: int|
                0 <= a < i && 0 <= m < t.members@.len() && #[trigger] t.nodes@[a].body == Some(bid)
                    ==> !#[trigger] t.members@[m].path@.contains(t.nodes@[a].id),
        decreases t.nodes@.len() - i,
    {
        if t.nodes[i].body == Some(bid) {
            let id = t.nodes[i].id;
            let mut m: usize = 0;
            while m < t.members.len()
                invariant
                    i < t.nodes@.len(),
                    id == t.nodes@[i as int].id,
                    t.nodes@[i as int].body == Some(bid),
                    m <= t.members@.len(),
                    forall|q: int| 0 <= q < m ==> !#[trigger] t.members@[q].path@.contains(id),
                decreases t.members@.len() - m,
            {
                if contains(&t.members[m].path, id) {
                    assert(t.members@[m as int].path@.contains(t.nodes@[i as int].id));
                    return true;
                }
                m = m + 1;
            }
        }
        i = i + 1;
    }
    false
}

pub(crate) fn check_connectivity(t: &Topology, errs: &mut Vec<RigError>)
    ensures
        issues_of(final(errs)@) == issues_of(old(errs)@) + connectivity_issues(*t),
{
    if node_index(t, t.root).is_none() {
        assert(issues_of(errs@) =~= issues_of(errs@) + connectivity_issues(*t));
        return;
    }
    let edges = rig_edges(t);
    let reached = reach_closure(&edges, t.root);
    let ghost tv = *t;
    let ghost f = |n: TopoNode| disconnected_issue(tv, n);
    let ghost before = issues_of(errs@);
    let mut i: usize = 0;
    while i < t.nodes.len()
        invariant
            tv == *t,
            i <= t.nodes@.len(),
            f == (|n: TopoNode| disconnected_issue(tv, n)),
            forall|x: u128| reached@.contains(x) <==> edge_connected(edges@, t.root, x),
            forall|a: u128, b: u128| linked(*t, a, b) <==> edge_linked(edges@, a, b),
            issues_of(errs@) == before + concat(t.nodes@.take(i as int).map_values(f)),
        decreases t.nodes@.len() - i,
    {
        proof {
            lemma_concat_take(t.nodes@, f, i as int);
            lemma_same_walks(*t, edges@, t.nodes@[i as int].id);
        }
        let node = &t.nodes[i];
        if !contains(&reached, node.id) {
            let m = quoted_string("node ", &node.label, " is not connected from the root");
            push_issue(errs, RigErrorKind::Disconnected, m);
        }
        assert(issues_of(errs@) =~= before + concat(t.nodes@.take(i + 1).map_values(f)));
        i = i + 1;
    }
    assert(t.nodes@.take(t.nodes@.len() as int) =~= t.nodes@);

    let ghost g = |b: TopoBody| unsupported_issue(tv, b);
    let ghost mid = issues_of(errs@);
    let mut k: usize = 0;
    while k < t.bodies.len()
        invariant
            tv == *t,
            k <= t.bodies@.len(),
            g == (|b: TopoBody| unsupported_issue(tv, b)),
            issues_of(errs@) == mid + concat(t.bodies@.take(k as int).map_values(g)),
        decreases t.bodies@.len() - k,
    {
        proof {
            lemma_concat_take(t.bodies@, g, k as int);
        }
        let body = &t.bodies[k];
        if !body_touched(t, body.id) {
            let m = quoted_string("body ", &body.label, " has no node touched by a member");
            push_issue(errs, RigErrorKind::UnsupportedBody, m);
        }
        assert(issues_of(errs@) =~= mid + concat(t.bodies@.take(k + 1).map_values(g)));
        k = k + 1;
    }
    assert(t.bodies@.take(t.bodies@.len() as int) =~= t.bodies@);
}

} // verus!
