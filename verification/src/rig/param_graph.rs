//! Derived-parameter dependencies: every referenced parameter must exist,
//! and no parameter may depend on itself, directly or through others.
use vstd::prelude::*;
use vstd::string::*;
use super::{RigError, RigErrorKind};
use super::topology::{Issue, concat, id_text, issues_of, push_id, push_issue, quoted, quoted_string};
use crate::text::str_eq;

verus! {

/// A parameter as the dependency check sees it.
#[derive(Debug, Clone)]
pub struct ParamDeps {
    pub id: u128,
    pub name: String,
    /// For a derived parameter, the parameters its expression references,
    /// in ascending order; `None` for a parameter given by value.
    pub deps: Option<Vec<u128>>,
    /// Either tolerance of the parameter is negative.
    pub negative_tolerance: bool,
}

/// Position of the first entry with identifier `id` at or after `i`, or -1.
pub open spec fn param_pos(t: Seq<ParamDeps>, id: u128, i: int) -> int
    decreases t.len() - i,
{
    if i < 0 || i >= t.len() {
        -1
    } else if t[i].id == id {
        i
    } else {
        param_pos(t, id, i + 1)
    }
}

/// The parameter table holds `id`.
pub open spec fn in_table(t: Seq<ParamDeps>, id: u128) -> bool {
    param_pos(t, id, 0) >= 0
}

/// What parameter `id` references (nothing if absent or given by value).
pub open spec fn deps_of(t: Seq<ParamDeps>, id: u128) -> Seq<u128> {
    if in_table(t, id) {
        match t[param_pos(t, id, 0)].deps {
            Some(d) => d@,
            None => Seq::empty(),
        }
    } else {
        Seq::empty()
    }
}

/// Parameter `a` references parameter `b`.
pub open spec fn depends(t: Seq<ParamDeps>, a: u128, b: u128) -> bool {
    deps_of(t, a).contains(b)
}

/// Each element of `w` references the next.
pub open spec fn is_dep_path(t: Seq<ParamDeps>, w: Seq<u128>) -> bool {
    forall|k: int| 0 <= k < w.len() - 1 ==> depends(t, #[trigger] w[k], w[k + 1])
}

/// `id` depends on itself through a chain of references.
pub open spec fn on_cycle(t: Seq<ParamDeps>, id: u128) -> bool {
    exists|w: Seq<u128>| w.len() >= 2 && w[0] == id && w.last() == id && #[trigger] is_dep_path(t, w)
}

/// No parameter depends on itself.
pub open spec fn acyclic(t: Seq<ParamDeps>) -> bool {
    forall|id: u128| !#[trigger] on_cycle(t, id)
}

/// Every referenced parameter is in the table.
pub open spec fn all_known(t: Seq<ParamDeps>) -> bool {
    forall|a: u128, d: u128| #[trigger] depends(t, a, d) ==> in_table(t, d)
}

/// Message naming a parameter on a cycle.
pub open spec fn cycle_message(id: u128) -> Seq<char> {
    "parameter cycle involving "@ + id_text("param"@, id)
}

/// Message naming an unknown reference and the parameter that makes it.
pub open spec fn unknown_message(dep: u128, from: Seq<char>) -> Seq<char> {
    "unknown parameter "@ + id_text("param"@, dep) + " from '"@ + from + "'"@
}

/// What a reported dependency error may be: a cycle through the named
/// parameter, or an unknown reference made by the named parameter.
pub open spec fn dependency_error(t: Seq<ParamDeps>, e: RigError) -> bool {
    ||| exists|id: u128| on_cycle(t, id) && e.code == RigErrorKind::ParamCycle && #[trigger] cycle_message(id) == e.message@
    ||| exists|a: u128, d: u128|
        #[trigger] depends(t, a, d) && !in_table(t, d) && e.code == RigErrorKind::UnknownParam
            && e.message@ == unknown_message(d, t[param_pos(t, a, 0)].name@)
}

/// The finding of a cycle through `id`.
pub open spec fn cycle_issue(id: u128) -> Issue {
    (RigErrorKind::ParamCycle, cycle_message(id))
}

/// The finding of an unknown reference `dep` made by parameter `from`.
pub open spec fn unknown_issue(t: Seq<ParamDeps>, from: u128, dep: u128) -> Issue {
    (RigErrorKind::UnknownParam, unknown_message(dep, t[param_pos(t, from, 0)].name@))
}

/// Depth-first visit of parameter `id` with the chain `visiting` open and
/// `visited` finished: the first finding met, and the finished list after.
/// References are followed in their listed order; `fuel` bounds the depth.
pub open spec fn dfs_node(t: Seq<ParamDeps>, id: u128, visiting: Seq<u128>, visited: Seq<u128>, fuel: nat) -> (Option<Issue>, Seq<u128>)
    decreases fuel, 0nat, 0int,
{
    if visited.contains(id) {
        (None, visited)
    } else if visiting.contains(id) {
        (Some(cycle_issue(id)), visited)
    } else if fuel == 0 {
        (None, visited)
    } else {
        let r = dfs_deps(t, id, visiting.push(id), visited, (fuel - 1) as nat, 0);
        if r.0 is Some { r } else { (None, r.1.push(id)) }
    }
}

/// The visit of `id`'s references from the `k`-th on.
pub open spec fn dfs_deps(t: Seq<ParamDeps>, id: u128, visiting: Seq<u128>, visited: Seq<u128>, fuel: nat, k: int) -> (Option<Issue>, Seq<u128>)
    decreases fuel, 1nat, deps_of(t, id).len() - k,
{
    let deps = deps_of(t, id);
    if k < 0 || k >= deps.len() {
        (None, visited)
    } else if !in_table(t, deps[k]) {
        (Some(unknown_issue(t, id, deps[k])), visited)
    } else {
        let r = dfs_node(t, deps[k], visiting, visited, fuel);
        if r.0 is Some { r } else { dfs_deps(t, id, visiting, r.1, fuel, k + 1) }
    }
}

/// Visiting the table's entries in order from the `i`-th on.
pub open spec fn dfs_table(t: Seq<ParamDeps>, i: int, visited: Seq<u128>) -> Option<Issue>
    decreases t.len() - i,
{
    if i < 0 || i >= t.len() {
        None
    } else {
        let r = dfs_node(t, t[i].id, Seq::empty(), visited, (t.len() + 1) as nat);
        if r.0 is Some { r.0 } else { dfs_table(t, i + 1, r.1) }
    }
}

/// The first dependency finding of the table, in table order and, within a
/// parameter, in the order its references are listed; `None` when clean.
pub open spec fn first_dependency_issue(t: Seq<ParamDeps>) -> Option<Issue> {
    dfs_table(t, 0, Seq::empty())
}

/// The search state: the chain being explored and the finished parameters,
/// each finished one after everything it references.
pub open spec fn search_ok(t: Seq<ParamDeps>, visiting: Seq<u128>, visited: Seq<u128>) -> bool {
    &&& visiting.no_duplicates()
    &&& visited.no_duplicates()
    &&& forall|k: int| 0 <= k < visiting.len() ==> in_table(t, #[trigger] visiting[k])
    &&& forall|k: int| 0 <= k < visited.len() ==> in_table(t, #[trigger] visited[k])
    &&& is_dep_path(t, visiting)
    &&& forall|x: u128| visited.contains(x) ==> !visiting.contains(x)
    &&& forall|i: int, d: u128|
        0 <= i < visited.len() && #[trigger] depends(t, visited[i], d) ==> exists|j: int|
            0 <= j < i && #[trigger] visited[j] == d
}

pub proof fn lemma_param_pos(t: Seq<ParamDeps>, id: u128, i: int)
    requires
        0 <= i,
    ensures
        param_pos(t, id, i) >= 0 ==> i <= param_pos(t, id, i) < t.len() && t[param_pos(t, id, i)].id == id,
        param_pos(t, id, i) < 0 ==> forall|j: int| i <= j < t.len() ==> t[j].id != id,
    decreases t.len() - i,
{
    if i < t.len() && t[i].id != id {
        lemma_param_pos(t, id, i + 1);
    }
}

fn lookup(t: &Vec<ParamDeps>, id: u128) -> (r: Option<usize>)
    ensures
        match r {
            Some(i) => i == param_pos(t@, id, 0) && i < t@.len(),
            None => param_pos(t@, id, 0) < 0,
        },
{
    let mut i: usize = 0;
    while i < t.len()
        invariant
            i <= t@.len(),
            param_pos(t@, id, 0) == param_pos(t@, id, i as int),
        decreases t@.len() - i,
    {
        if t[i].id == id {
            return Some(i);
        }
        i = i + 1;
    }
    None
}

fn contains_id(v: &Vec<u128>, x: u128) -> (r: bool)
    ensures
        r == v@.contains(x),
{
    let mut i: usize = 0;
    while i < v.len()
        invariant
            i <= v@.len(),
            forall|j: int| 0 <= j < i ==> v@[j] != x,
        decreases v@.len() - i,
    {
        if v[i] == x {
            return true;
        }
        i = i + 1;
    }
    false
}

/// A chain without repeats through table entries is no longer than the table.
proof fn lemma_chain_len(t: Seq<ParamDeps>, s: Seq<u128>)
    requires
        s.no_duplicates(),
        forall|k: int| 0 <= k < s.len() ==> in_table(t, #[trigger] s[k]),
    ensures
        s.len() <= t.len(),
{
    broadcast use vstd::seq_lib::seq_to_set_is_finite;
    let ids = t.map_values(|p: ParamDeps| p.id);
    assert forall|k: int| 0 <= k < s.len() implies ids.contains(#[trigger] s[k]) by {
        lemma_param_pos(t, s[k], 0);
        assert(ids[param_pos(t, s[k], 0)] == s[k]);
    }
    s.unique_seq_to_set();
    ids.lemma_cardinality_of_set();
    assert(s.to_set().subset_of(ids.to_set()));
    vstd::set_lib::lemma_len_subset(s.to_set(), ids.to_set());
}

proof fn lemma_cycle_on_stack(t: Seq<ParamDeps>, visiting: Seq<u128>, id: u128)
    requires
        is_dep_path(t, visiting),
        visiting.contains(id),
        visiting.len() > 0,
        depends(t, visiting.last(), id),
    ensures
        on_cycle(t, id),
{
    let k = choose|k: int| 0 <= k < visiting.len() && visiting[k] == id;
    let w = visiting.subrange(k, visiting.len() as int).push(id);
    assert forall|q: int| 0 <= q < w.len() - 1 implies depends(t, #[trigger] w[q], w[q + 1]) by {
        if q < w.len() - 2 {
            assert(w[q] == visiting[k + q] && w[q + 1] == visiting[k + q + 1]);
        } else {
            assert(w[q] == visiting.last());
        }
    }
    assert(w.len() >= 2 && w[0] == id && w.last() == id && is_dep_path(t, w));
}

fn cycle_error(id: u128) -> (e: RigError)
    ensures
        e.code == RigErrorKind::ParamCycle,
        e.message@ == cycle_message(id),
{
    let mut m = String::from_str("parameter cycle involving ");
    push_id(&mut m, "param", id);
    RigError::new(RigErrorKind::ParamCycle, m)
}

fn unknown_error(dep: u128, from: &String) -> (e: RigError)
    ensures
        e.code == RigErrorKind::UnknownParam,
        e.message@ == unknown_message(dep, from@),
{
    let mut m = String::from_str("unknown parameter ");
    push_id(&mut m, "param", dep);
    m.append(" from '");
    m.append(from.as_str());
    m.append("'");
    RigError::new(RigErrorKind::UnknownParam, m)
}

proof fn lemma_start(t: Seq<ParamDeps>, v0: Seq<u128>, visited: Seq<u128>, id: u128)
    requires
        search_ok(t, v0, visited),
        !v0.contains(id),
        !visited.contains(id),
        in_table(t, id),
        v0.len() > 0 ==> depends(t, v0.last(), id),
    ensures
        search_ok(t, v0.push(id), visited),
        v0.push(id).len() <= t.len(),
{
    let v = v0.push(id);
    assert forall|p: int, q: int| 0 <= p < v.len() && 0 <= q < v.len() && p != q implies v[p] != v[q] by {
        if p == v0.len() {
            assert(v[q] == v0[q]);
        } else if q == v0.len() {
            assert(v[p] == v0[p]);
        } else {
            assert(v[p] == v0[p] && v[q] == v0[q]);
        }
    }
    assert forall|k: int| 0 <= k < v.len() - 1 implies depends(t, #[trigger] v[k], v[k + 1]) by {
        if k < v0.len() - 1 {
            assert(v[k] == v0[k] && v[k + 1] == v0[k + 1]);
        } else {
            assert(v[k] == v0.last());
        }
    }
    assert forall|k: int| 0 <= k < v.len() implies in_table(t, #[trigger] v[k]) by {
        if k < v0.len() {
            assert(v[k] == v0[k]);
        }
    }
    assert forall|x: u128| visited.contains(x) implies !v.contains(x) by {
        if v.contains(x) {
            let k = choose|k: int| 0 <= k < v.len() && v[k] == x;
            if k < v0.len() {
                assert(v0[k] == x);
            }
        }
    }
    lemma_chain_len(t, v);
}

proof fn lemma_finish(t: Seq<ParamDeps>, v0: Seq<u128>, mid: Seq<u128>, id: u128)
    requires
        search_ok(t, v0.push(id), mid),
        !mid.contains(id),
        forall|q: int| 0 <= q < deps_of(t, id).len() ==> mid.contains(#[trigger] deps_of(t, id)[q]),
        in_table(t, id),
    ensures
        search_ok(t, v0, mid.push(id)),
{
    let vis = mid.push(id);
    let v = v0.push(id);
    assert(v0.no_duplicates()) by {
        assert forall|p: int, q: int| 0 <= p < v0.len() && 0 <= q < v0.len() && p != q implies v0[p] != v0[q] by {
            assert(v[p] == v0[p] && v[q] == v0[q]);
        }
    }
    assert(!v0.contains(id)) by {
        if v0.contains(id) {
            let k = choose|k: int| 0 <= k < v0.len() && v0[k] == id;
            assert(v[k] == id && v[v0.len() as int] == id);
        }
    }
    assert forall|k: int| 0 <= k < v0.len() implies in_table(t, #[trigger] v0[k]) by {
        assert(v[k] == v0[k]);
    }
    assert forall|k: int| 0 <= k < v0.len() - 1 implies depends(t, #[trigger] v0[k], v0[k + 1]) by {
        assert(v[k] == v0[k] && v[k + 1] == v0[k + 1]);
    }
    assert forall|p: int, q: int| 0 <= p < vis.len() && 0 <= q < vis.len() && p != q implies vis[p] != vis[q] by {
        if p == mid.len() {
            assert(vis[q] == mid[q]);
        } else if q == mid.len() {
            assert(vis[p] == mid[p]);
        } else {
            assert(vis[p] == mid[p] && vis[q] == mid[q]);
        }
    }
    assert forall|x: u128| vis.contains(x) implies !v0.contains(x) by {
        if x != id {
            let p = choose|p: int| 0 <= p < vis.len() && vis[p] == x;
            assert(mid[p] == x);
            assert(mid.contains(x));
            if v0.contains(x) {
                let q = choose|q: int| 0 <= q < v0.len() && v0[q] == x;
                assert(v[q] == x);
            }
        }
    }
    assert forall|a: int, d: u128|
        0 <= a < vis.len() && #[trigger] depends(t, vis[a], d) implies exists|j: int|
            0 <= j < a && #[trigger] vis[j] == d by {
        if a == mid.len() {
            let q = choose|q: int| 0 <= q < deps_of(t, id).len() && deps_of(t, id)[q] == d;
            assert(mid.contains(d));
            let j = choose|j: int| 0 <= j < mid.len() && mid[j] == d;
            assert(vis[j] == d);
        } else {
            assert(vis[a] == mid[a]);
            let j = choose|j: int| 0 <= j < a && #[trigger] mid[j] == d;
            assert(vis[j] == d);
        }
    }
    assert forall|k: int| 0 <= k < vis.len() implies in_table(t, #[trigger] vis[k]) by {
        if k < mid.len() {
            assert(vis[k] == mid[k]);
        }
    }
}

fn visit(t: &Vec<ParamDeps>, id: u128, visiting: &mut Vec<u128>, visited: &mut Vec<u128>) -> (r: Result<(), RigError>)
    requires
        in_table(t@, id),
        search_ok(t@, old(visiting)@, old(visited)@),
        old(visiting)@.len() > 0 ==> depends(t@, old(visiting)@.last(), id),
        old(visiting)@.len() <= t@.len(),
    ensures
        ({
            let d = dfs_node(t@, id, old(visiting)@, old(visited)@, (t@.len() + 1 - old(visiting)@.len()) as nat);
            match r {
                Ok(()) => d.0 is None && final(visited)@ == d.1,
                Err(e) => d.0 == Some((e.code, e.message@)),
            }
        }),
        r is Ok ==> {
            &&& final(visiting)@ == old(visiting)@
            &&& search_ok(t@, final(visiting)@, final(visited)@)
            &&& final(visited)@.contains(id)
            &&& forall|x: u128| old(visited)@.contains(x) ==> final(visited)@.contains(x)
        },
        r matches Err(e) ==> dependency_error(t@, e),
    decreases t@.len() - old(visiting)@.len(),
{
    if contains_id(visited, id) {
        return Ok(());
    }
    if contains_id(visiting, id) {
        proof {
            lemma_cycle_on_stack(t@, visiting@, id);
        }
        let e = cycle_error(id);
        assert(on_cycle(t@, id) && cycle_message(id) == e.message@);
        return Err(e);
    }
    let ghost v0 = visiting@;
    let ghost d0 = visited@;
    let ghost fuel = (t@.len() + 1 - v0.len()) as nat;
    proof {
        lemma_start(t@, v0, d0, id);
        assert(fuel > 0) by {
            assert(v0.push(id).len() <= t@.len());
        }
    }
    visiting.push(id);
    let i = match lookup(t, id) {
        Some(i) => i,
        None => {
            assert(false);
            return Ok(());
        },
    };
    proof {
        lemma_param_pos(t@, id, 0);
    }
    let entry = &t[i];
    match &entry.deps {
        Some(deps) => {
            let mut k: usize = 0;
            while k < deps.len()
                invariant
                    in_table(t@, id),
                    i == param_pos(t@, id, 0),
                    i < t@.len(),
                    *entry == t@[i as int],
                    entry.deps == Some(*deps),
                    deps_of(t@, id) == deps@,
                    k <= deps@.len(),
                    v0 == old(visiting)@,
                    visiting@ == v0.push(id),
                    visiting@.len() <= t@.len(),
                    search_ok(t@, visiting@, visited@),
                    !visited@.contains(id),
                    forall|x: u128| d0.contains(x) ==> visited@.contains(x),
                    forall|q: int| 0 <= q < k ==> visited@.contains(#[trigger] deps@[q]),
                    fuel == (t@.len() + 1 - v0.len()) as nat,
                    fuel > 0,
                    !d0.contains(id),
                    d0 == old(visited)@,
                    !v0.contains(id),
                    dfs_deps(t@, id, v0.push(id), visited@, (fuel - 1) as nat, k as int)
                        == dfs_deps(t@, id, v0.push(id), d0, (fuel - 1) as nat, 0),
                decreases deps@.len() - k,
            {
                let dep = deps[k];
                if lookup(t, dep).is_none() {
                    let e = unknown_error(dep, &entry.name);
                    proof {
                        assert(depends(t@, id, dep));
                        assert(!in_table(t@, dep));
                        assert(t@[param_pos(t@, id, 0)].name == entry.name);
                        assert(dfs_deps(t@, id, v0.push(id), visited@, (fuel - 1) as nat, k as int).0
                            == Some(unknown_issue(t@, id, dep)));
                        assert(dfs_node(t@, id, v0, d0, fuel).0 == Some((e.code, e.message@)));
                    }
                    return Err(e);
                }
                proof {
                    assert(depends(t@, visiting@.last(), dep));
                }
                let ghost before = visited@;
                match visit(t, dep, visiting, visited) {
                    Ok(()) => {},
                    Err(e) => {
                        assert(dfs_deps(t@, id, v0.push(id), before, (fuel - 1) as nat, k as int).0
                            == Some((e.code, e.message@)));
                        assert(dfs_node(t@, id, v0, d0, fuel).0 == Some((e.code, e.message@)));
                        return Err(e);
                    },
                }
                proof {
                    assert forall|q: int| 0 <= q < k + 1 implies visited@.contains(#[trigger] deps@[q]) by {
                        if q < k {
                            assert(before.contains(deps@[q]));
                        }
                    }
                    assert(visiting@.contains(id)) by {
                        assert(visiting@[v0.len() as int] == id);
                    }
                }
                k = k + 1;
            }
        },
        None => {},
    }
    let ghost mid = visited@;
    proof {
        lemma_finish(t@, v0, mid, id);
        assert(dfs_deps(t@, id, v0.push(id), d0, (fuel - 1) as nat, 0) == (None::<Issue>, mid));
    }
    let _ = visiting.pop();
    visited.push(id);
    proof {
        assert(visiting@ =~= v0);
        assert(visited@[mid.len() as int] == id);
        assert forall|x: u128| d0.contains(x) implies visited@.contains(x) by {
            assert(mid.contains(x));
            let p = choose|p: int| 0 <= p < mid.len() && mid[p] == x;
            assert(visited@[p] == x);
        }
    }
    Ok(())
}

/// In a finished search, everything a finished parameter references
/// finished strictly earlier, so no chain of references can come back.
proof fn lemma_finished_has_no_cycle(t: Seq<ParamDeps>, visited: Seq<u128>, id: u128)
    requires
        search_ok(t, Seq::empty(), visited),
        forall|x: u128| in_table(t, x) ==> visited.contains(x),
    ensures
        !on_cycle(t, id),
{
    if on_cycle(t, id) {
        let w = choose|w: Seq<u128>| w.len() >= 2 && w[0] == id && w.last() == id && #[trigger] is_dep_path(t, w);
        assert(depends(t, w[0], w[1]));
        assert(in_table(t, w[0])) by {
            if !in_table(t, w[0]) {
                assert(deps_of(t, w[0]) =~= Seq::<u128>::empty());
            }
        }
        let p0 = choose|p: int| 0 <= p < visited.len() && visited[p] == w[0];
        let j1 = choose|j: int| 0 <= j < p0 && #[trigger] visited[j] == w[1];
        lemma_walk_descends(t, visited, w, p0, j1, 1);
        let j = choose|j: int| 0 <= j < p0 && visited[j] == w.last();
        assert(visited[j] == visited[p0]);
    }
}

/// Along a reference chain whose start finished at `p0`, every later step
/// finished before `p0`; in particular the last one.
proof fn lemma_walk_descends(t: Seq<ParamDeps>, visited: Seq<u128>, w: Seq<u128>, p0: int, p: int, k: int)
    requires
        search_ok(t, Seq::empty(), visited),
        is_dep_path(t, w),
        1 <= k < w.len(),
        0 <= p < p0 < visited.len(),
        visited[p] == w[k],
    ensures
        exists|j: int| 0 <= j < p0 && visited[j] == w.last(),
    decreases w.len() - k,
{
    if k == w.len() - 1 {
        assert(visited[p] == w.last());
    } else {
        assert(depends(t, w[k], w[k + 1]));
        let j = choose|j: int| 0 <= j < p && #[trigger] visited[j] == w[k + 1];
        lemma_walk_descends(t, visited, w, p0, j, k + 1);
    }
}

/// Walk derived-parameter expressions and report a cycle or an unknown
/// reference if one exists. `Ok` exactly when every referenced parameter
/// exists and no parameter depends on itself; otherwise the first finding
/// of a depth-first walk in table order.
pub fn check_param_cycles(table: &Vec<ParamDeps>) -> (r: Result<(), RigError>)
    ensures
        r is Ok <==> (all_known(table@) && acyclic(table@)),
        r matches Err(e) ==> dependency_error(table@, e),
        match r {
            Ok(()) => first_dependency_issue(table@) is None,
            Err(e) => first_dependency_issue(table@) == Some((e.code, e.message@)),
        },
{
    let mut visiting: Vec<u128> = Vec::new();
    let mut visited: Vec<u128> = Vec::new();
    let mut i: usize = 0;
    proof {
        assert(search_ok(table@, visiting@, visited@));
    }
    while i < table.len()
        invariant
            i <= table@.len(),
            visiting@ == Seq::<u128>::empty(),
            search_ok(table@, visiting@, visited@),
            forall|j: int| 0 <= j < i ==> visited@.contains(#[trigger] table@[j].id),
            dfs_table(table@, i as int, visited@) == first_dependency_issue(table@),
        decreases table@.len() - i,
    {
        proof {
            lemma_param_pos(table@, table@[i as int].id, 0);
            assert(in_table(table@, table@[i as int].id)) by {
                if param_pos(table@, table@[i as int].id, 0) < 0 {
                    assert(table@[i as int].id != table@[i as int].id);
                }
            }
        }
        let ghost before = visited@;
        match visit(table, table[i].id, &mut visiting, &mut visited) {
            Ok(()) => {},
            Err(e) => {
                proof {
                    lemma_error_means_failure(table@, e);
                    assert(dfs_table(table@, i as int, before) == Some((e.code, e.message@)));
                }
                return Err(e);
            },
        }
        proof {
            assert(dfs_table(table@, i as int, before) == dfs_table(table@, i + 1, visited@));
            assert forall|j: int| 0 <= j < i + 1 implies visited@.contains(#[trigger] table@[j].id) by {
                if j < i {
                    assert(before.contains(table@[j].id));
                }
            }
        }
        i = i + 1;
    }
    proof {
        assert forall|x: u128| in_table(table@, x) implies visited@.contains(x) by {
            lemma_param_pos(table@, x, 0);
            assert(visited@.contains(table@[param_pos(table@, x, 0)].id));
        }
        assert forall|a: u128, d: u128| #[trigger] depends(table@, a, d) implies in_table(table@, d) by {
            assert(in_table(table@, a)) by {
                if !in_table(table@, a) {
                    assert(deps_of(table@, a) =~= Seq::<u128>::empty());
                }
            }
            let p = choose|p: int| 0 <= p < visited@.len() && visited@[p] == a;
            let j = choose|j: int| 0 <= j < p && #[trigger] visited@[j] == d;
        }
        assert forall|x: u128| !#[trigger] on_cycle(table@, x) by {
            lemma_finished_has_no_cycle(table@, visited@, x);
        }
    }
    Ok(())
}

/// A reported dependency error means the table is not clean.
proof fn lemma_error_means_failure(t: Seq<ParamDeps>, e: RigError)
    requires
        dependency_error(t, e),
    ensures
        !(all_known(t) && acyclic(t)),
{
    if exists|id: u128| on_cycle(t, id) && e.code == RigErrorKind::ParamCycle && #[trigger] cycle_message(id) == e.message@ {
        let id = choose|id: u128| on_cycle(t, id) && e.code == RigErrorKind::ParamCycle && #[trigger] cycle_message(id) == e.message@;
        assert(!acyclic(t));
    } else {
        let (a, d) = choose|a: u128, d: u128|
            #[trigger] depends(t, a, d) && !in_table(t, d) && e.code == RigErrorKind::UnknownParam
                && e.message@ == unknown_message(d, t[param_pos(t, a, 0)].name@);
        assert(!all_known(t));
    }
}

/// The first dependency finding as a list: empty when the table is clean.
pub open spec fn dependency_issues(t: Seq<ParamDeps>) -> Seq<Issue> {
    match first_dependency_issue(t) {
        Some(x) => seq![x],
        None => Seq::empty(),
    }
}

/// An earlier entry of the table has the same name as entry `k`.
pub open spec fn name_taken(t: Seq<ParamDeps>, k: int) -> bool {
    exists|j: int| 0 <= j < k && #[trigger] t[j].name@ == t[k].name@
}

/// Findings of one table entry: a repeated name, then a negative tolerance.
pub open spec fn param_entry_issues(t: Seq<ParamDeps>, k: int) -> Seq<Issue> {
    (if name_taken(t, k) {
        seq![(RigErrorKind::DanglingRef, quoted("duplicate parameter name "@, t[k].name@, ""@))]
    } else {
        Seq::empty()
    }) + (if t[k].negative_tolerance {
        seq![(RigErrorKind::BadValue, quoted("parameter "@, t[k].name@, " has negative tolerance"@))]
    } else {
        Seq::empty()
    })
}

/// Findings of the table's entries, entry by entry.
pub open spec fn param_table_issues(t: Seq<ParamDeps>) -> Seq<Issue> {
    concat(Seq::new(t.len(), |k: int| param_entry_issues(t, k)))
}

/// Message of a parameter name used by an earlier entry.
pub open spec fn duplicate_name_message(name: Seq<char>) -> Seq<char> {
    "duplicate parameter name "@ + "'"@ + name + "'"@
}

/// Every entry whose name appeared at any earlier position of the table is
/// reported as a duplicate name, whatever lies between the two.
pub proof fn lemma_repeated_names_reported(t: Seq<ParamDeps>, j: int, k: int)
    requires
        0 <= j < k < t.len(),
        t[j].name@ == t[k].name@,
    ensures
        param_table_issues(t).contains((RigErrorKind::DanglingRef, duplicate_name_message(t[k].name@))),
{
    reveal_strlit("");
    let s = Seq::new(t.len(), |q: int| param_entry_issues(t, q));
    assert(t[j].name@ == t[k].name@);
    assert(name_taken(t, k));
    let x = (RigErrorKind::DanglingRef, duplicate_name_message(t[k].name@));
    let e = param_entry_issues(t, k);
    assert(e[0].1 =~= x.1);
    assert(e[0] == x);
    assert(s[k] == e);
    crate::rig::topology::lemma_concat_contains(s, k, x);
}

fn name_seen(table: &Vec<ParamDeps>, k: usize) -> (r: bool)
    requires
        k < table@.len(),
    ensures
        r == name_taken(table@, k as int),
{
    let mut j: usize = 0;
    while j < k
        invariant
            k < table@.len(),
            j <= k,
            forall|q: int| 0 <= q < j ==> table@[q].name@ != table@[k as int].name@,
        decreases k - j,
    {
        if str_eq(table[j].name.as_str(), table[k].name.as_str()) {
            return true;
        }
        j = j + 1;
    }
    false
}

/// Check the parameter table: per entry a repeated name and a negative
/// tolerance, in table order, then the first dependency error if any
/// referenced parameter is missing or some parameter depends on itself.
pub fn check_param_table(table: &Vec<ParamDeps>) -> (errs: Vec<RigError>)
    ensures
        issues_of(errs@) == param_table_issues(table@) + dependency_issues(table@),
        (all_known(table@) && acyclic(table@)) ==> issues_of(errs@) == param_table_issues(table@),
        !(all_known(table@) && acyclic(table@)) ==> {
            &&& errs@.len() >= 1
            &&& issues_of(errs@.drop_last()) == param_table_issues(table@)
            &&& dependency_error(table@, errs@.last())
        },
        forall|j: int, k: int| 0 <= j < k < table@.len() && #[trigger] table@[j].name@ == #[trigger] table@[k].name@
            ==> issues_of(errs@).contains((RigErrorKind::DanglingRef, duplicate_name_message(table@[k].name@))),
{
    let mut errs: Vec<RigError> = Vec::new();
    let mut k: usize = 0;
    while k < table.len()
        invariant
            k <= table@.len(),
            issues_of(errs@) == concat(Seq::new(k as nat, |q: int| param_entry_issues(table@, q))),
        decreases table@.len() - k,
    {
        let ghost before = issues_of(errs@);
        if name_seen(table, k) {
            let m = quoted_string("duplicate parameter name ", &table[k].name, "");
            push_issue(&mut errs, RigErrorKind::DanglingRef, m);
        }
        if table[k].negative_tolerance {
            let m = quoted_string("parameter ", &table[k].name, " has negative tolerance");
            push_issue(&mut errs, RigErrorKind::BadValue, m);
        }
        proof {
            let s1 = Seq::new((k + 1) as nat, |q: int| param_entry_issues(table@, q));
            let s0 = Seq::new(k as nat, |q: int| param_entry_issues(table@, q));
            assert(s1.drop_last() =~= s0);
            assert(issues_of(errs@) =~= before + param_entry_issues(table@, k as int));
        }
        k = k + 1;
    }
    let ghost start = issues_of(errs@);
    match check_param_cycles(table) {
        Ok(()) => {
            assert(issues_of(errs@) =~= start + dependency_issues(table@));
        },
        Err(e) => {
            let ghost before = errs@;
            errs.push(e);
            assert(errs@.drop_last() =~= before);
            assert(issues_of(errs@) =~= start + dependency_issues(table@));
        },
    }
    proof {
        assert forall|j: int, k: int| 0 <= j < k < table@.len() && #[trigger] table@[j].name@ == #[trigger] table@[k].name@
            implies issues_of(errs@).contains((RigErrorKind::DanglingRef, duplicate_name_message(table@[k].name@))) by {
            let x = (RigErrorKind::DanglingRef, duplicate_name_message(table@[k].name@));
            lemma_repeated_names_reported(table@, j, k);
            let a = param_table_issues(table@);
            let i = choose|i: int| 0 <= i < a.len() && a[i] == x;
            assert((a + dependency_issues(table@))[i] == x);
        }
    }
    errs
}

/// The first parameter named `name`.
pub fn param_named<'a>(table: &'a Vec<ParamDeps>, name: &str) -> (r: Option<&'a ParamDeps>)
    ensures
        match r {
            Some(p) => exists|i: int| 0 <= i < table@.len() && *p == table@[i] && p.name@ == name@
                && forall|j: int| 0 <= j < i ==> (#[trigger] table@[j]).name@ != name@,
            None => forall|j: int| 0 <= j < table@.len() ==> (#[trigger] table@[j]).name@ != name@,
        },
{
    let mut i: usize = 0;
    while i < table.len()
        invariant
            i <= table@.len(),
            forall|j: int| 0 <= j < i ==> (#[trigger] table@[j]).name@ != name@,
        decreases table@.len() - i,
    {
        if str_eq(table[i].name.as_str(), name) {
            return Some(&table[i]);
        }
        i = i + 1;
    }
    None
}

} // verus!
