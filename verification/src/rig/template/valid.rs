//! A layered pick always wires into a rig graph that passes the structural
//! checks: no dangling reference, nodes placed right, one root, plain
//! members, every node reachable from the hook and every body carried.
use vstd::prelude::*;
use crate::layers::split::{effective_children, effective_ends, lemma_split_conserves_slings, seq_sum, split_spec};
use crate::rig::connect::{connected, is_walk, linked, path_neighbors, same_body, touched};
use crate::rig::node::NodeRole;
use crate::rig::connect::{connectivity_issues, disconnected_issue, unsupported_issue};
use crate::rig::topology::{
    Issue, TopoBody, TopoMember, TopoNode, Topology, concat, dangling_issues, has_body, has_node,
    issues_of, lemma_node_pos, member_issues, member_path_issues, members_issues, node_body_issue,
    node_of, node_pos, param_ref_issue, path_stop_issue, placement_issue, placement_issues,
    root_issues, root_nodes,
};
use crate::rig::validate::validation_errors;
use crate::text::decimal;
use crate::rig::component::ComponentTag;
use crate::rig::param::{ParamSource, Quantity};
use super::{
    LayerShape, apex_found, apex_parts, sling_parts, link_parts, layer_name, layers_wire, wire_start, start_params,
    fresh, group_ids, hang_of, layer_label, pick_at, slings_rigged, MemberV, NodeV, Wire, layer_points,
    layer_step, members_plain, same_graph, sling_members, sling_start, parent_members, wire_from, with_body,
    with_load_links, with_member, with_node, with_nodes, with_param, with_slings, with_tare, hook_id, root_id,
    load_id, height_param,
};

verus! {

/// `b` keeps everything `a` has, at the same positions.
pub open spec fn extends(a: Wire, b: Wire) -> bool {
    &&& a.nodes.len() <= b.nodes.len()
    &&& a.bodies.len() <= b.bodies.len()
    &&& a.members.len() <= b.members.len()
    &&& forall|k: int| 0 <= k < a.nodes.len() ==> b.nodes[k] == #[trigger] a.nodes[k]
    &&& forall|k: int| 0 <= k < a.bodies.len() ==> b.bodies[k] == #[trigger] a.bodies[k]
    &&& forall|k: int| 0 <= k < a.members.len() ==> b.members[k] == #[trigger] a.members[k]
}

proof fn lemma_extends_trans(a: Wire, b: Wire, c: Wire)
    requires
        extends(a, b),
        extends(b, c),
    ensures
        extends(a, c),
{
    assert forall|k: int| 0 <= k < a.nodes.len() implies c.nodes[k] == #[trigger] a.nodes[k] by {
        assert(b.nodes[k] == a.nodes[k]);
    }
    assert forall|k: int| 0 <= k < a.bodies.len() implies c.bodies[k] == #[trigger] a.bodies[k] by {
        assert(b.bodies[k] == a.bodies[k]);
    }
    assert forall|k: int| 0 <= k < a.members.len() implies c.members[k] == #[trigger] a.members[k] by {
        assert(b.members[k] == a.members[k]);
    }
}

/// `t` is the graph the wire `w` describes.
pub open spec fn matches(t: Topology, w: Wire) -> bool {
    same_graph(t, w) && members_plain(t)
}

proof fn lemma_node_at(t: Topology, w: Wire, k: int)
    requires
        matches(t, w),
        0 <= k < w.nodes.len(),
    ensures
        k < t.nodes@.len(),
        t.nodes@[k].id == w.nodes[k].id,
        t.nodes@[k].body == w.nodes[k].body,
        t.nodes@[k].role == w.nodes[k].role,
        t.nodes@[k].label@ == w.nodes[k].label,
{
    assert(w.nodes == t.nodes@.map_values(|n: crate::rig::topology::TopoNode| super::node_view(n)));
    assert(w.nodes[k] == super::node_view(t.nodes@[k]));
}

proof fn lemma_body_at(t: Topology, w: Wire, k: int)
    requires
        matches(t, w),
        0 <= k < w.bodies.len(),
    ensures
        k < t.bodies@.len(),
        t.bodies@[k].id == w.bodies[k].id,
        t.bodies@[k].label@ == w.bodies[k].label,
{
    assert(w.bodies == t.bodies@.map_values(|b: crate::rig::topology::TopoBody| super::body_view(b)));
    assert(w.bodies[k] == super::body_view(t.bodies@[k]));
}

proof fn lemma_member_at(t: Topology, w: Wire, m: int)
    requires
        matches(t, w),
        0 <= m < w.members.len(),
    ensures
        m < t.members@.len(),
        t.members@[m].path@ == seq![w.members[m].from, w.members[m].to],
        t.members@[m].label@ == w.members[m].label,
        t.members@[m].segments@.len() == 1,
        t.members@[m].segment_issues@.len() == 0,
{
    assert(w.members == t.members@.map_values(|x: crate::rig::topology::TopoMember| super::member_view(x)));
    assert(w.members[m] == super::member_view(t.members@[m]));
    assert(t.members@[m].path@.len() == 2);
    assert(t.members@[m].path@ =~= seq![w.members[m].from, w.members[m].to]);
}

/// A member links its two stops, both ways.
proof fn lemma_member_linked(t: Topology, w: Wire, m: int)
    requires
        matches(t, w),
        0 <= m < w.members.len(),
    ensures
        linked(t, w.members[m].from, w.members[m].to),
        linked(t, w.members[m].to, w.members[m].from),
{
    lemma_member_at(t, w, m);
    let x = w.members[m].from;
    let y = w.members[m].to;
    assert(t.members@[m].path@[0] == x && t.members@[m].path@[1] == y);
    assert(path_neighbors(t, x, y));
    assert(path_neighbors(t, y, x));
}

/// Two nodes on the same body are linked.
proof fn lemma_same_body_linked(t: Topology, w: Wire, a: int, b: int)
    requires
        matches(t, w),
        0 <= a < w.nodes.len(),
        0 <= b < w.nodes.len(),
        w.nodes[a].body is Some,
        w.nodes[a].body == w.nodes[b].body,
    ensures
        linked(t, w.nodes[a].id, w.nodes[b].id),
{
    lemma_node_at(t, w, a);
    lemma_node_at(t, w, b);
    assert(same_body(t, w.nodes[a].id, w.nodes[b].id));
}

/// The root reaches itself.
proof fn lemma_root_connected(t: Topology)
    ensures
        connected(t, t.root),
{
    let w = seq![t.root];
    assert(is_walk(t, w));
}

/// Reachability extends along a link.
proof fn lemma_connect_step(t: Topology, x: u128, y: u128)
    requires
        connected(t, x),
        linked(t, x, y),
    ensures
        connected(t, y),
{
    let w = choose|w: Seq<u128>| #[trigger] is_walk(t, w) && w[0] == t.root && w.last() == x;
    let w2 = w.push(y);
    assert forall|k: int| 0 <= k < w2.len() - 1 implies linked(t, #[trigger] w2[k], w2[k + 1]) by {
        if k < w.len() - 1 {
            assert(w2[k] == w[k] && w2[k + 1] == w[k + 1]);
        } else {
            assert(w2[k] == x && w2[k + 1] == y);
        }
    }
    assert(is_walk(t, w2));
}

/// A body carrying node `k` is touched by member `m` that stops there.
proof fn lemma_touched(t: Topology, w: Wire, k: int, m: int, bid: u128)
    requires
        matches(t, w),
        0 <= k < w.nodes.len(),
        0 <= m < w.members.len(),
        w.nodes[k].body == Some(bid),
        w.members[m].from == w.nodes[k].id || w.members[m].to == w.nodes[k].id,
    ensures
        touched(t, bid),
{
    lemma_node_at(t, w, k);
    lemma_member_at(t, w, m);
    let path = t.members@[m].path@;
    if w.members[m].from == w.nodes[k].id {
        assert(path[0] == t.nodes@[k].id);
    } else {
        assert(path[1] == t.nodes@[k].id);
    }
    assert(path.contains(t.nodes@[k].id));
}

/// Index of sling `j` of parent `p`.
pub open spec fn sling_index(s: Seq<u32>, p: int, j: int) -> int {
    sling_start(s, p) + j
}

/// Every index below the total of a split lands on one parent's slings.
proof fn lemma_sling_owner(s: Seq<u32>, k: int)
    requires
        0 <= k < seq_sum(s),
    ensures
        exists|p: int, j: int| 0 <= p < s.len() && 0 <= j < s[p] && #[trigger] sling_index(s, p, j) == k,
    decreases s.len(),
{
    if s.len() == 0 {
        assert(false);
    } else {
        let d = s.drop_last();
        let p = s.len() - 1;
        if k < seq_sum(d) {
            lemma_sling_owner(d, k);
            let (q, j) = choose|q: int, j: int| 0 <= q < d.len() && 0 <= j < d[q] && #[trigger] sling_index(d, q, j) == k;
            assert(d.take(q) =~= s.take(q));
            assert(sling_index(s, q, j) == k);
        } else {
            assert(s.take(p) =~= d);
            assert(sling_index(s, p, k - seq_sum(d)) == k);
        }
    }
}

proof fn lemma_with_param_extends(w: Wire, ids: Seq<u128>, name: Seq<char>, q: Quantity, src: ParamSource)
    ensures
        extends(w, with_param(w, ids, name, q, src)),
{
}

proof fn lemma_with_body_extends(w: Wire, ids: Seq<u128>, label: Seq<char>, refs: Seq<u128>)
    ensures
        extends(w, with_body(w, ids, label, refs)),
{
}

proof fn lemma_with_node_extends(w: Wire, ids: Seq<u128>, body: Option<u128>, role: NodeRole, label: Seq<char>)
    ensures
        extends(w, with_node(w, ids, body, role, label)),
{
}

proof fn lemma_with_member_extends(w: Wire, label: Seq<char>, from: u128, to: u128, parts: Seq<ComponentTag>)
    ensures
        extends(w, with_member(w, label, from, to, parts)),
{
}

proof fn lemma_with_nodes_extends(w: Wire, ids: Seq<u128>, body: Option<u128>, role: NodeRole, n: nat, lab: spec_fn(nat) -> Seq<char>, zref: Option<u128>)
    ensures
        extends(w, with_nodes(w, ids, body, role, n, lab, zref)),
{
}

proof fn lemma_with_load_links_extends(w: Wire, ids: Seq<u128>, load: u128, i: nat, below: Seq<u128>)
    ensures
        extends(w, with_load_links(w, ids, load, i, below)),
{
}

proof fn lemma_with_slings_extends(w: Wire, ids: Seq<u128>, i: nat, apex: bool, parents: Seq<u128>, splits: Seq<u32>, picks: Seq<u128>, p: nat, aparts: Seq<ComponentTag>, sparts: Seq<ComponentTag>)
    ensures
        extends(w, with_slings(w, ids, i, apex, parents, splits, picks, p, aparts, sparts)),
{
}

proof fn lemma_with_tare_extends(w: Wire, ids: Seq<u128>, i: nat, host: u128)
    ensures
        extends(w, with_tare(w, ids, i, host)),
{
    let w1 = with_body(w, ids, super::layer_name(i, " tare"@), Seq::empty());
    let w2 = with_node(w1, ids, Some(super::fresh(w, ids)), NodeRole::Lug, super::layer_name(i, " tare node"@));
    lemma_with_body_extends(w, ids, super::layer_name(i, " tare"@), Seq::empty());
    lemma_with_node_extends(w1, ids, Some(super::fresh(w, ids)), NodeRole::Lug, super::layer_name(i, " tare node"@));
    lemma_with_member_extends(w2, super::layer_name(i, " tare hang"@), host, super::fresh(w1, ids), link_parts());
    lemma_extends_trans(w, w1, w2);
    lemma_extends_trans(w, w2, with_tare(w, ids, i, host));
}

proof fn lemma_layer_points_extends(w: Wire, ids: Seq<u128>, load: u128, i: nat, l: LayerShape, last: bool)
    ensures
        extends(w, layer_points(w, ids, load, i, l, last).0),
{
    let n = super::slings_rigged(l);
    if l.has_bar {
        let span = super::fresh(w, ids);
        let w0 = with_param(w, ids, "span_layer"@ + crate::text::decimal(i), Quantity::Length, ParamSource::Assumed);
        let bar = super::fresh(w0, ids);
        let w1 = with_body(w0, ids, "Spreader L"@ + crate::text::decimal(i), seq![span]);
        let lab1 = |k: nat| super::layer_label(i, " bar pick "@, k);
        let w2 = with_nodes(w1, ids, Some(bar), NodeRole::Lug, n, lab1, None);
        let ends = crate::calc::endpoints_spec(true, l.sling_count) as nat;
        let m = super::bar_end_count(l);
        let lab2 = |k: nat| super::layer_label(i, " bar end "@, k);
        let w3 = if ends != n { with_nodes(w2, ids, Some(bar), NodeRole::Lug, m, lab2, None) } else { w2 };
        let below = if ends != n { super::group_ids(w2, ids, m) } else { super::group_ids(w1, ids, n) };
        lemma_with_param_extends(w, ids, "span_layer"@ + crate::text::decimal(i), Quantity::Length, ParamSource::Assumed);
        lemma_with_body_extends(w0, ids, "Spreader L"@ + crate::text::decimal(i), seq![span]);
        lemma_with_nodes_extends(w1, ids, Some(bar), NodeRole::Lug, n, lab1, None);
        lemma_with_nodes_extends(w2, ids, Some(bar), NodeRole::Lug, m, lab2, None);
        lemma_with_load_links_extends(w3, ids, load, i, below);
        lemma_extends_trans(w, w0, w1);
        lemma_extends_trans(w, w1, w2);
        lemma_extends_trans(w, w2, w3);
        if last {
            lemma_extends_trans(w, w3, with_load_links(w3, ids, load, i, below));
        }
    } else if last {
        lemma_with_nodes_extends(w, ids, Some(load), NodeRole::Lug, n, |k: nat| "P"@ + crate::text::decimal(k), Some(height_param(ids)));
    } else {
        lemma_with_nodes_extends(w, ids, None, NodeRole::Free, n, |k: nat| super::layer_label(i, " knot "@, k), None);
    }
}

proof fn lemma_layer_step_extends(w: Wire, ids: Seq<u128>, load: u128, parents: Seq<u128>, l: LayerShape, i: nat, last: bool)
    ensures
        extends(w, layer_step(w, ids, load, parents, l, i, last).0),
{
    let a = layer_points(w, ids, load, i, l, last);
    let wl = with_param(a.0, ids, "l_layer"@ + crate::text::decimal(i), Quantity::Length, ParamSource::Drawing);
    let splits = crate::layers::split::split_spec(parents.len() as u32, super::slings_rigged(l) as u32);
    let aparts = apex_parts(l);
    let sparts = sling_parts(l);
    let wb = with_slings(wl, ids, i, apex_found(l), parents, splits, a.1, parents.len(), aparts, sparts);
    lemma_layer_points_extends(w, ids, load, i, l, last);
    lemma_with_param_extends(a.0, ids, "l_layer"@ + crate::text::decimal(i), Quantity::Length, ParamSource::Drawing);
    lemma_with_slings_extends(wl, ids, i, apex_found(l), parents, splits, a.1, parents.len(), aparts, sparts);
    lemma_extends_trans(w, a.0, wl);
    lemma_extends_trans(w, wl, wb);
    if l.has_tare {
        lemma_with_tare_extends(wb, ids, i, a.1[0]);
        lemma_extends_trans(w, wb, with_tare(wb, ids, i, a.1[0]));
    }
}

proof fn lemma_wire_from_extends(w: Wire, ids: Seq<u128>, load: u128, parents: Seq<u128>, layers: Seq<LayerShape>, i: nat)
    ensures
        extends(w, wire_from(w, ids, load, parents, layers, i)),
    decreases layers.len() - i,
{
    if i < layers.len() {
        let r = layer_step(w, ids, load, parents, layers[i as int], i, i + 1 == layers.len());
        lemma_layer_step_extends(w, ids, load, parents, layers[i as int], i, i + 1 == layers.len());
        lemma_wire_from_extends(r.0, ids, load, r.1, layers, i + 1);
        lemma_extends_trans(w, r.0, wire_from(r.0, ids, load, r.1, layers, i + 1));
    }
}

/// A member of a wire that `w` grows into links its stops in `t`.
proof fn lemma_contained_member(t: Topology, w: Wire, wx: Wire, e: MemberV)
    requires
        matches(t, w),
        extends(wx, w),
        wx.members.contains(e),
    ensures
        linked(t, e.from, e.to),
        linked(t, e.to, e.from),
        exists|m: int| 0 <= m < w.members.len() && #[trigger] w.members[m] == e,
{
    let m = choose|m: int| 0 <= m < wx.members.len() && wx.members[m] == e;
    assert(w.members[m] == wx.members[m]);
    lemma_member_linked(t, w, m);
}

proof fn lemma_seq_contains_right<A>(a: Seq<A>, b: Seq<A>, e: A)
    requires
        b.contains(e),
    ensures
        (a + b).contains(e),
{
    let j = choose|j: int| 0 <= j < b.len() && b[j] == e;
    assert((a + b)[a.len() + j] == e);
}

proof fn lemma_seq_contains_left<A>(a: Seq<A>, b: Seq<A>, e: A)
    requires
        a.contains(e),
    ensures
        (a + b).contains(e),
{
    let j = choose|j: int| 0 <= j < a.len() && a[j] == e;
    assert((a + b)[j] == e);
}

/// Parent `p`'s members are among the members of the first `count` parents.
proof fn lemma_parent_member_in(w: Wire, ids: Seq<u128>, i: nat, apex: bool, parents: Seq<u128>, splits: Seq<u32>, picks: Seq<u128>, count: nat, p: int, e: MemberV, aparts: Seq<ComponentTag>, sparts: Seq<ComponentTag>)
    requires
        0 <= p < count,
        parent_members(w, ids, i, apex, parents, splits, picks, p, aparts, sparts).contains(e),
    ensures
        sling_members(w, ids, i, apex, parents, splits, picks, count, aparts, sparts).contains(e),
    decreases count,
{
    let prev = sling_members(w, ids, i, apex, parents, splits, picks, (count - 1) as nat, aparts, sparts);
    let last = parent_members(w, ids, i, apex, parents, splits, picks, count - 1, aparts, sparts);
    assert(sling_members(w, ids, i, apex, parents, splits, picks, count, aparts, sparts) == prev + last);
    if p == count - 1 {
        lemma_seq_contains_right(prev, last, e);
    } else {
        lemma_parent_member_in(w, ids, i, apex, parents, splits, picks, (count - 1) as nat, p, e, aparts, sparts);
        lemma_seq_contains_left(prev, last, e);
    }
}

/// `x` is the identifier of a node of `w`.
pub open spec fn wnode(w: Wire, x: u128) -> bool {
    exists|k: int| 0 <= k < w.nodes.len() && #[trigger] w.nodes[k].id == x
}

/// `x` is the identifier of a body of `w`.
pub open spec fn wbody(w: Wire, x: u128) -> bool {
    exists|k: int| 0 <= k < w.bodies.len() && #[trigger] w.bodies[k].id == x
}

proof fn lemma_wnode_grows(a: Wire, b: Wire, x: u128)
    requires
        extends(a, b),
        wnode(a, x),
    ensures
        wnode(b, x),
{
    let k = choose|k: int| 0 <= k < a.nodes.len() && #[trigger] a.nodes[k].id == x;
    assert(b.nodes[k] == a.nodes[k]);
}

proof fn lemma_wbody_grows(a: Wire, b: Wire, x: u128)
    requires
        extends(a, b),
        wbody(a, x),
    ensures
        wbody(b, x),
{
    let k = choose|k: int| 0 <= k < a.bodies.len() && #[trigger] a.bodies[k].id == x;
    assert(b.bodies[k] == a.bodies[k]);
}

/// Placement of node `k`: free nodes have no body, the others sit on a
/// body of the wire; only lugs, free nodes and the root occur.
pub open spec fn node_ok(w: Wire, k: int) -> bool {
    let n = w.nodes[k];
    &&& (n.role == NodeRole::Free) == (n.body is None)
    &&& (n.role == NodeRole::Lug || n.role == NodeRole::Free || n.role == NodeRole::Root)
    &&& (n.body is Some ==> wbody(w, n.body->0))
}

/// The structural facts every stage of the wiring keeps: the hook node
/// first and the only root, nodes placed right, bodies of hook and load
/// present, and every member stop a node.
pub open spec fn wire_ok(w: Wire, ids: Seq<u128>) -> bool {
    &&& w.nodes.len() >= 1
    &&& w.nodes[0].id == root_id(ids)
    &&& w.nodes[0].role == NodeRole::Root
    &&& w.nodes[0].body == Some(hook_id(ids))
    &&& wbody(w, hook_id(ids))
    &&& wbody(w, load_id(ids))
    &&& forall|k: int| 1 <= k < w.nodes.len() ==> (#[trigger] w.nodes[k]).role != NodeRole::Root
    &&& forall|k: int| 0 <= k < w.nodes.len() ==> #[trigger] node_ok(w, k)
    &&& forall|m: int| 0 <= m < w.members.len() ==> wnode(w, (#[trigger] w.members[m]).from) && wnode(w, w.members[m].to)
}

proof fn lemma_wire_ok_grow(w: Wire, w2: Wire, ids: Seq<u128>)
    requires
        wire_ok(w, ids),
        extends(w, w2),
        forall|k: int| w.nodes.len() <= k < w2.nodes.len() ==> #[trigger] node_ok(w2, k) && w2.nodes[k].role != NodeRole::Root,
        forall|m: int| w.members.len() <= m < w2.members.len() ==> wnode(w2, (#[trigger] w2.members[m]).from) && wnode(w2, w2.members[m].to),
    ensures
        wire_ok(w2, ids),
{
    assert(w2.nodes[0] == w.nodes[0]);
    lemma_wbody_grows(w, w2, hook_id(ids));
    lemma_wbody_grows(w, w2, load_id(ids));
    assert forall|k: int| 1 <= k < w2.nodes.len() implies (#[trigger] w2.nodes[k]).role != NodeRole::Root by {
        if k < w.nodes.len() {
            assert(w2.nodes[k] == w.nodes[k]);
        } else {
            assert(node_ok(w2, k));
        }
    }
    assert forall|k: int| 0 <= k < w2.nodes.len() implies #[trigger] node_ok(w2, k) by {
        if k < w.nodes.len() {
            assert(node_ok(w, k));
            assert(w2.nodes[k] == w.nodes[k]);
            if w.nodes[k].body is Some {
                lemma_wbody_grows(w, w2, w.nodes[k].body->0);
            }
        }
    }
    assert forall|m: int| 0 <= m < w2.members.len() implies wnode(w2, (#[trigger] w2.members[m]).from) && wnode(w2, w2.members[m].to) by {
        if m < w.members.len() {
            assert(w2.members[m] == w.members[m]);
            assert(wnode(w, w.members[m].from) && wnode(w, w.members[m].to));
            lemma_wnode_grows(w, w2, w.members[m].from);
            lemma_wnode_grows(w, w2, w.members[m].to);
        }
    }
}

/// Node `k` sits on the same body as node `n0`.
pub open spec fn on_first_body(w: Wire, n0: int, k: int) -> bool {
    w.nodes[n0].body is Some && w.nodes[k].body == w.nodes[n0].body
}

/// A node after the pick points: on the pick points' body, or hung by a
/// member from one of the endpoints below.
pub open spec fn pending(w: Wire, n0: int, below: Seq<u128>, k: int) -> bool {
    ||| on_first_body(w, n0, k)
    ||| exists|m: int| 0 <= m < w.members.len() && (#[trigger] w.members[m]).to == w.nodes[k].id && below.contains(w.members[m].from)
}

/// Endpoint `q` below is a pick point or a node on the pick points' body.
pub open spec fn below_at(w: Wire, n0: int, n: int, below: Seq<u128>, q: int) -> bool {
    exists|k: int| n0 <= k < w.nodes.len() && #[trigger] w.nodes[k].id == below[q] && (k < n0 + n || on_first_body(w, n0, k))
}

/// The load is carried: the pick points sit on it, or a member ends on a
/// node that does.
pub open spec fn load_reached(w: Wire, n0: int, load: u128) -> bool {
    ||| w.nodes[n0].body == Some(load)
    ||| exists|k: int, m: int| 0 <= k < w.nodes.len() && 0 <= m < w.members.len() && #[trigger] w.nodes[k].body == Some(load) && #[trigger] w.members[m].to == w.nodes[k].id
}

/// What the pick-point phase of a layer leaves: the pick points right after
/// the old nodes, every later node pending on them, the endpoints below
/// among them, new bodies carrying them.
pub open spec fn points_ok(w: Wire, wa: Wire, picks: Seq<u128>, below: Seq<u128>, ids: Seq<u128>, load: u128, last: bool) -> bool {
    let n0 = w.nodes.len() as int;
    let n = picks.len() as int;
    &&& extends(w, wa)
    &&& wire_ok(wa, ids)
    &&& 1 <= n <= u32::MAX
    &&& n0 + n <= wa.nodes.len()
    &&& forall|q: int| 0 <= q < n ==> wa.nodes[n0 + q].id == #[trigger] picks[q]
    &&& 1 <= below.len() <= u32::MAX
    &&& forall|k: int| n0 + n <= k < wa.nodes.len() ==> #[trigger] pending(wa, n0, below, k)
    &&& forall|q: int| 0 <= q < below.len() ==> #[trigger] below_at(wa, n0, n, below, q)
    &&& forall|b: int| w.bodies.len() <= b < wa.bodies.len() ==> wa.nodes[n0].body == Some(#[trigger] wa.bodies[b].id)
    &&& last ==> load_reached(wa, n0, load)
}

proof fn lemma_points_load(w: Wire, ids: Seq<u128>, load: u128, i: nat, l: LayerShape)
    requires
        wire_ok(w, ids),
        load == load_id(ids),
        !l.has_bar,
    ensures
        ({
            let a = layer_points(w, ids, load, i, l, true);
            points_ok(w, a.0, a.1, a.2, ids, load, true)
        }),
{
    let n = slings_rigged(l);
    let n0 = w.nodes.len() as int;
    let lab = |k: nat| "P"@ + decimal(k);
    let wa = with_nodes(w, ids, Some(load), NodeRole::Lug, n, lab, Some(height_param(ids)));
    let picks = group_ids(w, ids, n);
    assert(layer_points(w, ids, load, i, l, true) == (wa, picks, picks));
    lemma_with_nodes_extends(w, ids, Some(load), NodeRole::Lug, n, lab, Some(height_param(ids)));
    lemma_wbody_grows(w, wa, load);
    assert forall|k: int| w.nodes.len() <= k < wa.nodes.len() implies #[trigger] node_ok(wa, k) && wa.nodes[k].role != NodeRole::Root by {
        assert(wa.nodes[k].body == Some(load));
    }
    lemma_wire_ok_grow(w, wa, ids);
    assert forall|q: int| 0 <= q < n implies wa.nodes[n0 + q].id == #[trigger] picks[q] by {}
    assert forall|q: int| 0 <= q < picks.len() implies #[trigger] below_at(wa, n0, n as int, picks, q) by {
        assert(wa.nodes[n0 + q].id == picks[q]);
    }
    assert(wa.nodes[n0].body == Some(load));
}

proof fn lemma_points_knots(w: Wire, ids: Seq<u128>, load: u128, i: nat, l: LayerShape)
    requires
        wire_ok(w, ids),
        load == load_id(ids),
        !l.has_bar,
    ensures
        ({
            let a = layer_points(w, ids, load, i, l, false);
            points_ok(w, a.0, a.1, a.2, ids, load, false)
        }),
{
    let n = slings_rigged(l);
    let n0 = w.nodes.len() as int;
    let lab = |k: nat| layer_label(i, " knot "@, k);
    let wa = with_nodes(w, ids, None, NodeRole::Free, n, lab, None);
    let picks = group_ids(w, ids, n);
    assert(layer_points(w, ids, load, i, l, false) == (wa, picks, picks));
    lemma_with_nodes_extends(w, ids, None, NodeRole::Free, n, lab, None);
    assert forall|k: int| w.nodes.len() <= k < wa.nodes.len() implies #[trigger] node_ok(wa, k) && wa.nodes[k].role != NodeRole::Root by {
        assert(wa.nodes[k].body == None::<u128>);
    }
    lemma_wire_ok_grow(w, wa, ids);
    assert forall|q: int| 0 <= q < n implies wa.nodes[n0 + q].id == #[trigger] picks[q] by {}
    assert forall|q: int| 0 <= q < picks.len() implies #[trigger] below_at(wa, n0, n as int, picks, q) by {
        assert(wa.nodes[n0 + q].id == picks[q]);
    }
}

proof fn lemma_points_bar(w: Wire, ids: Seq<u128>, load: u128, i: nat, l: LayerShape, last: bool)
    requires
        wire_ok(w, ids),
        load == load_id(ids),
        l.has_bar,
    ensures
        ({
            let a = layer_points(w, ids, load, i, l, last);
            points_ok(w, a.0, a.1, a.2, ids, load, last)
        }),
{
    let n = slings_rigged(l);
    let n0 = w.nodes.len() as int;
    let span = fresh(w, ids);
    let w0 = with_param(w, ids, "span_layer"@ + decimal(i), Quantity::Length, ParamSource::Assumed);
    let bar = fresh(w0, ids);
    let w1 = with_body(w0, ids, "Spreader L"@ + decimal(i), seq![span]);
    let lab1 = |k: nat| layer_label(i, " bar pick "@, k);
    let picks = group_ids(w1, ids, n);
    let w2 = with_nodes(w1, ids, Some(bar), NodeRole::Lug, n, lab1, None);
    let ends = crate::calc::endpoints_spec(true, l.sling_count) as nat;
    let m = super::bar_end_count(l);
    let lab2 = |k: nat| layer_label(i, " bar end "@, k);
    let w3 = if ends != n { with_nodes(w2, ids, Some(bar), NodeRole::Lug, m, lab2, None) } else { w2 };
    let below = if ends != n { group_ids(w2, ids, m) } else { picks };
    let w4 = if last { with_load_links(w3, ids, load, i, below) } else { w3 };
    assert(layer_points(w, ids, load, i, l, last) == (w4, picks, below));

    lemma_with_param_extends(w, ids, "span_layer"@ + decimal(i), Quantity::Length, ParamSource::Assumed);
    lemma_with_body_extends(w0, ids, "Spreader L"@ + decimal(i), seq![span]);
    lemma_with_nodes_extends(w1, ids, Some(bar), NodeRole::Lug, n, lab1, None);
    lemma_with_nodes_extends(w2, ids, Some(bar), NodeRole::Lug, m, lab2, None);
    lemma_with_load_links_extends(w3, ids, load, i, below);
    lemma_extends_trans(w, w0, w1);
    lemma_extends_trans(w, w1, w2);
    lemma_extends_trans(w, w2, w3);
    lemma_extends_trans(w, w3, w4);
    lemma_extends_trans(w1, w2, w3);
    lemma_extends_trans(w1, w3, w4);
    lemma_extends_trans(w2, w3, w4);

    assert(w1.bodies[w.bodies.len() as int].id == bar);
    assert(wbody(w1, bar));
    lemma_wbody_grows(w1, w4, bar);
    lemma_wbody_grows(w, w4, load);
    assert(w4.nodes[n0] == w2.nodes[n0]);
    assert(w2.nodes[n0].body == Some(bar));

    // Node counts and identifiers.
    assert(w2.nodes.len() == n0 + n);
    assert forall|q: int| 0 <= q < n implies w4.nodes[n0 + q].id == #[trigger] picks[q] by {
        assert(w4.nodes[n0 + q] == w2.nodes[n0 + q]);
    }
    assert(w3.nodes.len() == n0 + n + (if ends != n { m } else { 0 }));
    assert forall|k: int| n0 <= k < w3.nodes.len() implies #[trigger] w4.nodes[k].body == Some(bar) by {
        assert(w4.nodes[k] == w3.nodes[k]);
        if k < n0 + n {
            assert(w3.nodes[k] == w2.nodes[k]);
        }
    }

    // Placement of the new nodes.
    assert forall|k: int| w.nodes.len() <= k < w4.nodes.len() implies #[trigger] node_ok(w4, k) && w4.nodes[k].role != NodeRole::Root by {
        if k < w3.nodes.len() {
            assert(w4.nodes[k].body == Some(bar));
            assert(w4.nodes[k] == w3.nodes[k]);
            if k < n0 + n {
                assert(w3.nodes[k] == w2.nodes[k]);
            }
        } else {
            assert(w4.nodes[k].body == Some(load));
        }
    }

    // The endpoints below are nodes on the bar, or the pick points.
    assert forall|q: int| 0 <= q < below.len() implies #[trigger] below_at(w4, n0, n as int, below, q) by {
        if ends != n {
            let k = n0 + n + q;
            assert(w4.nodes[k] == w3.nodes[k]);
            assert(w3.nodes[k].id == below[q]);
            assert(w4.nodes[k].body == Some(bar));
            assert(on_first_body(w4, n0, k));
        } else {
            assert(w4.nodes[n0 + q].id == picks[q]);
        }
    }
    assert forall|q: int| 0 <= q < below.len() implies wnode(w4, #[trigger] below[q]) by {
        assert(below_at(w4, n0, n as int, below, q));
    }

    // Members: only the load links are new.
    assert forall|m: int| w.members.len() <= m < w4.members.len() implies wnode(w4, (#[trigger] w4.members[m]).from) && wnode(w4, w4.members[m].to) by {
        let q = m - w3.members.len();
        assert(w4.members[m].from == below[q]);
        assert(w4.nodes[w3.nodes.len() + q].id == w4.members[m].to);
    }
    lemma_wire_ok_grow(w, w4, ids);

    // Later nodes are on the bar or hung from an endpoint below.
    assert forall|k: int| n0 + n <= k < w4.nodes.len() implies #[trigger] pending(w4, n0, below, k) by {
        if k < w3.nodes.len() {
            assert(on_first_body(w4, n0, k));
        } else {
            let q = k - w3.nodes.len();
            let m = w3.members.len() + q;
            assert(w4.members[m].to == w4.nodes[k].id);
            assert(below[q] == w4.members[m].from);
            assert(below.contains(w4.members[m].from));
        }
    }
    assert forall|b: int| w.bodies.len() <= b < w4.bodies.len() implies w4.nodes[n0].body == Some(#[trigger] w4.bodies[b].id) by {
        assert(w4.bodies[b] == w1.bodies[b]);
    }
    if last {
        let k = w3.nodes.len() as int;
        let m = w3.members.len() as int;
        assert(w4.nodes[k].body == Some(load));
        assert(w4.members[m].to == w4.nodes[k].id);
        assert(load_reached(w4, n0, load));
    }
}

proof fn lemma_seq_sum_nonneg(s: Seq<u32>)
    ensures
        seq_sum(s) >= 0,
    decreases s.len(),
{
    if s.len() > 0 {
        lemma_seq_sum_nonneg(s.drop_last());
    }
}

/// Every member hung from the first `count` parents either runs from a
/// parent to its collector, or from a parent's hang point to a pick point.
proof fn lemma_sling_member_ends(w: Wire, ids: Seq<u128>, i: nat, apex: bool, parents: Seq<u128>, splits: Seq<u32>, picks: Seq<u128>, count: nat, e: MemberV, aparts: Seq<ComponentTag>, sparts: Seq<ComponentTag>)
    requires
        picks.len() >= 1,
        sling_members(w, ids, i, apex, parents, splits, picks, count, aparts, sparts).contains(e),
    ensures
        exists|p: int| 0 <= p < count && (
            (apex && e.from == parents[p] && e.to == #[trigger] hang_of(w, ids, apex, parents, p))
            || (e.from == hang_of(w, ids, apex, parents, p) && picks.contains(e.to))),
    decreases count,
{
    if count == 0 {
        assert(false);
    } else {
        let prev = sling_members(w, ids, i, apex, parents, splits, picks, (count - 1) as nat, aparts, sparts);
        let p = count - 1;
        let last = parent_members(w, ids, i, apex, parents, splits, picks, p, aparts, sparts);
        let j = choose|j: int| 0 <= j < prev.len() + last.len() && (prev + last)[j] == e;
        if j < prev.len() {
            assert(prev[j] == e);
            lemma_sling_member_ends(w, ids, i, apex, parents, splits, picks, (count - 1) as nat, e, aparts, sparts);
            let q = choose|q: int| 0 <= q < count - 1 && (
                (apex && e.from == parents[q] && e.to == #[trigger] hang_of(w, ids, apex, parents, q))
                || (e.from == hang_of(w, ids, apex, parents, q) && picks.contains(e.to)));
            assert(0 <= q < count);
        } else {
            let h = j - prev.len();
            assert(last[h] == e);
            let head: Seq<MemberV> = if apex {
                seq![MemberV { label: layer_label(i, " apex "@, p as nat), from: parents[p], to: hang_of(w, ids, apex, parents, p), parts: aparts }]
            } else {
                Seq::empty()
            };
            if h < head.len() {
                assert(e == head[h]);
            } else {
                let jj = h - head.len();
                lemma_seq_sum_nonneg(splits.take(p));
                let x = sling_start(splits, p) + jj;
                assert(e.to == pick_at(picks, x));
                if x < picks.len() - 1 {
                    assert(picks[x] == e.to);
                } else {
                    assert(picks[picks.len() - 1] == e.to);
                }
            }
        }
    }
}

/// The layer's parents and their members, as the sling phase sees them.
pub open spec fn parents_ok(t: Topology, w: Wire, parents: Seq<u128>) -> bool {
    &&& 1 <= parents.len() <= u32::MAX
    &&& forall|p: int| 0 <= p < parents.len() ==> wnode(w, #[trigger] parents[p]) && connected(t, parents[p])
}

/// Where each parent's slings hang from is reached from the root.
proof fn lemma_hangs_connected(t: Topology, wf: Wire, wa: Wire, ids: Seq<u128>, i: nat, apex: bool, parents: Seq<u128>, splits: Seq<u32>, picks: Seq<u128>, p: int, aparts: Seq<ComponentTag>, sparts: Seq<ComponentTag>)
    requires
        matches(t, wf),
        extends(with_slings(wa, ids, i, apex, parents, splits, picks, parents.len(), aparts, sparts), wf),
        parents_ok(t, wa, parents),
        0 <= p < parents.len(),
    ensures
        connected(t, hang_of(wa, ids, apex, parents, p)),
{
    assert(wnode(wa, parents[p]) && connected(t, parents[p]));
    if apex {
        let wb = with_slings(wa, ids, i, apex, parents, splits, picks, parents.len(), aparts, sparts);
        let e = MemberV { label: layer_label(i, " apex "@, p as nat), from: parents[p], to: hang_of(wa, ids, apex, parents, p), parts: aparts };
        let pm = parent_members(wa, ids, i, apex, parents, splits, picks, p, aparts, sparts);
        assert(pm[0] == e);
        lemma_parent_member_in(wa, ids, i, apex, parents, splits, picks, parents.len(), p, e, aparts, sparts);
        lemma_seq_contains_right(wa.members, sling_members(wa, ids, i, apex, parents, splits, picks, parents.len(), aparts, sparts), e);
        lemma_contained_member(t, wf, wb, e);
        lemma_connect_step(t, parents[p], e.to);
    }
}

/// Every pick point gets a sling from some parent's hang point, so it is
/// reached from the root.
proof fn lemma_pick_connected(t: Topology, wf: Wire, wa: Wire, ids: Seq<u128>, i: nat, apex: bool, parents: Seq<u128>, splits: Seq<u32>, picks: Seq<u128>, q: int, aparts: Seq<ComponentTag>, sparts: Seq<ComponentTag>)
    requires
        matches(t, wf),
        extends(with_slings(wa, ids, i, apex, parents, splits, picks, parents.len(), aparts, sparts), wf),
        parents_ok(t, wa, parents),
        splits.len() == parents.len(),
        seq_sum(splits) == picks.len(),
        0 <= q < picks.len(),
    ensures
        connected(t, picks[q]),
        exists|m: int, p: int| 0 <= m < wf.members.len() && 0 <= p < parents.len()
            && (#[trigger] wf.members[m]).to == picks[q] && wf.members[m].from == #[trigger] hang_of(wa, ids, apex, parents, p),
{
    let wb = with_slings(wa, ids, i, apex, parents, splits, picks, parents.len(), aparts, sparts);
    lemma_sling_owner(splits, q);
    let (p, j) = choose|p: int, j: int| 0 <= p < splits.len() && 0 <= j < splits[p] && #[trigger] sling_index(splits, p, j) == q;
    let hang = hang_of(wa, ids, apex, parents, p);
    lemma_hangs_connected(t, wf, wa, ids, i, apex, parents, splits, picks, p, aparts, sparts);
    let e = MemberV { label: layer_label(i, " sling "@, q as nat), from: hang, to: pick_at(picks, q), parts: sparts };
    let pm = parent_members(wa, ids, i, apex, parents, splits, picks, p, aparts, sparts);
    let off: int = if apex { 1 } else { 0 };
    assert(pm[off + j] == e);
    lemma_parent_member_in(wa, ids, i, apex, parents, splits, picks, parents.len(), p, e, aparts, sparts);
    lemma_seq_contains_right(wa.members, sling_members(wa, ids, i, apex, parents, splits, picks, parents.len(), aparts, sparts), e);
    lemma_contained_member(t, wf, wb, e);
    assert(pick_at(picks, q) == picks[q]);
    lemma_connect_step(t, hang, picks[q]);
    let m = choose|m: int| 0 <= m < wf.members.len() && #[trigger] wf.members[m] == e;
    assert(wf.members[m].to == picks[q] && wf.members[m].from == hang_of(wa, ids, apex, parents, p));
}

/// Once its pick points are reached, every node of the pick-point phase is.
proof fn lemma_points_connected(t: Topology, wf: Wire, w: Wire, wa: Wire, picks: Seq<u128>, below: Seq<u128>, ids: Seq<u128>, load: u128, last: bool)
    requires
        matches(t, wf),
        extends(wa, wf),
        points_ok(w, wa, picks, below, ids, load, last),
        forall|k: int| 0 <= k < w.nodes.len() ==> connected(t, #[trigger] w.nodes[k].id),
        forall|q: int| 0 <= q < picks.len() ==> connected(t, #[trigger] picks[q]),
    ensures
        forall|k: int| 0 <= k < wa.nodes.len() ==> connected(t, #[trigger] wa.nodes[k].id),
        forall|q: int| 0 <= q < below.len() ==> connected(t, #[trigger] below[q]),
{
    let n0 = w.nodes.len() as int;
    let n = picks.len() as int;
    assert(wa.nodes[n0].id == picks[0]);
    assert forall|k: int| n0 <= k < wa.nodes.len() && on_first_body(wa, n0, k) implies connected(t, #[trigger] wa.nodes[k].id) by {
        assert(wf.nodes[n0] == wa.nodes[n0]);
        assert(wf.nodes[k] == wa.nodes[k]);
        lemma_same_body_linked(t, wf, n0, k);
        lemma_connect_step(t, picks[0], wa.nodes[k].id);
    }
    assert forall|k: int| n0 <= k < n0 + n implies connected(t, #[trigger] wa.nodes[k].id) by {
        assert(wa.nodes[n0 + (k - n0)].id == picks[k - n0]);
    }
    assert forall|q: int| 0 <= q < below.len() implies connected(t, #[trigger] below[q]) by {
        assert(below_at(wa, n0, n, below, q));
        let k = choose|k: int| n0 <= k < wa.nodes.len() && #[trigger] wa.nodes[k].id == below[q] && (k < n0 + n || on_first_body(wa, n0, k));
        assert(connected(t, wa.nodes[k].id));
    }
    assert forall|k: int| 0 <= k < wa.nodes.len() implies connected(t, #[trigger] wa.nodes[k].id) by {
        if k < n0 {
            assert(wa.nodes[k] == w.nodes[k]);
        } else if k < n0 + n {
        } else {
            assert(pending(wa, n0, below, k));
            if !on_first_body(wa, n0, k) {
                let m = choose|m: int| 0 <= m < wa.members.len() && (#[trigger] wa.members[m]).to == wa.nodes[k].id && below.contains(wa.members[m].from);
                let q = choose|q: int| 0 <= q < below.len() && below[q] == wa.members[m].from;
                assert(connected(t, below[q]));
                assert(wf.members[m] == wa.members[m]);
                lemma_member_linked(t, wf, m);
                lemma_connect_step(t, wa.members[m].from, wa.nodes[k].id);
            }
        }
    }
}

/// What holds before layer `i`: the structure is sound, every node so far is
/// reached from the root, the parents are reached nodes, and every body but
/// the load is carried (before the first layer only the hook and the load
/// exist).
pub open spec fn stage_ok(t: Topology, w: Wire, parents: Seq<u128>, ids: Seq<u128>, i: nat) -> bool {
    &&& wire_ok(w, ids)
    &&& forall|k: int| 0 <= k < w.nodes.len() ==> connected(t, #[trigger] w.nodes[k].id)
    &&& parents_ok(t, w, parents)
    &&& i == 0 ==> parents == seq![root_id(ids)] && forall|b: int| 0 <= b < w.bodies.len() ==> (#[trigger] w.bodies[b]).id == hook_id(ids) || w.bodies[b].id == load_id(ids)
    &&& i > 0 ==> forall|b: int| 0 <= b < w.bodies.len() && (#[trigger] w.bodies[b]).id != load_id(ids) ==> touched(t, w.bodies[b].id)
}

/// The sling and tare phases of a layer keep the structure sound and reach
/// every new node.
proof fn lemma_layer_nodes(t: Topology, wf: Wire, w: Wire, wa: Wire, wb: Wire, wc: Wire, picks: Seq<u128>, below: Seq<u128>, ids: Seq<u128>, load: u128, last: bool, parents: Seq<u128>, splits: Seq<u32>, apex: bool, tare: bool, i: nat, aparts: Seq<ComponentTag>, sparts: Seq<ComponentTag>)
    requires
        matches(t, wf),
        points_ok(w, wa, picks, below, ids, load, last),
        stage_ok(t, w, parents, ids, i),
        splits.len() == parents.len(),
        seq_sum(splits) == picks.len(),
        wb == with_slings(wa, ids, i, apex, parents, splits, picks, parents.len(), aparts, sparts),
        wc == (if tare { with_tare(wb, ids, i, picks[0]) } else { wb }),
        extends(wc, wf),
    ensures
        wire_ok(wc, ids),
        forall|k: int| 0 <= k < wc.nodes.len() ==> connected(t, #[trigger] wc.nodes[k].id),
        parents_ok(t, wc, below),
        extends(wa, wc),
{
    let n0 = w.nodes.len() as int;
    lemma_with_slings_extends(wa, ids, i, apex, parents, splits, picks, parents.len(), aparts, sparts);
    lemma_with_tare_extends(wb, ids, i, picks[0]);
    lemma_extends_trans(wb, wc, wf);
    lemma_extends_trans(wa, wb, wf);
    lemma_extends_trans(wa, wb, wc);
    assert forall|p: int| 0 <= p < parents.len() implies wnode(wa, #[trigger] parents[p]) && connected(t, parents[p]) by {
        assert(wnode(w, parents[p]));
        lemma_wnode_grows(w, wa, parents[p]);
    }
    assert(parents_ok(t, wa, parents));
    assert forall|q: int| 0 <= q < picks.len() implies connected(t, #[trigger] picks[q]) by {
        lemma_pick_connected(t, wf, wa, ids, i, apex, parents, splits, picks, q, aparts, sparts);
    }
    assert forall|k: int| 0 <= k < w.nodes.len() implies connected(t, #[trigger] w.nodes[k].id) by {}
    lemma_points_connected(t, wf, w, wa, picks, below, ids, load, last);

    // Collectors.
    assert forall|k: int| 0 <= k < wb.nodes.len() implies connected(t, #[trigger] wb.nodes[k].id) by {
        if k >= wa.nodes.len() {
            let p = k - wa.nodes.len();
            assert(wb.nodes[k].id == hang_of(wa, ids, apex, parents, p));
            lemma_hangs_connected(t, wf, wa, ids, i, apex, parents, splits, picks, p, aparts, sparts);
        } else {
            assert(wb.nodes[k] == wa.nodes[k]);
        }
    }
    // The structure after the slings.
    assert(wa.nodes[n0].id == picks[0]);
    assert forall|k: int| wa.nodes.len() <= k < wb.nodes.len() implies #[trigger] node_ok(wb, k) && wb.nodes[k].role != NodeRole::Root by {}
    assert forall|m: int| wa.members.len() <= m < wb.members.len() implies wnode(wb, (#[trigger] wb.members[m]).from) && wnode(wb, wb.members[m].to) by {
        let sm = sling_members(wa, ids, i, apex, parents, splits, picks, parents.len(), aparts, sparts);
        let e = wb.members[m];
        assert(sm[m - wa.members.len()] == e);
        lemma_sling_member_ends(wa, ids, i, apex, parents, splits, picks, parents.len(), e, aparts, sparts);
        let p = choose|p: int| 0 <= p < parents.len() && (
            (apex && e.from == parents[p] && e.to == #[trigger] hang_of(wa, ids, apex, parents, p))
            || (e.from == hang_of(wa, ids, apex, parents, p) && picks.contains(e.to)));
        assert(wnode(wa, parents[p]));
        lemma_wnode_grows(wa, wb, parents[p]);
        if apex {
            assert(wb.nodes[wa.nodes.len() + p].id == hang_of(wa, ids, apex, parents, p));
        }
        if picks.contains(e.to) {
            let q = choose|q: int| 0 <= q < picks.len() && picks[q] == e.to;
            assert(wb.nodes[n0 + q] == wa.nodes[n0 + q]);
            assert(wb.nodes[n0 + q].id == e.to);
        }
    }
    lemma_wire_ok_grow(wa, wb, ids);

    if tare {
        let frame = fresh(wb, ids);
        let k = wb.nodes.len() as int;
        let m = wb.members.len() as int;
        assert(wc.nodes[k].body == Some(frame));
        assert(wc.bodies[wb.bodies.len() as int].id == frame);
        assert(wbody(wc, frame));
        assert(wc.members[m].from == picks[0]);
        assert(wc.members[m].to == wc.nodes[k].id);
        assert(wc.nodes[n0] == wa.nodes[n0]);
        assert forall|kk: int| wb.nodes.len() <= kk < wc.nodes.len() implies #[trigger] node_ok(wc, kk) && wc.nodes[kk].role != NodeRole::Root by {}
        assert forall|mm: int| wb.members.len() <= mm < wc.members.len() implies wnode(wc, (#[trigger] wc.members[mm]).from) && wnode(wc, wc.members[mm].to) by {
            assert(wc.nodes[n0].id == picks[0]);
        }
        lemma_wire_ok_grow(wb, wc, ids);
        assert(wc.members.contains(wc.members[m]));
        lemma_contained_member(t, wf, wc, wc.members[m]);
        lemma_connect_step(t, picks[0], wc.nodes[k].id);
        assert forall|kk: int| 0 <= kk < wc.nodes.len() implies connected(t, #[trigger] wc.nodes[kk].id) by {
            if kk < wb.nodes.len() {
                assert(wc.nodes[kk] == wb.nodes[kk]);
            }
        }
    }
    assert forall|q: int| 0 <= q < below.len() implies wnode(wc, #[trigger] below[q]) && connected(t, below[q]) by {
        assert(below_at(wa, n0, picks.len() as int, below, q));
        let k = choose|k: int| n0 <= k < wa.nodes.len() && #[trigger] wa.nodes[k].id == below[q] && (k < n0 + picks.len() || on_first_body(wa, n0, k));
        assert(wnode(wa, below[q]));
        lemma_wnode_grows(wa, wc, below[q]);
    }
}

/// After a layer every body but the load is carried, and after the last
/// layer the load is too.
proof fn lemma_layer_bodies(t: Topology, wf: Wire, w: Wire, wa: Wire, wb: Wire, wc: Wire, picks: Seq<u128>, below: Seq<u128>, ids: Seq<u128>, load: u128, last: bool, parents: Seq<u128>, splits: Seq<u32>, apex: bool, tare: bool, i: nat, aparts: Seq<ComponentTag>, sparts: Seq<ComponentTag>)
    requires
        matches(t, wf),
        t.root == root_id(ids),
        load == load_id(ids),
        points_ok(w, wa, picks, below, ids, load, last),
        stage_ok(t, w, parents, ids, i),
        splits.len() == parents.len(),
        seq_sum(splits) == picks.len(),
        wb == with_slings(wa, ids, i, apex, parents, splits, picks, parents.len(), aparts, sparts),
        wc == (if tare { with_tare(wb, ids, i, picks[0]) } else { wb }),
        extends(wc, wf),
    ensures
        forall|b: int| 0 <= b < wc.bodies.len() && (#[trigger] wc.bodies[b]).id != load_id(ids) ==> touched(t, wc.bodies[b].id),
        last ==> touched(t, load),
{
    let n0 = w.nodes.len() as int;
    lemma_with_slings_extends(wa, ids, i, apex, parents, splits, picks, parents.len(), aparts, sparts);
    lemma_with_tare_extends(wb, ids, i, picks[0]);
    lemma_extends_trans(wb, wc, wf);
    lemma_extends_trans(wa, wb, wf);
    lemma_extends_trans(w, wa, wf);
    assert forall|p: int| 0 <= p < parents.len() implies wnode(wa, #[trigger] parents[p]) && connected(t, parents[p]) by {
        assert(wnode(w, parents[p]));
        lemma_wnode_grows(w, wa, parents[p]);
    }
    // A sling ends on the first pick point.
    lemma_pick_connected(t, wf, wa, ids, i, apex, parents, splits, picks, 0, aparts, sparts);
    let (m0, p0) = choose|m: int, p: int| 0 <= m < wf.members.len() && 0 <= p < parents.len()
        && (#[trigger] wf.members[m]).to == picks[0] && wf.members[m].from == #[trigger] hang_of(wa, ids, apex, parents, p);
    assert(wf.nodes[n0] == wa.nodes[n0]);
    assert(wa.nodes[n0].id == picks[0]);

    assert forall|b: int| 0 <= b < wc.bodies.len() && (#[trigger] wc.bodies[b]).id != load_id(ids) implies touched(t, wc.bodies[b].id) by {
        let id = wc.bodies[b].id;
        if b < w.bodies.len() {
            assert(wc.bodies[b] == w.bodies[b]);
            if i == 0 {
                // The hook body carries the root node, which the first layer hangs from.
                assert(id == hook_id(ids));
                assert(wf.nodes[0] == w.nodes[0]);
                assert(w.nodes[0].body == Some(hook_id(ids)));
                assert(parents.len() == 1);
                if apex {
                    let e = MemberV { label: layer_label(i, " apex "@, 0), from: parents[0], to: hang_of(wa, ids, apex, parents, 0), parts: aparts };
                    let pm = parent_members(wa, ids, i, apex, parents, splits, picks, 0, aparts, sparts);
                    assert(pm[0] == e);
                    lemma_parent_member_in(wa, ids, i, apex, parents, splits, picks, parents.len(), 0, e, aparts, sparts);
                    lemma_seq_contains_right(wa.members, sling_members(wa, ids, i, apex, parents, splits, picks, parents.len(), aparts, sparts), e);
                    lemma_contained_member(t, wf, wb, e);
                    let m = choose|m: int| 0 <= m < wf.members.len() && #[trigger] wf.members[m] == e;
                    lemma_touched(t, wf, 0, m, hook_id(ids));
                } else {
                    assert(p0 == 0);
                    lemma_touched(t, wf, 0, m0, hook_id(ids));
                }
            }
        } else if b < wa.bodies.len() {
            // A bar: its first pick point takes a sling.
            assert(wc.bodies[b] == wa.bodies[b]);
            assert(wa.nodes[n0].body == Some(id));
            lemma_touched(t, wf, n0, m0, id);
        } else {
            // A tare frame, hung by its lug.
            let k = wb.nodes.len() as int;
            let m = wb.members.len() as int;
            assert(tare);
            assert(b == wb.bodies.len());
            assert(wc.nodes[k].body == Some(id));
            assert(wc.members[m].to == wc.nodes[k].id);
            assert(wf.nodes[k] == wc.nodes[k]);
            assert(wf.members[m] == wc.members[m]);
            lemma_touched(t, wf, k, m, id);
        }
    }
    if last {
        assert(load_reached(wa, n0, load));
        if wa.nodes[n0].body == Some(load) {
            lemma_touched(t, wf, n0, m0, load);
        } else {
            let (k, m) = choose|k: int, m: int| 0 <= k < wa.nodes.len() && 0 <= m < wa.members.len() && #[trigger] wa.nodes[k].body == Some(load) && #[trigger] wa.members[m].to == wa.nodes[k].id;
            assert(wf.nodes[k] == wa.nodes[k]);
            assert(wf.members[m] == wa.members[m]);
            lemma_touched(t, wf, k, m, load);
        }
    }
}

/// A parameter added after the pick-point phase leaves its facts intact.
proof fn lemma_points_ok_param(w: Wire, wa: Wire, wl: Wire, picks: Seq<u128>, below: Seq<u128>, ids: Seq<u128>, load: u128, last: bool)
    requires
        points_ok(w, wa, picks, below, ids, load, last),
        wl.nodes == wa.nodes,
        wl.bodies == wa.bodies,
        wl.members == wa.members,
    ensures
        points_ok(w, wl, picks, below, ids, load, last),
{
    let n0 = w.nodes.len() as int;
    let n = picks.len() as int;
    assert forall|x: u128| wbody(wa, x) implies wbody(wl, x) by {
        let k = choose|k: int| 0 <= k < wa.bodies.len() && #[trigger] wa.bodies[k].id == x;
        assert(wl.bodies[k].id == x);
    }
    assert forall|x: u128| wnode(wa, x) implies wnode(wl, x) by {
        let k = choose|k: int| 0 <= k < wa.nodes.len() && #[trigger] wa.nodes[k].id == x;
        assert(wl.nodes[k].id == x);
    }
    assert forall|k: int| 0 <= k < wl.nodes.len() implies #[trigger] node_ok(wl, k) by {
        assert(node_ok(wa, k));
        if wa.nodes[k].body is Some {
            assert(wbody(wa, wa.nodes[k].body->0));
        }
    }
    assert forall|m: int| 0 <= m < wl.members.len() implies wnode(wl, (#[trigger] wl.members[m]).from) && wnode(wl, wl.members[m].to) by {
        assert(wnode(wa, wa.members[m].from) && wnode(wa, wa.members[m].to));
    }
    assert(wire_ok(wl, ids));
    assert forall|k: int| n0 + n <= k < wl.nodes.len() implies #[trigger] pending(wl, n0, below, k) by {
        assert(pending(wa, n0, below, k));
    }
    assert forall|q: int| 0 <= q < below.len() implies #[trigger] below_at(wl, n0, n, below, q) by {
        assert(below_at(wa, n0, n, below, q));
    }
    if last {
        assert(load_reached(wa, n0, load));
    }
}

/// One layer keeps the stage facts; the last one also carries the load.
proof fn lemma_layer_ok(t: Topology, wf: Wire, w: Wire, ids: Seq<u128>, load: u128, parents: Seq<u128>, l: LayerShape, i: nat, last: bool)
    requires
        matches(t, wf),
        t.root == root_id(ids),
        load == load_id(ids),
        stage_ok(t, w, parents, ids, i),
        extends(layer_step(w, ids, load, parents, l, i, last).0, wf),
    ensures
        ({
            let r = layer_step(w, ids, load, parents, l, i, last);
            &&& stage_ok(t, r.0, r.1, ids, i + 1)
            &&& last ==> touched(t, load)
        }),
{
    let a = layer_points(w, ids, load, i, l, last);
    if l.has_bar {
        lemma_points_bar(w, ids, load, i, l, last);
    } else if last {
        lemma_points_load(w, ids, load, i, l);
    } else {
        lemma_points_knots(w, ids, load, i, l);
    }
    let wp = a.0;
    let picks = a.1;
    let below = a.2;
    let wa = with_param(wp, ids, "l_layer"@ + decimal(i), Quantity::Length, ParamSource::Drawing);
    lemma_points_ok_param(w, wp, wa, picks, below, ids, load, last);
    let np = parents.len();
    let n = slings_rigged(l);
    let splits = split_spec(np as u32, n as u32);
    lemma_split_conserves_slings(np as u32, n as u32);
    assert(effective_children(n as u32) == n);
    assert(effective_ends(np as u32) == np);
    assert(splits.len() == np);
    assert(picks.len() == n) by {
        if l.has_bar {
            let w0 = with_param(w, ids, "span_layer"@ + decimal(i), Quantity::Length, ParamSource::Assumed);
            assert(picks == group_ids(with_body(w0, ids, "Spreader L"@ + decimal(i), seq![fresh(w, ids)]), ids, n));
        } else {
            assert(picks == group_ids(w, ids, n));
        }
    }
    let apex = apex_found(l);
    let aparts = apex_parts(l);
    let sparts = sling_parts(l);
    let wb = with_slings(wa, ids, i, apex, parents, splits, picks, np, aparts, sparts);
    let wc = if l.has_tare { with_tare(wb, ids, i, picks[0]) } else { wb };
    assert(layer_step(w, ids, load, parents, l, i, last) == (wc, below));
    lemma_layer_nodes(t, wf, w, wa, wb, wc, picks, below, ids, load, last, parents, splits, apex, l.has_tare, i, aparts, sparts);
    lemma_layer_bodies(t, wf, w, wa, wb, wc, picks, below, ids, load, last, parents, splits, apex, l.has_tare, i, aparts, sparts);
    assert(wire_ok(wc, ids));
    assert(forall|k: int| 0 <= k < wc.nodes.len() ==> connected(t, #[trigger] wc.nodes[k].id));
    assert(parents_ok(t, wc, below));
    assert(forall|b: int| 0 <= b < wc.bodies.len() && (#[trigger] wc.bodies[b]).id != load_id(ids) ==> touched(t, wc.bodies[b].id));
    assert(stage_ok(t, wc, below, ids, i + 1));
}

/// The stage facts hold through every remaining layer.
proof fn lemma_wire_from_ok(t: Topology, wf: Wire, w: Wire, ids: Seq<u128>, load: u128, parents: Seq<u128>, layers: Seq<LayerShape>, i: nat)
    requires
        matches(t, wf),
        t.root == root_id(ids),
        load == load_id(ids),
        i <= layers.len(),
        stage_ok(t, w, parents, ids, i),
        wire_from(w, ids, load, parents, layers, i) == wf,
        i == layers.len() && i > 0 ==> touched(t, load),
    ensures
        wire_ok(wf, ids),
        forall|k: int| 0 <= k < wf.nodes.len() ==> connected(t, #[trigger] wf.nodes[k].id),
        layers.len() > 0 ==> forall|b: int| 0 <= b < wf.bodies.len() ==> touched(t, #[trigger] wf.bodies[b].id),
    decreases layers.len() - i,
{
    if i < layers.len() {
        let last = i + 1 == layers.len();
        let r = layer_step(w, ids, load, parents, layers[i as int], i, last);
        lemma_wire_from_extends(r.0, ids, load, r.1, layers, i + 1);
        lemma_layer_ok(t, wf, w, ids, load, parents, layers[i as int], i, last);
        lemma_wire_from_ok(t, wf, r.0, ids, load, r.1, layers, i + 1);
    } else {
        if layers.len() > 0 {
            assert forall|b: int| 0 <= b < wf.bodies.len() implies touched(t, #[trigger] wf.bodies[b].id) by {
                if wf.bodies[b].id != load_id(ids) {
                    assert(i > 0);
                }
            }
        }
    }
}

/// A concatenation of empty findings is empty.
proof fn lemma_concat_map_empty<A>(s: Seq<A>, f: spec_fn(A) -> Seq<Issue>)
    requires
        forall|k: int| 0 <= k < s.len() ==> (#[trigger] f(s[k])).len() == 0,
    ensures
        concat(s.map_values(f)).len() == 0,
    decreases s.len(),
{
    if s.len() > 0 {
        let d = s.drop_last();
        assert forall|k: int| 0 <= k < d.len() implies (#[trigger] f(d[k])).len() == 0 by {
            assert(d[k] == s[k]);
        }
        lemma_concat_map_empty(d, f);
        assert(s.map_values(f).drop_last() =~= d.map_values(f));
        assert(f(s[s.len() - 1]).len() == 0);
    }
}

/// A wire node's identifier is found among the graph's nodes.
proof fn lemma_has_node(t: Topology, w: Wire, x: u128)
    requires
        matches(t, w),
        wnode(w, x),
    ensures
        has_node(t, x),
        0 <= node_pos(t.nodes@, x, 0) < w.nodes.len(),
        t.nodes@[node_pos(t.nodes@, x, 0)].id == x,
{
    let k = choose|k: int| 0 <= k < w.nodes.len() && #[trigger] w.nodes[k].id == x;
    lemma_node_at(t, w, k);
    lemma_node_pos(t.nodes@, x, 0);
    assert(t.nodes@.len() == w.nodes.len());
}

/// Only the first node is a root.
proof fn lemma_single_root(s: Seq<TopoNode>)
    requires
        s.len() >= 1,
        s[0].role == NodeRole::Root,
        forall|k: int| 1 <= k < s.len() ==> (#[trigger] s[k]).role != NodeRole::Root,
    ensures
        s.filter(|n: TopoNode| n.role == NodeRole::Root) == seq![s[0]],
    decreases s.len(),
{
    let pred = |n: TopoNode| n.role == NodeRole::Root;
    reveal_with_fuel(Seq::filter, 1);
    if s.len() == 1 {
        assert(s.drop_last() =~= Seq::<TopoNode>::empty());
        assert(s.drop_last().filter(pred) =~= Seq::<TopoNode>::empty());
        assert(s.filter(pred) =~= seq![s[0]]);
    } else {
        let d = s.drop_last();
        assert forall|k: int| 1 <= k < d.len() implies (#[trigger] d[k]).role != NodeRole::Root by {
            assert(d[k] == s[k]);
        }
        lemma_single_root(d);
        assert(!pred(s.last()));
        assert(s.filter(pred) == d.filter(pred));
    }
}

/// A graph the wiring describes, with every node reached and every body
/// carried, passes every structural check.
proof fn lemma_valid_from_facts(t: Topology, w: Wire, ids: Seq<u128>)
    requires
        matches(t, w),
        t.root == root_id(ids),
        forall|k: int| 0 <= k < t.expr_param_refs@.len() ==> t.param_ids@.contains(#[trigger] t.expr_param_refs@[k]),
        wire_ok(w, ids),
        forall|k: int| 0 <= k < w.nodes.len() ==> connected(t, #[trigger] w.nodes[k].id),
        forall|b: int| 0 <= b < w.bodies.len() ==> touched(t, #[trigger] w.bodies[b].id),
    ensures
        validation_errors(t, Seq::empty(), Seq::empty()).len() == 0,
{
    assert(t.nodes@.len() == w.nodes.len());
    assert(t.bodies@.len() == w.bodies.len());
    assert(t.members@.len() == w.members.len());
    assert(wnode(w, t.root)) by {
        assert(w.nodes[0].id == t.root);
    }
    lemma_has_node(t, w, t.root);

    // Dangling references.
    let fb = |n: TopoNode| node_body_issue(t, n);
    assert forall|k: int| 0 <= k < t.nodes@.len() implies (#[trigger] fb(t.nodes@[k])).len() == 0 by {
        lemma_node_at(t, w, k);
        assert(node_ok(w, k));
        if w.nodes[k].body is Some {
            let b = w.nodes[k].body->0;
            let j = choose|j: int| 0 <= j < w.bodies.len() && #[trigger] w.bodies[j].id == b;
            lemma_body_at(t, w, j);
            assert(has_body(t, b));
        }
    }
    lemma_concat_map_empty(t.nodes@, fb);
    let fm = |m: TopoMember| member_path_issues(t, m);
    assert forall|m: int| 0 <= m < t.members@.len() implies (#[trigger] fm(t.members@[m])).len() == 0 by {
        lemma_member_at(t, w, m);
        let mm = t.members@[m];
        let fs = |id: u128| path_stop_issue(t, mm, id);
        assert(wnode(w, w.members[m].from) && wnode(w, w.members[m].to));
        assert forall|k: int| 0 <= k < mm.path@.len() implies (#[trigger] fs(mm.path@[k])).len() == 0 by {
            if k == 0 {
                lemma_has_node(t, w, w.members[m].from);
            } else {
                lemma_has_node(t, w, w.members[m].to);
            }
        }
        lemma_concat_map_empty(mm.path@, fs);
    }
    lemma_concat_map_empty(t.members@, fm);
    let fp = |id: u128| param_ref_issue(t, id);
    assert forall|k: int| 0 <= k < t.expr_param_refs@.len() implies (#[trigger] fp(t.expr_param_refs@[k])).len() == 0 by {
        assert(t.param_ids@.contains(t.expr_param_refs@[k]));
    }
    lemma_concat_map_empty(t.expr_param_refs@, fp);
    assert(dangling_issues(t).len() == 0);

    // Placement.
    let fpl = |n: TopoNode| placement_issue(n);
    assert forall|k: int| 0 <= k < t.nodes@.len() implies (#[trigger] fpl(t.nodes@[k])).len() == 0 by {
        lemma_node_at(t, w, k);
        assert(node_ok(w, k));
    }
    lemma_concat_map_empty(t.nodes@, fpl);
    assert(placement_issues(t).len() == 0);

    // The root.
    assert forall|k: int| 1 <= k < t.nodes@.len() implies (#[trigger] t.nodes@[k]).role != NodeRole::Root by {
        lemma_node_at(t, w, k);
    }
    lemma_node_at(t, w, 0);
    lemma_single_root(t.nodes@);
    assert(root_nodes(t) == seq![t.nodes@[0]]);
    assert(root_issues(t).len() == 0);

    // Members.
    let fmi = |m: TopoMember| member_issues(t, m);
    assert forall|m: int| 0 <= m < t.members@.len() implies (#[trigger] fmi(t.members@[m])).len() == 0 by {
        lemma_member_at(t, w, m);
        let mm = t.members@[m];
        lemma_has_node(t, w, w.members[m].from);
        lemma_has_node(t, w, w.members[m].to);
        assert(crate::rig::topology::path_shape_ok(mm));
        assert(crate::rig::topology::path_resolves(t, mm)) by {
            assert forall|k: int| 0 <= k < mm.path@.len() implies has_node(t, #[trigger] mm.path@[k]) by {
                if k == 0 {} else {}
            }
        }
        let first = node_of(t, mm.path@[0]);
        let last = node_of(t, mm.path@[1]);
        let kf = node_pos(t.nodes@, mm.path@[0], 0);
        let kl = node_pos(t.nodes@, mm.path@[1], 0);
        lemma_node_at(t, w, kf);
        lemma_node_at(t, w, kl);
        assert(node_ok(w, kf));
        assert(node_ok(w, kl));
        assert(!crate::rig::node::bearing_capable(first.role));
        assert(!crate::rig::node::bearing_capable(last.role));
        let fi = |id: u128| crate::rig::topology::interior_issue(t, mm, id);
        assert(mm.path@.subrange(1, 1) =~= Seq::<u128>::empty());
        assert(mm.path@.subrange(1, 1).map_values(fi) =~= Seq::<Seq<Issue>>::empty());
        assert(issues_of(mm.segment_issues@) =~= Seq::<Issue>::empty());
    }
    lemma_concat_map_empty(t.members@, fmi);
    assert(members_issues(t).len() == 0);

    // Connectivity.
    let fd = |n: TopoNode| disconnected_issue(t, n);
    assert forall|k: int| 0 <= k < t.nodes@.len() implies (#[trigger] fd(t.nodes@[k])).len() == 0 by {
        lemma_node_at(t, w, k);
    }
    lemma_concat_map_empty(t.nodes@, fd);
    let fu = |b: TopoBody| unsupported_issue(t, b);
    assert forall|b: int| 0 <= b < t.bodies@.len() implies (#[trigger] fu(t.bodies@[b])).len() == 0 by {
        lemma_body_at(t, w, b);
    }
    lemma_concat_map_empty(t.bodies@, fu);
    assert(connectivity_issues(t).len() == 0);
    assert(validation_errors(t, Seq::empty(), Seq::empty()) =~= Seq::<Issue>::empty());
}

/// A layered pick with at least one layer wires into a rig graph that
/// passes every structural check: no dangling reference, nodes placed
/// right, exactly one root (the hook), plain members, every node reached
/// from the hook and every body carried by a member.
pub proof fn lemma_from_layers_valid(layers: Seq<LayerShape>, ids: Seq<u128>, t: Topology)
    requires
        layers.len() > 0,
        same_graph(t, layers_wire(layers, ids)),
        members_plain(t),
        t.root == root_id(ids),
        forall|k: int| 0 <= k < t.expr_param_refs@.len() ==> t.param_ids@.contains(#[trigger] t.expr_param_refs@[k]),
    ensures
        validation_errors(t, Seq::empty(), Seq::empty()).len() == 0,
{
    let wf = layers_wire(layers, ids);
    let w0 = wire_start(ids);
    let load = load_id(ids);
    let parents = seq![root_id(ids)];
    assert(matches(t, wf));
    assert(w0.nodes.len() == 1);
    assert(w0.nodes[0].id == root_id(ids));
    assert(w0.bodies[0].id == hook_id(ids));
    assert(w0.bodies[1].id == load);
    assert(wbody(w0, hook_id(ids)));
    assert(wbody(w0, load));
    assert(node_ok(w0, 0));
    assert(wire_ok(w0, ids));
    lemma_root_connected(t);
    assert(wnode(w0, parents[0]));
    assert(parents_ok(t, w0, parents));
    assert(stage_ok(t, w0, parents, ids, 0));
    lemma_wire_from_ok(t, wf, w0, ids, load, parents, layers, 0);
    lemma_valid_from_facts(t, wf, ids);
}

} // verus!
