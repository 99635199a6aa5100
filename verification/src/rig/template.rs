//! The rig graph a layered pick is rigged as: its parameters, hook, load,
//! spreader bars, pick points, collectors, slings and tare frames, wired
//! layer by layer from the hook down, with the hardware of each member.
//!
//! Every parameter, body and node takes the next identifier of a list in
//! creation order; [`from_layers`] draws that list as random version-4
//! identifiers. The measurements (weights, lengths, positions) are not
//! part of the wiring; which parameters the expressions read is.
use vstd::prelude::*;
use vstd::string::*;
use crate::calc::{endpoints_below_count, endpoints_spec};
use crate::catalog::shackle::{find_shackle, shackle_from};
use crate::domain::{Hitch, random_uuid, v4_bits, v4_mask};
use crate::layers::split::{split_slings, split_spec, seq_sum, lemma_split_conserves_slings};
use crate::text::{decimal, push_decimal};
use super::component::ComponentTag;
use super::node::NodeRole;
use super::param::{ParamSource, Quantity};
use super::topology::{TopoBody, TopoMember, TopoNode, Topology, topology_wf};
use super::validate::validation_errors;

pub mod valid;

verus! {

/// What the wiring reads of one sling layer.
#[derive(Debug, Clone)]
pub struct LayerShape {
    /// Number of slings on the layer (at least one is rigged).
    pub sling_count: u32,
    /// Roundsling size number of the layer's slings.
    pub size: u8,
    /// Hitch of the layer's slings.
    pub hitch: Hitch,
    /// A spreader bar (saved or legacy WLL-only) is on the layer.
    pub has_bar: bool,
    /// Apex shackle key; only a key found in the shackle catalog adds a
    /// collector under each parent endpoint.
    pub apex_shackle: Option<String>,
    /// Leg shackle key; only a key found in the shackle catalog adds a
    /// shackle to each sling.
    pub leg_shackle: Option<String>,
    /// A nonzero other tare is entered on the layer.
    pub has_tare: bool,
    /// Endpoints below the layer that its resolved pick-point geometry
    /// places, 0 when it places none.
    pub geometry_ends: u32,
}

/// A parameter the wiring declares. Its value stays out of the wiring.
#[derive(Debug, Clone)]
pub struct ParamDecl {
    pub id: u128,
    pub name: String,
    pub quantity: Quantity,
    pub source: ParamSource,
}

/// A layered pick wired as a rig: the graph, whose parameter identifiers
/// and expression references are those of `params`, and the parameter
/// table in creation order.
#[derive(Debug, Clone)]
pub struct LayeredRig {
    pub topology: Topology,
    pub params: Vec<ParamDecl>,
}

/// Whether `key` is a catalog shackle.
pub open spec fn shackle_found(key: Option<String>) -> bool {
    match key {
        Some(k) => shackle_from(k@, 0) is Some,
        None => false,
    }
}

/// Whether the layer's apex shackle is a catalog shackle.
pub open spec fn apex_found(l: LayerShape) -> bool {
    shackle_found(l.apex_shackle)
}

/// Hardware of a sling: the roundsling, then the leg shackle when the
/// catalog has it.
pub open spec fn sling_parts(l: LayerShape) -> Seq<ComponentTag> {
    seq![ComponentTag::RoundSling { size: l.size, hitch: l.hitch }] + if shackle_found(l.leg_shackle) {
        seq![ComponentTag::Shackle { size: l.leg_shackle->0 }]
    } else {
        Seq::empty()
    }
}

/// Hardware of an apex member: the apex shackle and a master link.
pub open spec fn apex_parts(l: LayerShape) -> Seq<ComponentTag> {
    seq![ComponentTag::Shackle { size: l.apex_shackle->0 }, ComponentTag::MasterLink]
}

/// Hardware of a bar-to-load link or a tare hang: a master link.
pub open spec fn link_parts() -> Seq<ComponentTag> {
    seq![ComponentTag::MasterLink]
}

/// End lugs a bar presents below when they differ from its pick lugs: as
/// many as the geometry places, else the layer's endpoint count.
pub open spec fn bar_end_count(l: LayerShape) -> nat {
    if l.geometry_ends == 0 { endpoints_spec(true, l.sling_count) as nat } else { l.geometry_ends as nat }
}

/// Slings actually rigged on a layer: at least one.
pub open spec fn slings_rigged(l: LayerShape) -> nat {
    if l.sling_count < 1 { 1 } else { l.sling_count as nat }
}

/// A node as the wiring describes it.
pub struct NodeV {
    pub id: u128,
    pub body: Option<u128>,
    pub role: NodeRole,
    pub label: Seq<char>,
}

/// A body as the wiring describes it.
pub struct BodyV {
    pub id: u128,
    pub label: Seq<char>,
}

/// A member as the wiring describes it: one segment between two stops,
/// with its hardware.
pub struct MemberV {
    pub label: Seq<char>,
    pub from: u128,
    pub to: u128,
    pub parts: Seq<ComponentTag>,
}

/// A parameter as the wiring describes it.
pub struct ParamV {
    pub id: u128,
    pub name: Seq<char>,
    pub quantity: Quantity,
    pub source: ParamSource,
}

/// The rig built so far: its graph, its parameters, the parameters read by
/// the expressions of its bodies and of its nodes (each in creation
/// order), and the number of identifiers taken.
pub struct Wire {
    pub nodes: Seq<NodeV>,
    pub bodies: Seq<BodyV>,
    pub members: Seq<MemberV>,
    pub params: Seq<ParamV>,
    pub body_refs: Seq<u128>,
    pub node_refs: Seq<u128>,
    pub next: nat,
}

pub open spec fn node_view(n: TopoNode) -> NodeV {
    NodeV { id: n.id, body: n.body, role: n.role, label: n.label@ }
}

pub open spec fn body_view(b: TopoBody) -> BodyV {
    BodyV { id: b.id, label: b.label@ }
}

/// A member's view; only meaningful for a two-stop, one-segment member.
pub open spec fn member_view(m: TopoMember) -> MemberV {
    MemberV { label: m.label@, from: m.path@[0], to: m.path@[1], parts: m.segments@[0]@ }
}

pub open spec fn param_view(p: ParamDecl) -> ParamV {
    ParamV { id: p.id, name: p.name@, quantity: p.quantity, source: p.source }
}

/// Every member is a single segment between two stops with no finding.
pub open spec fn members_plain(t: Topology) -> bool {
    forall|m: int| 0 <= m < t.members@.len() ==> {
        &&& (#[trigger] t.members@[m]).path@.len() == 2
        &&& t.members@[m].segments@.len() == 1
        &&& t.members@[m].segment_issues@.len() == 0
    }
}

/// The graph of `t` is the one `w` describes.
pub open spec fn same_graph(t: Topology, w: Wire) -> bool {
    &&& t.nodes@.map_values(|n: TopoNode| node_view(n)) == w.nodes
    &&& t.bodies@.map_values(|b: TopoBody| body_view(b)) == w.bodies
    &&& t.members@.map_values(|m: TopoMember| member_view(m)) == w.members
}

/// `r` is the rig `w` describes: its graph, its parameter table, the
/// table's identifiers, and the references of the expressions, those of
/// the bodies before those of the nodes.
pub open spec fn wired(r: LayeredRig, w: Wire) -> bool {
    &&& same_graph(r.topology, w)
    &&& r.params@.map_values(|p: ParamDecl| param_view(p)) == w.params
    &&& r.topology.param_ids@ == w.params.map_values(|p: ParamV| p.id)
    &&& r.topology.expr_param_refs@ == w.body_refs + w.node_refs
}

/// The next identifier to hand out.
pub open spec fn fresh(w: Wire, ids: Seq<u128>) -> u128 {
    ids[w.next as int]
}

pub open spec fn with_param(w: Wire, ids: Seq<u128>, name: Seq<char>, quantity: Quantity, source: ParamSource) -> Wire {
    Wire {
        params: w.params.push(ParamV { id: fresh(w, ids), name, quantity, source }),
        next: w.next + 1,
        ..w
    }
}

pub open spec fn with_body(w: Wire, ids: Seq<u128>, label: Seq<char>, refs: Seq<u128>) -> Wire {
    Wire {
        bodies: w.bodies.push(BodyV { id: fresh(w, ids), label }),
        body_refs: w.body_refs + refs,
        next: w.next + 1,
        ..w
    }
}

pub open spec fn with_node(w: Wire, ids: Seq<u128>, body: Option<u128>, role: NodeRole, label: Seq<char>) -> Wire {
    Wire {
        nodes: w.nodes.push(NodeV { id: fresh(w, ids), body, role, label }),
        next: w.next + 1,
        ..w
    }
}

pub open spec fn with_member(w: Wire, label: Seq<char>, from: u128, to: u128, parts: Seq<ComponentTag>) -> Wire {
    Wire { members: w.members.push(MemberV { label, from, to, parts }), ..w }
}

/// The load's height parameter, read by the lugs on the load.
pub open spec fn height_param(ids: Seq<u128>) -> u128 {
    ids[3]
}

/// The hook body.
pub open spec fn hook_id(ids: Seq<u128>) -> u128 {
    ids[4]
}

/// The root node, on the hook.
pub open spec fn root_id(ids: Seq<u128>) -> u128 {
    ids[5]
}

/// The load body.
pub open spec fn load_id(ids: Seq<u128>) -> u128 {
    ids[6]
}

/// `r` once per node for `n` nodes that read it, nothing for `None`.
pub open spec fn repeat_ref(r: Option<u128>, n: nat) -> Seq<u128> {
    match r {
        Some(x) => Seq::new(n, |k: int| x),
        None => Seq::empty(),
    }
}

/// `L<i><mid><k>`, e.g. `L0 bar pick 1`.
pub open spec fn layer_label(i: nat, mid: Seq<char>, k: nat) -> Seq<char> {
    "L"@ + decimal(i) + mid + decimal(k)
}

/// `L<i><suffix>`, e.g. `L1 tare`.
pub open spec fn layer_name(i: nat, suffix: Seq<char>) -> Seq<char> {
    "L"@ + decimal(i) + suffix
}

/// Identifiers of `n` nodes created in a row from `w`.
pub open spec fn group_ids(w: Wire, ids: Seq<u128>, n: nat) -> Seq<u128> {
    Seq::new(n, |k: int| ids[w.next + k])
}

/// `n` nodes created in a row, labelled by `lab`, each reading `zref`.
pub open spec fn with_nodes(w: Wire, ids: Seq<u128>, body: Option<u128>, role: NodeRole, n: nat, lab: spec_fn(nat) -> Seq<char>, zref: Option<u128>) -> Wire {
    Wire {
        nodes: w.nodes + Seq::new(n, |k: int| NodeV { id: ids[w.next + k], body, role, label: lab(k as nat) }),
        node_refs: w.node_refs + repeat_ref(zref, n),
        next: w.next + n,
        ..w
    }
}

/// Under a bar on the last layer: one lug on the load per bar endpoint,
/// each hung from its endpoint by a master link.
pub open spec fn with_load_links(w: Wire, ids: Seq<u128>, load: u128, i: nat, below: Seq<u128>) -> Wire {
    Wire {
        nodes: w.nodes + Seq::new(below.len(), |k: int| NodeV {
            id: ids[w.next + k],
            body: Some(load),
            role: NodeRole::Lug,
            label: "load from bar "@ + decimal(k as nat),
        }),
        node_refs: w.node_refs + repeat_ref(Some(height_param(ids)), below.len()),
        members: w.members + Seq::new(below.len(), |k: int| MemberV {
            label: layer_label(i, " bar to load "@, k as nat),
            from: below[k],
            to: ids[w.next + k],
            parts: link_parts(),
        }),
        next: w.next + below.len(),
        ..w
    }
}

/// Index of the first sling hung from parent `p`.
pub open spec fn sling_start(splits: Seq<u32>, p: int) -> int {
    seq_sum(splits.take(p))
}

/// Where the slings of parent `p` hang: its collector, or the parent itself.
pub open spec fn hang_of(w: Wire, ids: Seq<u128>, apex: bool, parents: Seq<u128>, p: int) -> u128 {
    if apex { ids[w.next + p] } else { parents[p] }
}

/// The pick point a sling goes to (the last one once they run out).
pub open spec fn pick_at(picks: Seq<u128>, idx: int) -> u128 {
    if idx < picks.len() - 1 { picks[idx] } else { picks[picks.len() - 1] }
}

/// Members added for parent `p`: its apex member, then its slings.
pub open spec fn parent_members(w: Wire, ids: Seq<u128>, i: nat, apex: bool, parents: Seq<u128>, splits: Seq<u32>, picks: Seq<u128>, p: int, aparts: Seq<ComponentTag>, sparts: Seq<ComponentTag>) -> Seq<MemberV> {
    (if apex {
        seq![MemberV { label: layer_label(i, " apex "@, p as nat), from: parents[p], to: hang_of(w, ids, apex, parents, p), parts: aparts }]
    } else {
        Seq::empty()
    }) + Seq::new(splits[p] as nat, |j: int| MemberV {
        label: layer_label(i, " sling "@, (sling_start(splits, p) + j) as nat),
        from: hang_of(w, ids, apex, parents, p),
        to: pick_at(picks, sling_start(splits, p) + j),
        parts: sparts,
    })
}

/// Members added for the first `p` parents.
pub open spec fn sling_members(w: Wire, ids: Seq<u128>, i: nat, apex: bool, parents: Seq<u128>, splits: Seq<u32>, picks: Seq<u128>, p: nat, aparts: Seq<ComponentTag>, sparts: Seq<ComponentTag>) -> Seq<MemberV>
    decreases p,
{
    if p == 0 {
        Seq::empty()
    } else {
        sling_members(w, ids, i, apex, parents, splits, picks, (p - 1) as nat, aparts, sparts)
            + parent_members(w, ids, i, apex, parents, splits, picks, p - 1, aparts, sparts)
    }
}

/// Collectors of the first `p` parents.
pub open spec fn collectors(w: Wire, ids: Seq<u128>, i: nat, apex: bool, p: nat) -> Seq<NodeV> {
    if apex {
        Seq::new(p, |q: int| NodeV {
            id: ids[w.next + q],
            body: None,
            role: NodeRole::Free,
            label: layer_label(i, " collector "@, q as nat),
        })
    } else {
        Seq::empty()
    }
}

/// Slings hung from the first `p` parents, split as `splits` says.
pub open spec fn with_slings(w: Wire, ids: Seq<u128>, i: nat, apex: bool, parents: Seq<u128>, splits: Seq<u32>, picks: Seq<u128>, p: nat, aparts: Seq<ComponentTag>, sparts: Seq<ComponentTag>) -> Wire {
    Wire {
        nodes: w.nodes + collectors(w, ids, i, apex, p),
        members: w.members + sling_members(w, ids, i, apex, parents, splits, picks, p, aparts, sparts),
        next: w.next + (if apex { p } else { 0 }),
        ..w
    }
}

/// The parameters, bodies and nodes of layer `i` before its slings, with
/// the layer's pick points (where its slings end) and the endpoints the
/// next layer hangs from.
pub open spec fn layer_points(w: Wire, ids: Seq<u128>, load: u128, i: nat, l: LayerShape, last: bool) -> (Wire, Seq<u128>, Seq<u128>) {
    let n = slings_rigged(l);
    if l.has_bar {
        let span = fresh(w, ids);
        let w0 = with_param(w, ids, "span_layer"@ + decimal(i), Quantity::Length, ParamSource::Assumed);
        let bar = fresh(w0, ids);
        let w1 = with_body(w0, ids, "Spreader L"@ + decimal(i), seq![span]);
        let picks = group_ids(w1, ids, n);
        let w2 = with_nodes(w1, ids, Some(bar), NodeRole::Lug, n, |k: nat| layer_label(i, " bar pick "@, k), None);
        let ends = endpoints_spec(true, l.sling_count) as nat;
        let w3 = if ends != n {
            with_nodes(w2, ids, Some(bar), NodeRole::Lug, bar_end_count(l), |k: nat| layer_label(i, " bar end "@, k), None)
        } else {
            w2
        };
        let below = if ends != n { group_ids(w2, ids, bar_end_count(l)) } else { picks };
        let w4 = if last { with_load_links(w3, ids, load, i, below) } else { w3 };
        (w4, picks, below)
    } else if last {
        let picks = group_ids(w, ids, n);
        (with_nodes(w, ids, Some(load), NodeRole::Lug, n, |k: nat| "P"@ + decimal(k), Some(height_param(ids))), picks, picks)
    } else {
        let picks = group_ids(w, ids, n);
        (with_nodes(w, ids, None, NodeRole::Free, n, |k: nat| layer_label(i, " knot "@, k), None), picks, picks)
    }
}

/// A tare frame with one lug, hung from `host` by a master link.
pub open spec fn with_tare(w: Wire, ids: Seq<u128>, i: nat, host: u128) -> Wire {
    let frame = fresh(w, ids);
    let w1 = with_body(w, ids, layer_name(i, " tare"@), Seq::empty());
    let lug = fresh(w1, ids);
    let w2 = with_node(w1, ids, Some(frame), NodeRole::Lug, layer_name(i, " tare node"@));
    with_member(w2, layer_name(i, " tare hang"@), host, lug, link_parts())
}

/// Layer `i` hung from `parents`: the rig after it and the endpoints the
/// next layer hangs from. The layer's sling-length parameter comes after
/// its pick points.
pub open spec fn layer_step(w: Wire, ids: Seq<u128>, load: u128, parents: Seq<u128>, l: LayerShape, i: nat, last: bool) -> (Wire, Seq<u128>) {
    let a = layer_points(w, ids, load, i, l, last);
    let picks = a.1;
    let wl = with_param(a.0, ids, "l_layer"@ + decimal(i), Quantity::Length, ParamSource::Drawing);
    let splits = split_spec(parents.len() as u32, slings_rigged(l) as u32);
    let wb = with_slings(wl, ids, i, apex_found(l), parents, splits, picks, parents.len(), apex_parts(l), sling_parts(l));
    let wc = if l.has_tare { with_tare(wb, ids, i, picks[0]) } else { wb };
    (wc, a.2)
}

/// Layers `i..` hung one below the other, starting from `parents`.
pub open spec fn wire_from(w: Wire, ids: Seq<u128>, load: u128, parents: Seq<u128>, layers: Seq<LayerShape>, i: nat) -> Wire
    decreases layers.len() - i,
{
    if i >= layers.len() {
        w
    } else {
        let r = layer_step(w, ids, load, parents, layers[i as int], i, i + 1 == layers.len());
        wire_from(r.0, ids, load, r.1, layers, i + 1)
    }
}

/// The load's weight and dimensions, the hook body, the root node on it,
/// and the load body, whose weight, centre of gravity and dimensions read
/// those parameters.
pub open spec fn wire_start(ids: Seq<u128>) -> Wire {
    let w0 = Wire {
        nodes: Seq::empty(),
        bodies: Seq::empty(),
        members: Seq::empty(),
        params: Seq::empty(),
        body_refs: Seq::empty(),
        node_refs: Seq::empty(),
        next: 0,
    };
    let w1 = with_param(w0, ids, "load_weight"@, Quantity::Weight, ParamSource::Drawing);
    let w2 = with_param(w1, ids, "load_length"@, Quantity::Length, ParamSource::Assumed);
    let w3 = with_param(w2, ids, "load_width"@, Quantity::Length, ParamSource::Assumed);
    let w4 = with_param(w3, ids, "load_height"@, Quantity::Length, ParamSource::Assumed);
    let w5 = with_body(w4, ids, "Hook"@, Seq::empty());
    let w6 = with_node(w5, ids, Some(hook_id(ids)), NodeRole::Root, "hook"@);
    with_body(w6, ids, "Load"@, seq![ids[0], ids[3], ids[1], ids[2], ids[3]])
}

/// The whole rig of a layered pick: the start, then every layer from the
/// hook down, the first hanging from the root.
pub open spec fn layers_wire(layers: Seq<LayerShape>, ids: Seq<u128>) -> Wire {
    wire_from(wire_start(ids), ids, load_id(ids), seq![root_id(ids)], layers, 0)
}

/// Identifiers the pick-point phase of layer `l` takes.
pub open spec fn points_take(l: LayerShape, last: bool) -> nat {
    let n = slings_rigged(l);
    let ends = endpoints_spec(true, l.sling_count) as nat;
    if l.has_bar {
        2 + n + (if ends != n { bar_end_count(l) } else { 0nat }) + (if last { layer_leaves(l) } else { 0nat })
    } else {
        n
    }
}

/// Identifiers layer `l` takes when hung from `parents` endpoints.
pub open spec fn layer_takes(l: LayerShape, parents: nat, last: bool) -> nat {
    points_take(l, last) + 1 + (if apex_found(l) { parents } else { 0nat }) + (if l.has_tare { 2nat } else { 0nat })
}

/// Endpoints layer `l` leaves for the next layer to hang from.
pub open spec fn layer_leaves(l: LayerShape) -> nat {
    let n = slings_rigged(l);
    if l.has_bar && endpoints_spec(true, l.sling_count) as nat != n { bar_end_count(l) } else { n }
}

/// The endpoints a layer presents to the next one are exactly those its
/// wiring leaves below it when no pick-point geometry places them: one per
/// sling rigged without a bar (its pick points), and the bar's end lugs or
/// pick lugs with one.
pub proof fn lemma_endpoints_are_wired(l: LayerShape)
    requires
        l.geometry_ends == 0,
    ensures
        endpoints_spec(l.has_bar, l.sling_count) as nat == layer_leaves(l),
        !l.has_bar ==> endpoints_spec(l.has_bar, l.sling_count) as nat == slings_rigged(l),
{
}

/// Identifiers layers `i..` take, hanging from `parents` endpoints.
pub open spec fn layers_take(layers: Seq<LayerShape>, i: nat, parents: nat) -> nat
    decreases layers.len() - i,
{
    if i >= layers.len() {
        0
    } else {
        layer_takes(layers[i as int], parents, i + 1 == layers.len()) + layers_take(layers, i + 1, layer_leaves(layers[i as int]))
    }
}

/// Identifiers the whole rig of `layers` takes.
pub open spec fn layers_id_count(layers: Seq<LayerShape>) -> nat {
    7 + layers_take(layers, 0, 1)
}

/// The load's weight and dimension parameters, taking the first four
/// identifiers.
pub open spec fn start_params(ids: Seq<u128>) -> Wire {
    let w0 = Wire {
        nodes: Seq::empty(),
        bodies: Seq::empty(),
        members: Seq::empty(),
        params: Seq::empty(),
        body_refs: Seq::empty(),
        node_refs: Seq::empty(),
        next: 0,
    };
    let w1 = with_param(w0, ids, "load_weight"@, Quantity::Weight, ParamSource::Drawing);
    let w2 = with_param(w1, ids, "load_length"@, Quantity::Length, ParamSource::Assumed);
    let w3 = with_param(w2, ids, "load_width"@, Quantity::Length, ParamSource::Assumed);
    with_param(w3, ids, "load_height"@, Quantity::Length, ParamSource::Assumed)
}

/// The builder: the rig so far, the identifiers taken, and the position in
/// the identifier list where each node, body and parameter took its own.
struct Builder {
    t: Topology,
    params: Vec<ParamDecl>,
    body_refs: Vec<u128>,
    node_refs: Vec<u128>,
    next: usize,
    node_at: Ghost<Seq<int>>,
    body_at: Ghost<Seq<int>>,
    param_at: Ghost<Seq<int>>,
}

spec fn bview(b: Builder) -> Wire {
    Wire {
        nodes: b.t.nodes@.map_values(|n: TopoNode| node_view(n)),
        bodies: b.t.bodies@.map_values(|x: TopoBody| body_view(x)),
        members: b.t.members@.map_values(|m: TopoMember| member_view(m)),
        params: b.params@.map_values(|p: ParamDecl| param_view(p)),
        body_refs: b.body_refs@,
        node_refs: b.node_refs@,
        next: b.next as nat,
    }
}

/// Item `i` took its identifier at position `at[i]` of `ids`; positions
/// rise and lie below `next`.
spec fn placed(item_ids: Seq<u128>, at: Seq<int>, ids: Seq<u128>, next: int) -> bool {
    &&& at.len() == item_ids.len()
    &&& forall|i: int| 0 <= i < at.len() ==> 0 <= #[trigger] at[i] < next && item_ids[i] == ids[at[i]]
    &&& forall|i: int, j: int| 0 <= i < j < at.len() ==> at[i] < at[j]
}

proof fn lemma_placed_grow(item_ids: Seq<u128>, at: Seq<int>, ids: Seq<u128>, next: int, next2: int)
    requires
        placed(item_ids, at, ids, next),
        next <= next2,
    ensures
        placed(item_ids, at, ids, next2),
{
}

proof fn lemma_placed_push(item_ids: Seq<u128>, at: Seq<int>, ids: Seq<u128>, next: int, x: u128)
    requires
        placed(item_ids, at, ids, next),
        0 <= next,
        ids[next] == x,
    ensures
        placed(item_ids.push(x), at.push(next), ids, next + 1),
{
    let a2 = at.push(next);
    let s2 = item_ids.push(x);
    assert forall|i: int| 0 <= i < a2.len() implies 0 <= #[trigger] a2[i] < next + 1 && s2[i] == ids[a2[i]] by {
        if i < at.len() {
            assert(a2[i] == at[i]);
        }
    }
    assert forall|i: int, j: int| 0 <= i < j < a2.len() implies a2[i] < a2[j] by {
        if j < at.len() {
            assert(a2[i] == at[i] && a2[j] == at[j]);
        } else {
            assert(a2[i] == at[i]);
        }
    }
}

/// Distinct identifiers at distinct positions give distinct items.
proof fn lemma_placed_distinct(item_ids: Seq<u128>, at: Seq<int>, ids: Seq<u128>, next: int)
    requires
        placed(item_ids, at, ids, next),
        next <= ids.len(),
        ids.no_duplicates(),
    ensures
        item_ids.no_duplicates(),
{
    assert forall|i: int, j: int| 0 <= i < item_ids.len() && 0 <= j < item_ids.len() && i != j implies item_ids[i] != item_ids[j] by {
        assert(0 <= at[i] < next && 0 <= at[j] < next);
        if i < j {
            assert(at[i] < at[j]);
        } else {
            assert(at[j] < at[i]);
        }
    }
}

spec fn builder_ok(b: Builder, ids: Seq<u128>) -> bool {
    &&& members_plain(b.t)
    &&& b.t.param_ids@ == b.params@.map_values(|p: ParamDecl| p.id)
    &&& b.t.expr_param_refs@.len() == 0
    &&& b.next <= ids.len()
    &&& b.t.param_ids@.len() >= 4
    &&& b.t.param_ids@[3] == height_param(ids)
    &&& forall|k: int| 0 <= k < b.body_refs@.len() ==> b.t.param_ids@.contains(#[trigger] b.body_refs@[k])
    &&& forall|k: int| 0 <= k < b.node_refs@.len() ==> b.t.param_ids@.contains(#[trigger] b.node_refs@[k])
    &&& placed(b.t.nodes@.map_values(|n: TopoNode| n.id), b.node_at@, ids, b.next as int)
    &&& placed(b.t.bodies@.map_values(|x: TopoBody| x.id), b.body_at@, ids, b.next as int)
    &&& placed(b.t.param_ids@, b.param_at@, ids, b.next as int)
}

fn add_param(b: &mut Builder, ids: &Vec<u128>, name: String, quantity: Quantity, source: ParamSource) -> (id: u128)
    requires
        old(b).next < ids@.len(),
        builder_ok(*old(b), ids@),
    ensures
        id == fresh(bview(*old(b)), ids@),
        bview(*final(b)) == with_param(bview(*old(b)), ids@, name@, quantity, source),
        builder_ok(*final(b), ids@),
        final(b).t.root == old(b).t.root,
        final(b).t.param_ids@.contains(id),
        forall|x: u128| old(b).t.param_ids@.contains(x) ==> final(b).t.param_ids@.contains(x),
{
    let bound = ids.len();
    let id = ids[b.next];
    let ghost w = bview(*b);
    let ghost pids = b.t.param_ids@;
    let ghost n0 = b.next as int;
    proof {
        lemma_placed_push(pids, b.param_at@, ids@, n0, id);
        lemma_placed_grow(b.t.nodes@.map_values(|n: TopoNode| n.id), b.node_at@, ids@, n0, n0 + 1);
        lemma_placed_grow(b.t.bodies@.map_values(|x: TopoBody| x.id), b.body_at@, ids@, n0, n0 + 1);
    }
    b.params.push(ParamDecl { id, name, quantity, source });
    b.t.param_ids.push(id);
    b.param_at = Ghost(b.param_at@.push(n0));
    assert(b.next < bound);
    b.next = b.next + 1;
    assert(bview(*b).params =~= w.params.push(ParamV { id, name: name@, quantity, source }));
    assert(bview(*b).nodes =~= w.nodes);
    assert(bview(*b).bodies =~= w.bodies);
    assert(bview(*b).members =~= w.members);
    assert(b.t.param_ids@ =~= pids.push(id));
    assert(b.t.param_ids@ =~= b.params@.map_values(|p: ParamDecl| p.id));
    assert(b.t.param_ids@[pids.len() as int] == id);
    assert forall|x: u128| pids.contains(x) implies b.t.param_ids@.contains(x) by {
        let j = choose|j: int| 0 <= j < pids.len() && pids[j] == x;
        assert(b.t.param_ids@[j] == pids[j]);
    }
    id
}

fn add_body(b: &mut Builder, ids: &Vec<u128>, label: String, refs: Vec<u128>) -> (id: u128)
    requires
        old(b).next < ids@.len(),
        builder_ok(*old(b), ids@),
        forall|k: int| 0 <= k < refs@.len() ==> old(b).t.param_ids@.contains(#[trigger] refs@[k]),
    ensures
        id == fresh(bview(*old(b)), ids@),
        bview(*final(b)) == with_body(bview(*old(b)), ids@, label@, refs@),
        builder_ok(*final(b), ids@),
        final(b).t.root == old(b).t.root,
        final(b).t.param_ids@ == old(b).t.param_ids@,
{
    let bound = ids.len();
    let id = ids[b.next];
    let ghost w = bview(*b);
    let ghost n0 = b.next as int;
    let ghost br = b.body_refs@;
    proof {
        lemma_placed_push(b.t.bodies@.map_values(|x: TopoBody| x.id), b.body_at@, ids@, n0, id);
        lemma_placed_grow(b.t.nodes@.map_values(|n: TopoNode| n.id), b.node_at@, ids@, n0, n0 + 1);
        lemma_placed_grow(b.t.param_ids@, b.param_at@, ids@, n0, n0 + 1);
    }
    let ghost bids = b.t.bodies@.map_values(|x: TopoBody| x.id);
    b.t.bodies.push(TopoBody { id, label });
    let mut refs = refs;
    let ghost rv = refs@;
    b.body_refs.append(&mut refs);
    b.body_at = Ghost(b.body_at@.push(n0));
    assert(b.next < bound);
    b.next = b.next + 1;
    assert(b.t.bodies@.map_values(|x: TopoBody| x.id) =~= bids.push(id));
    assert(bview(*b).bodies =~= w.bodies.push(BodyV { id, label: label@ }));
    assert(bview(*b).nodes =~= w.nodes);
    assert(bview(*b).members =~= w.members);
    assert(bview(*b).params =~= w.params);
    assert(b.body_refs@ =~= br + rv);
    assert forall|k: int| 0 <= k < b.body_refs@.len() implies b.t.param_ids@.contains(#[trigger] b.body_refs@[k]) by {
        if k < br.len() {
            assert(b.body_refs@[k] == br[k]);
        } else {
            assert(b.body_refs@[k] == rv[k - br.len()]);
        }
    }
    id
}

fn add_node(b: &mut Builder, ids: &Vec<u128>, body: Option<u128>, role: NodeRole, label: String, zref: Option<u128>) -> (id: u128)
    requires
        old(b).next < ids@.len(),
        builder_ok(*old(b), ids@),
        zref matches Some(r) ==> old(b).t.param_ids@.contains(r),
    ensures
        id == fresh(bview(*old(b)), ids@),
        bview(*final(b)) == (Wire {
            nodes: bview(*old(b)).nodes.push(NodeV { id, body, role, label: label@ }),
            node_refs: bview(*old(b)).node_refs + repeat_ref(zref, 1),
            next: bview(*old(b)).next + 1,
            ..bview(*old(b))
        }),
        zref is None ==> bview(*final(b)) == with_node(bview(*old(b)), ids@, body, role, label@),
        builder_ok(*final(b), ids@),
        final(b).t.root == old(b).t.root,
        final(b).t.param_ids@ == old(b).t.param_ids@,
{
    let bound = ids.len();
    let id = ids[b.next];
    let ghost w = bview(*b);
    let ghost n0 = b.next as int;
    let ghost nr = b.node_refs@;
    proof {
        lemma_placed_push(b.t.nodes@.map_values(|n: TopoNode| n.id), b.node_at@, ids@, n0, id);
        lemma_placed_grow(b.t.bodies@.map_values(|x: TopoBody| x.id), b.body_at@, ids@, n0, n0 + 1);
        lemma_placed_grow(b.t.param_ids@, b.param_at@, ids@, n0, n0 + 1);
    }
    let ghost nids = b.t.nodes@.map_values(|n: TopoNode| n.id);
    b.t.nodes.push(TopoNode { id, body, role, label });
    match zref {
        Some(r) => b.node_refs.push(r),
        None => {},
    }
    b.node_at = Ghost(b.node_at@.push(n0));
    assert(b.next < bound);
    b.next = b.next + 1;
    assert(b.t.nodes@.map_values(|n: TopoNode| n.id) =~= nids.push(id));
    assert(bview(*b).nodes =~= w.nodes.push(NodeV { id, body, role, label: label@ }));
    assert(bview(*b).bodies =~= w.bodies);
    assert(bview(*b).members =~= w.members);
    assert(bview(*b).params =~= w.params);
    assert(b.node_refs@ =~= nr + repeat_ref(zref, 1));
    assert(nr + repeat_ref(None, 1) =~= nr);
    assert forall|k: int| 0 <= k < b.node_refs@.len() implies b.t.param_ids@.contains(#[trigger] b.node_refs@[k]) by {
        if k < nr.len() {
            assert(b.node_refs@[k] == nr[k]);
        }
    }
    id
}

fn add_member(b: &mut Builder, ids: &Vec<u128>, label: String, from: u128, to: u128, parts: Vec<ComponentTag>)
    requires
        builder_ok(*old(b), ids@),
    ensures
        bview(*final(b)) == with_member(bview(*old(b)), label@, from, to, parts@),
        builder_ok(*final(b), ids@),
        final(b).t.root == old(b).t.root,
        final(b).t.param_ids@ == old(b).t.param_ids@,
{
    let ghost w = bview(*b);
    let mut path: Vec<u128> = Vec::new();
    path.push(from);
    path.push(to);
    let ghost pv = parts@;
    let mut segments: Vec<Vec<ComponentTag>> = Vec::new();
    segments.push(parts);
    b.t.members.push(TopoMember { label, path, segments, segment_issues: Vec::new() });
    assert(bview(*b).members =~= w.members.push(MemberV { label: label@, from, to, parts: pv }));
    assert(bview(*b).nodes =~= w.nodes);
    assert(bview(*b).bodies =~= w.bodies);
    assert(bview(*b).params =~= w.params);
}

fn layer_label_string(i: usize, mid: &str, k: u64) -> (s: String)
    ensures
        s@ == layer_label(i as nat, mid@, k as nat),
{
    let mut s = String::from_str("L");
    push_decimal(&mut s, i as u64);
    s.append(mid);
    push_decimal(&mut s, k);
    s
}

fn layer_name_string(i: usize, suffix: &str) -> (s: String)
    ensures
        s@ == layer_name(i as nat, suffix@),
{
    let mut s = String::from_str("L");
    push_decimal(&mut s, i as u64);
    s.append(suffix);
    s
}

fn prefixed_string(prefix: &str, k: u64) -> (s: String)
    ensures
        s@ == prefix@ + decimal(k as nat),
{
    let mut s = String::from_str(prefix);
    push_decimal(&mut s, k);
    s
}

proof fn lemma_repeat_ref_step(r: Option<u128>, k: nat, acc: Seq<u128>)
    ensures
        acc + repeat_ref(r, k) + repeat_ref(r, 1) == acc + repeat_ref(r, k + 1),
{
    match r {
        Some(x) => {
            assert(acc + repeat_ref(r, k) + repeat_ref(r, 1) =~= acc + repeat_ref(r, k + 1));
        },
        None => {
            assert(acc + repeat_ref(r, k) + repeat_ref(r, 1) =~= acc + repeat_ref(r, k + 1));
        },
    }
}

/// `n` nodes on `body`, node `k` labelled `lab(k)`, each reading `zref`;
/// their identifiers. With `layered` the labels are `L<i><mid><k>`, else
/// `<mid><k>`.
fn add_nodes(b: &mut Builder, ids: &Vec<u128>, body: Option<u128>, role: NodeRole, i: usize, layered: bool, mid: &str, n: u32, zref: Option<u128>, Ghost(lab): Ghost<spec_fn(nat) -> Seq<char>>) -> (out: Vec<u128>)
    requires
        old(b).next + n <= ids@.len(),
        builder_ok(*old(b), ids@),
        zref matches Some(r) ==> old(b).t.param_ids@.contains(r),
        layered ==> lab == (|k: nat| layer_label(i as nat, mid@, k)),
        !layered ==> lab == (|k: nat| mid@ + decimal(k)),
    ensures
        bview(*final(b)) == with_nodes(bview(*old(b)), ids@, body, role, n as nat, lab, zref),
        out@ == group_ids(bview(*old(b)), ids@, n as nat),
        builder_ok(*final(b), ids@),
        final(b).t.root == old(b).t.root,
        final(b).t.param_ids@ == old(b).t.param_ids@,
{
    let ghost w0 = bview(*b);
    let mut out: Vec<u128> = Vec::new();
    let mut k: u32 = 0;
    assert(w0.node_refs + repeat_ref(zref, 0) =~= w0.node_refs);
    assert(bview(*b) =~= with_nodes(w0, ids@, body, role, 0, lab, zref));
    while k < n
        invariant
            k <= n,
            w0.next + n <= ids@.len(),
            layered ==> lab == (|k: nat| layer_label(i as nat, mid@, k)),
            !layered ==> lab == (|k: nat| mid@ + decimal(k)),
            bview(*b) == with_nodes(w0, ids@, body, role, k as nat, lab, zref),
            out@ == group_ids(w0, ids@, k as nat),
            builder_ok(*b, ids@),
            b.t.root == old(b).t.root,
            b.t.param_ids@ == old(b).t.param_ids@,
            zref matches Some(r) ==> b.t.param_ids@.contains(r),
        decreases n - k,
    {
        let label = if layered { layer_label_string(i, mid, k as u64) } else { prefixed_string(mid, k as u64) };
        assert(label@ == lab(k as nat));
        let id = add_node(b, ids, body, role, label, zref);
        out.push(id);
        proof {
            lemma_repeat_ref_step(zref, k as nat, w0.node_refs);
        }
        assert(bview(*b).nodes =~= with_nodes(w0, ids@, body, role, (k + 1) as nat, lab, zref).nodes);
        assert(out@ =~= group_ids(w0, ids@, (k + 1) as nat));
        k = k + 1;
    }
    out
}

fn sling_parts_vec(l: &LayerShape) -> (v: Vec<ComponentTag>)
    ensures
        v@ == sling_parts(*l),
{
    let mut v: Vec<ComponentTag> = Vec::new();
    v.push(ComponentTag::RoundSling { size: l.size, hitch: l.hitch });
    match &l.leg_shackle {
        Some(k) => {
            if find_shackle(k.as_str()).is_some() {
                v.push(ComponentTag::Shackle { size: k.clone() });
            }
        },
        None => {},
    }
    assert(v@ =~= sling_parts(*l));
    v
}

fn apex_parts_vec(l: &LayerShape) -> (v: Vec<ComponentTag>)
    requires
        l.apex_shackle is Some,
    ensures
        v@ == apex_parts(*l),
{
    let mut v: Vec<ComponentTag> = Vec::new();
    match &l.apex_shackle {
        Some(k) => v.push(ComponentTag::Shackle { size: k.clone() }),
        None => {},
    }
    v.push(ComponentTag::MasterLink);
    assert(v@ =~= apex_parts(*l));
    v
}

fn link_parts_vec() -> (v: Vec<ComponentTag>)
    ensures
        v@ == link_parts(),
{
    let mut v: Vec<ComponentTag> = Vec::new();
    v.push(ComponentTag::MasterLink);
    assert(v@ =~= link_parts());
    v
}

fn add_load_links(b: &mut Builder, ids: &Vec<u128>, load: u128, i: usize, below: &Vec<u128>)
    requires
        old(b).next + below@.len() <= ids@.len(),
        builder_ok(*old(b), ids@),
    ensures
        bview(*final(b)) == with_load_links(bview(*old(b)), ids@, load, i as nat, below@),
        builder_ok(*final(b), ids@),
        final(b).t.root == old(b).t.root,
        final(b).t.param_ids@ == old(b).t.param_ids@,
{
    let ghost w0 = bview(*b);
    let h = b.t.param_ids[3];
    assert(b.t.param_ids@.contains(h));
    let mut k: usize = 0;
    assert(bview(*b) =~= with_load_links(w0, ids@, load, i as nat, below@.take(0)));
    while k < below.len()
        invariant
            k <= below@.len(),
            w0.next + below@.len() <= ids@.len(),
            h == height_param(ids@),
            b.t.param_ids@.contains(h),
            bview(*b) == with_load_links(w0, ids@, load, i as nat, below@.take(k as int)),
            builder_ok(*b, ids@),
            b.t.root == old(b).t.root,
            b.t.param_ids@ == old(b).t.param_ids@,
        decreases below@.len() - k,
    {
        let label = prefixed_string("load from bar ", k as u64);
        let lug = add_node(b, ids, Some(load), NodeRole::Lug, label, Some(h));
        let mlabel = layer_label_string(i, " bar to load ", k as u64);
        add_member(b, ids, mlabel, below[k], lug, link_parts_vec());
        let ghost want = with_load_links(w0, ids@, load, i as nat, below@.take(k + 1));
        proof {
            lemma_repeat_ref_step(Some(h), k as nat, w0.node_refs);
        }
        assert(bview(*b).nodes =~= want.nodes);
        assert(bview(*b).members =~= want.members);
        assert(bview(*b).node_refs =~= want.node_refs);
        k = k + 1;
    }
    assert(below@.take(below@.len() as int) =~= below@);
}

proof fn lemma_take_sum_step(s: Seq<u32>, p: int)
    requires
        0 <= p < s.len(),
    ensures
        seq_sum(s.take(p + 1)) == seq_sum(s.take(p)) + s[p],
{
    assert(s.take(p + 1).drop_last() =~= s.take(p));
}

proof fn lemma_take_sum_le(s: Seq<u32>, p: int)
    requires
        0 <= p <= s.len(),
    ensures
        seq_sum(s.take(p)) <= seq_sum(s),
    decreases s.len() - p,
{
    if p == s.len() {
        assert(s.take(p) =~= s);
    } else {
        lemma_take_sum_step(s, p);
        lemma_take_sum_le(s, p + 1);
    }
}

fn add_slings(b: &mut Builder, ids: &Vec<u128>, i: usize, apex: bool, parents: &Vec<u128>, splits: &Vec<u32>, picks: &Vec<u128>, l: &LayerShape)
    requires
        splits@.len() == parents@.len(),
        picks@.len() >= 1,
        seq_sum(splits@) <= u32::MAX,
        apex ==> l.apex_shackle is Some,
        old(b).next + (if apex { parents@.len() } else { 0 }) <= ids@.len(),
        builder_ok(*old(b), ids@),
    ensures
        bview(*final(b)) == with_slings(bview(*old(b)), ids@, i as nat, apex, parents@, splits@, picks@, parents@.len(), apex_parts(*l), sling_parts(*l)),
        builder_ok(*final(b), ids@),
        final(b).t.root == old(b).t.root,
        final(b).t.param_ids@ == old(b).t.param_ids@,
{
    let ghost w0 = bview(*b);
    let ghost aparts = apex_parts(*l);
    let ghost sparts = sling_parts(*l);
    let mut idx: usize = 0;
    let mut p: usize = 0;
    assert(bview(*b) =~= with_slings(w0, ids@, i as nat, apex, parents@, splits@, picks@, 0, aparts, sparts));
    while p < parents.len()
        invariant
            p <= parents@.len(),
            splits@.len() == parents@.len(),
            picks@.len() >= 1,
            seq_sum(splits@) <= u32::MAX,
            apex ==> l.apex_shackle is Some,
            aparts == apex_parts(*l),
            sparts == sling_parts(*l),
            w0.next + (if apex { parents@.len() } else { 0 }) <= ids@.len(),
            idx == sling_start(splits@, p as int),
            bview(*b) == with_slings(w0, ids@, i as nat, apex, parents@, splits@, picks@, p as nat, aparts, sparts),
            builder_ok(*b, ids@),
            b.t.root == old(b).t.root,
            b.t.param_ids@ == old(b).t.param_ids@,
        decreases parents@.len() - p,
    {
        proof {
            lemma_take_sum_step(splits@, p as int);
            lemma_take_sum_le(splits@, p + 1);
        }
        let hang = if apex {
            let label = layer_label_string(i, " collector ", p as u64);
            let c = add_node(b, ids, None, NodeRole::Free, label, None);
            let mlabel = layer_label_string(i, " apex ", p as u64);
            add_member(b, ids, mlabel, parents[p], c, apex_parts_vec(l));
            c
        } else {
            parents[p]
        };
        assert(hang == hang_of(w0, ids@, apex, parents@, p as int));
        let ghost wq = bview(*b);
        let count = splits[p];
        let mut j: u32 = 0;
        while j < count
            invariant
                j <= count,
                count == splits@[p as int],
                p < parents@.len(),
                picks@.len() >= 1,
                sparts == sling_parts(*l),
                idx == sling_start(splits@, p as int) + j,
                sling_start(splits@, p as int) + count <= u32::MAX,
                hang == hang_of(w0, ids@, apex, parents@, p as int),
                bview(*b).nodes == wq.nodes,
                bview(*b).bodies == wq.bodies,
                bview(*b).params == wq.params,
                bview(*b).body_refs == wq.body_refs,
                bview(*b).node_refs == wq.node_refs,
                bview(*b).next == wq.next,
                bview(*b).members == wq.members + Seq::new(j as nat, |q: int| MemberV {
                    label: layer_label(i as nat, " sling "@, (sling_start(splits@, p as int) + q) as nat),
                    from: hang_of(w0, ids@, apex, parents@, p as int),
                    to: pick_at(picks@, sling_start(splits@, p as int) + q),
                    parts: sparts,
                }),
                builder_ok(*b, ids@),
                b.t.root == old(b).t.root,
                b.t.param_ids@ == old(b).t.param_ids@,
            decreases count - j,
        {
            let last = picks.len() - 1;
            let dest = if idx < last { picks[idx] } else { picks[last] };
            let label = layer_label_string(i, " sling ", idx as u64);
            add_member(b, ids, label, hang, dest, sling_parts_vec(l));
            let ghost tail = Seq::new((j + 1) as nat, |q: int| MemberV {
                label: layer_label(i as nat, " sling "@, (sling_start(splits@, p as int) + q) as nat),
                from: hang_of(w0, ids@, apex, parents@, p as int),
                to: pick_at(picks@, sling_start(splits@, p as int) + q),
                parts: sparts,
            });
            assert(bview(*b).members =~= wq.members + tail);
            idx = idx + 1;
            j = j + 1;
        }
        let ghost want = with_slings(w0, ids@, i as nat, apex, parents@, splits@, picks@, (p + 1) as nat, aparts, sparts);
        assert(bview(*b).nodes =~= want.nodes);
        assert(bview(*b).members =~= want.members);
        p = p + 1;
    }
}

proof fn lemma_layer_takes_bound(l: LayerShape, parents: nat, last: bool)
    requires
        parents <= u32::MAX,
    ensures
        layer_takes(l, parents, last) <= 0x8_0000_0000,
        1 <= layer_leaves(l) <= u32::MAX,
{
}

/// The pick-point phase of layer `i`: its pick points and the endpoints
/// the next layer hangs from.
fn add_points(b: &mut Builder, ids: &Vec<u128>, load: u128, l: &LayerShape, i: usize, last: bool) -> (r: (Vec<u128>, Vec<u128>))
    requires
        old(b).next + points_take(*l, last) <= ids@.len(),
        builder_ok(*old(b), ids@),
    ensures
        (bview(*final(b)), r.0@, r.1@) == layer_points(bview(*old(b)), ids@, load, i as nat, *l, last),
        r.0@.len() == slings_rigged(*l),
        r.1@.len() == layer_leaves(*l),
        final(b).next == old(b).next + points_take(*l, last),
        builder_ok(*final(b), ids@),
        final(b).t.root == old(b).t.root,
{
    let ghost w0 = bview(*b);
    proof {
        lemma_layer_takes_bound(*l, 0, last);
    }
    let n: u32 = if l.sling_count < 1 { 1 } else { l.sling_count };
    let ghost a = layer_points(w0, ids@, load, i as nat, *l, last);
    let picks: Vec<u128>;
    let below: Vec<u128>;
    if l.has_bar {
        let span_name = prefixed_string("span_layer", i as u64);
        let span = add_param(b, ids, span_name, Quantity::Length, ParamSource::Assumed);
        let bar_label = prefixed_string("Spreader L", i as u64);
        let mut refs: Vec<u128> = Vec::new();
        refs.push(span);
        assert forall|k: int| 0 <= k < refs@.len() implies b.t.param_ids@.contains(#[trigger] refs@[k]) by {}
        let bar = add_body(b, ids, bar_label, refs);
        assert(refs@ =~= seq![span]);
        picks = add_nodes(b, ids, Some(bar), NodeRole::Lug, i, true, " bar pick ", n, None, Ghost(|k: nat| layer_label(i as nat, " bar pick "@, k)));
        let ends = endpoints_below_count(true, l.sling_count);
        if ends != n {
            let count = if l.geometry_ends == 0 { ends } else { l.geometry_ends };
            below = add_nodes(b, ids, Some(bar), NodeRole::Lug, i, true, " bar end ", count, None, Ghost(|k: nat| layer_label(i as nat, " bar end "@, k)));
        } else {
            below = picks.clone();
            assert(below@ =~= picks@);
        }
        if last {
            add_load_links(b, ids, load, i, &below);
        }
        assert(bview(*b) == a.0);
    } else if last {
        let h = b.t.param_ids[3];
        assert(b.t.param_ids@.contains(h));
        picks = add_nodes(b, ids, Some(load), NodeRole::Lug, i, false, "P", n, Some(h), Ghost(|k: nat| "P"@ + decimal(k)));
        below = picks.clone();
        assert(below@ =~= picks@);
        assert(bview(*b) == a.0);
    } else {
        picks = add_nodes(b, ids, None, NodeRole::Free, i, true, " knot ", n, None, Ghost(|k: nat| layer_label(i as nat, " knot "@, k)));
        below = picks.clone();
        assert(below@ =~= picks@);
        assert(bview(*b) == a.0);
    }
    assert(picks@ == a.1);
    assert(below@ == a.2);
    (picks, below)
}

fn add_layer(b: &mut Builder, ids: &Vec<u128>, load: u128, parents: &Vec<u128>, l: &LayerShape, i: usize, last: bool) -> (below: Vec<u128>)
    requires
        1 <= parents@.len() <= u32::MAX,
        old(b).next + layer_takes(*l, parents@.len(), last) <= ids@.len(),
        builder_ok(*old(b), ids@),
    ensures
        (bview(*final(b)), below@) == layer_step(bview(*old(b)), ids@, load, parents@, *l, i as nat, last),
        below@.len() == layer_leaves(*l),
        1 <= below@.len() <= u32::MAX,
        final(b).next == old(b).next + layer_takes(*l, parents@.len(), last),
        builder_ok(*final(b), ids@),
        final(b).t.root == old(b).t.root,
{
    proof {
        lemma_layer_takes_bound(*l, parents@.len(), last);
    }
    let n: u32 = if l.sling_count < 1 { 1 } else { l.sling_count };
    let (picks, below) = add_points(b, ids, load, l, i, last);
    let len_name = prefixed_string("l_layer", i as u64);
    add_param(b, ids, len_name, Quantity::Length, ParamSource::Drawing);
    let n_parents = parents.len() as u32;
    let splits = split_slings(n_parents, n);
    proof {
        lemma_split_conserves_slings(n_parents, n);
    }
    let apex = match &l.apex_shackle {
        Some(k) => find_shackle(k.as_str()).is_some(),
        None => false,
    };
    assert(apex == apex_found(*l));
    add_slings(b, ids, i, apex, parents, &splits, &picks, l);
    let ghost wb = bview(*b);
    if l.has_tare {
        let frame_label = layer_name_string(i, " tare");
        let no_refs: Vec<u128> = Vec::new();
        assert(no_refs@ =~= Seq::<u128>::empty());
        let frame = add_body(b, ids, frame_label, no_refs);
        let node_label = layer_name_string(i, " tare node");
        let lug = add_node(b, ids, Some(frame), NodeRole::Lug, node_label, None);
        let hang_label = layer_name_string(i, " tare hang");
        add_member(b, ids, hang_label, picks[0], lug, link_parts_vec());
        assert(bview(*b) == with_tare(wb, ids@, i as nat, picks@[0]));
    }
    below
}

fn layer_takes_count(l: &LayerShape, parents: u32, last: bool) -> (r: (u64, u32))
    ensures
        r.0 == layer_takes(*l, parents as nat, last),
        r.1 == layer_leaves(*l),
{
    proof {
        lemma_layer_takes_bound(*l, parents as nat, last);
    }
    let n: u64 = if l.sling_count < 1 { 1 } else { l.sling_count as u64 };
    let ends = endpoints_below_count(true, l.sling_count) as u64;
    let end_count: u64 = if l.geometry_ends == 0 { ends } else { l.geometry_ends as u64 };
    let leaves: u64 = if l.has_bar && ends != n { end_count } else { n };
    let points: u64 = if l.has_bar {
        2 + n + (if ends != n { end_count } else { 0 }) + (if last { leaves } else { 0 })
    } else {
        n
    };
    let apex = match &l.apex_shackle {
        Some(k) => find_shackle(k.as_str()).is_some(),
        None => false,
    };
    let takes = points + 1 + (if apex { parents as u64 } else { 0 }) + (if l.has_tare { 2 } else { 0 });
    (takes, leaves as u32)
}

/// Number of identifiers the rig of `layers` takes.
pub fn layers_id_count_of(layers: &Vec<LayerShape>) -> (c: u128)
    ensures
        c == layers_id_count(layers@),
{
    let mut acc: u128 = 7;
    let mut parents: u32 = 1;
    let mut i: usize = 0;
    while i < layers.len()
        invariant
            i <= layers@.len(),
            acc <= 7 + i * 0x8_0000_0000,
            acc + layers_take(layers@, i as nat, parents as nat) == layers_id_count(layers@),
        decreases layers@.len() - i,
    {
        let last = i + 1 == layers.len();
        let (takes, leaves) = layer_takes_count(&layers[i], parents, last);
        proof {
            lemma_layer_takes_bound(layers@[i as int], parents as nat, last);
        }
        acc = acc + takes as u128;
        parents = leaves;
        i = i + 1;
    }
    acc
}

/// `count` fresh random version-4 identifiers.
fn draw_ids(count: u128) -> (ids: Vec<u128>)
    ensures
        ids@.len() == count,
        forall|k: int| 0 <= k < ids@.len() ==> #[trigger] ids@[k] & v4_mask() == v4_bits(),
{
    let mut ids: Vec<u128> = Vec::new();
    let mut k: u128 = 0;
    while k < count
        invariant
            k <= count,
            ids@.len() == k,
            forall|q: int| 0 <= q < ids@.len() ==> #[trigger] ids@[q] & v4_mask() == v4_bits(),
        decreases count - k,
    {
        let id = random_uuid();
        ids.push(id);
        k = k + 1;
    }
    ids
}

fn param_decl(id: u128, name: &str, quantity: Quantity, source: ParamSource) -> (p: ParamDecl)
    ensures
        param_view(p) == (ParamV { id, name: name@, quantity, source }),
        p.id == id,
{
    ParamDecl { id, name: String::from_str(name), quantity, source }
}

/// Wire a layered pick into a rig, taking identifiers from `ids` in
/// creation order: the load's weight, length, width and height
/// parameters, the hook body, the root node on it, the load, then layer by
/// layer. The result is the rig [`layers_wire`] describes; every member is
/// one segment between two stops; with distinct identifiers no two nodes,
/// bodies or parameters share one; with at least one layer the graph
/// passes every structural check.
pub fn from_layers_with_ids(layers: &Vec<LayerShape>, ids: &Vec<u128>) -> (r: LayeredRig)
    requires
        ids@.len() >= layers_id_count(layers@),
    ensures
        wired(r, layers_wire(layers@, ids@)),
        layers_wire(layers@, ids@).next == layers_id_count(layers@),
        r.topology.root == root_id(ids@),
        members_plain(r.topology),
        ids@.no_duplicates() ==> topology_wf(r.topology),
        layers@.len() > 0 ==> validation_errors(r.topology, Seq::empty(), Seq::empty()).len() == 0,
{
    let mut params: Vec<ParamDecl> = Vec::new();
    params.push(param_decl(ids[0], "load_weight", Quantity::Weight, ParamSource::Drawing));
    params.push(param_decl(ids[1], "load_length", Quantity::Length, ParamSource::Assumed));
    params.push(param_decl(ids[2], "load_width", Quantity::Length, ParamSource::Assumed));
    params.push(param_decl(ids[3], "load_height", Quantity::Length, ParamSource::Assumed));
    let mut param_ids: Vec<u128> = Vec::new();
    param_ids.push(ids[0]);
    param_ids.push(ids[1]);
    param_ids.push(ids[2]);
    param_ids.push(ids[3]);
    let t0 = Topology {
        nodes: Vec::new(),
        bodies: Vec::new(),
        members: Vec::new(),
        root: ids[5],
        param_ids,
        expr_param_refs: Vec::new(),
    };
    let ghost first_four: Seq<int> = seq![0int, 1int, 2int, 3int];
    let mut b = Builder {
        t: t0,
        params,
        body_refs: Vec::new(),
        node_refs: Vec::new(),
        next: 4,
        node_at: Ghost(Seq::empty()),
        body_at: Ghost(Seq::empty()),
        param_at: Ghost(first_four),
    };
    assert(bview(b).nodes =~= Seq::<NodeV>::empty());
    assert(bview(b).bodies =~= Seq::<BodyV>::empty());
    assert(bview(b).members =~= Seq::<MemberV>::empty());
    assert(bview(b).params =~= start_params(ids@).params);
    assert(b.t.param_ids@ =~= b.params@.map_values(|p: ParamDecl| p.id));
    assert(b.t.nodes@.map_values(|n: TopoNode| n.id) =~= Seq::<u128>::empty());
    assert(b.t.bodies@.map_values(|x: TopoBody| x.id) =~= Seq::<u128>::empty());
    assert(bview(b) == start_params(ids@));
    assert(builder_ok(b, ids@));
    let no_refs: Vec<u128> = Vec::new();
    assert(no_refs@ =~= Seq::<u128>::empty());
    let hook_body = add_body(&mut b, ids, String::from_str("Hook"), no_refs);
    let hook = add_node(&mut b, ids, Some(hook_body), NodeRole::Root, String::from_str("hook"), None);
    let mut load_refs: Vec<u128> = Vec::new();
    load_refs.push(ids[0]);
    load_refs.push(ids[3]);
    load_refs.push(ids[1]);
    load_refs.push(ids[2]);
    load_refs.push(ids[3]);
    assert(b.t.param_ids@[0] == ids@[0] && b.t.param_ids@[1] == ids@[1] && b.t.param_ids@[2] == ids@[2] && b.t.param_ids@[3] == ids@[3]);
    assert forall|k: int| 0 <= k < load_refs@.len() implies b.t.param_ids@.contains(#[trigger] load_refs@[k]) by {
        if k == 0 {
            assert(b.t.param_ids@[0] == load_refs@[k]);
        } else if k == 2 {
            assert(b.t.param_ids@[1] == load_refs@[k]);
        } else if k == 3 {
            assert(b.t.param_ids@[2] == load_refs@[k]);
        } else {
            assert(b.t.param_ids@[3] == load_refs@[k]);
        }
    }
    assert(load_refs@ =~= seq![ids@[0], ids@[3], ids@[1], ids@[2], ids@[3]]);
    let load = add_body(&mut b, ids, String::from_str("Load"), load_refs);
    assert(bview(b) == wire_start(ids@));
    let mut below: Vec<u128> = Vec::new();
    below.push(hook);
    assert(below@ =~= seq![root_id(ids@)]);
    let mut i: usize = 0;
    while i < layers.len()
        invariant
            i <= layers@.len(),
            1 <= below@.len() <= u32::MAX,
            b.next + layers_take(layers@, i as nat, below@.len()) == layers_id_count(layers@),
            layers_id_count(layers@) <= ids@.len(),
            load == load_id(ids@),
            b.t.root == root_id(ids@),
            builder_ok(b, ids@),
            wire_from(bview(b), ids@, load, below@, layers@, i as nat) == layers_wire(layers@, ids@),
        decreases layers@.len() - i,
    {
        let last = i + 1 == layers.len();
        let next_below = add_layer(&mut b, ids, load, &below, &layers[i], i, last);
        below = next_below;
        i = i + 1;
    }
    let ghost w = bview(b);
    let ghost t1 = b.t;
    let mut refs = b.body_refs.clone();
    let mut more = b.node_refs.clone();
    refs.append(&mut more);
    b.t.expr_param_refs = refs;
    let t = b.t;
    let r = LayeredRig { topology: t, params: b.params };
    proof {
        assert(r.topology.nodes@ == t1.nodes@);
        assert(r.topology.expr_param_refs@ =~= w.body_refs + w.node_refs);
        assert forall|k: int| 0 <= k < t.expr_param_refs@.len() implies t.param_ids@.contains(#[trigger] t.expr_param_refs@[k]) by {
            if k < w.body_refs.len() {
                assert(t.expr_param_refs@[k] == b.body_refs@[k]);
            } else {
                assert(t.expr_param_refs@[k] == b.node_refs@[k - w.body_refs.len()]);
            }
        }
        assert(r.topology.param_ids@ =~= w.params.map_values(|p: ParamV| p.id));
        if layers@.len() > 0 {
            valid::lemma_from_layers_valid(layers@, ids@, t);
        }
        if ids@.no_duplicates() {
            lemma_placed_distinct(t.nodes@.map_values(|n: TopoNode| n.id), b.node_at@, ids@, b.next as int);
            lemma_placed_distinct(t.bodies@.map_values(|x: TopoBody| x.id), b.body_at@, ids@, b.next as int);
            lemma_placed_distinct(t.param_ids@, b.param_at@, ids@, b.next as int);
            assert forall|p: int, q: int| 0 <= p < t.nodes@.len() && 0 <= q < t.nodes@.len() && p != q implies t.nodes@[p].id != t.nodes@[q].id by {
                assert(t.nodes@.map_values(|n: TopoNode| n.id)[p] == t.nodes@[p].id);
                assert(t.nodes@.map_values(|n: TopoNode| n.id)[q] == t.nodes@[q].id);
            }
            assert forall|p: int, q: int| 0 <= p < t.bodies@.len() && 0 <= q < t.bodies@.len() && p != q implies t.bodies@[p].id != t.bodies@[q].id by {
                assert(t.bodies@.map_values(|x: TopoBody| x.id)[p] == t.bodies@[p].id);
                assert(t.bodies@.map_values(|x: TopoBody| x.id)[q] == t.bodies@[q].id);
            }
        }
    }
    r
}

/// Wire a layered pick into a rig whose parameters, bodies and nodes take
/// fresh random version-4 identifiers in creation order: the rig
/// [`layers_wire`] describes for some such list of identifiers. Every member
/// is one segment between two stops; with at least one layer the graph
/// passes every structural check.
pub fn from_layers(layers: &Vec<LayerShape>) -> (r: LayeredRig)
    ensures
        exists|ids: Seq<u128>|
            #![trigger layers_wire(layers@, ids)]
            ids.len() == layers_id_count(layers@)
                && (forall|k: int| 0 <= k < ids.len() ==> #[trigger] ids[k] & v4_mask() == v4_bits())
                && wired(r, layers_wire(layers@, ids)) && r.topology.root == root_id(ids),
        members_plain(r.topology),
        layers@.len() > 0 ==> validation_errors(r.topology, Seq::empty(), Seq::empty()).len() == 0,
{
    let count = layers_id_count_of(layers);
    let ids = draw_ids(count);
    let r = from_layers_with_ids(layers, &ids);
    assert(wired(r, layers_wire(layers@, ids@)));
    r
}

} // verus!
