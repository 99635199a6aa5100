//! Structural checks of a rig graph: dangling references, node placement,
//! the root, and member path shapes.
//!
//! A [`Topology`] holds what these checks read of a rig: identifiers,
//! labels, node roles, which body a node sits on, and each member's path.
use vstd::prelude::*;
use vstd::string::*;
use super::{RigError, RigErrorKind};
use super::component::ComponentTag;
use super::node::{NodeRole, bearing_capable, role_label};
use crate::text::{decimal, push_char, push_decimal, str_eq};

verus! {

/// A node as the structural checks see it.
#[derive(Debug, Clone)]
pub struct TopoNode {
    pub id: u128,
    /// `None` for a free node (master link, knot point).
    pub body: Option<u128>,
    pub role: NodeRole,
    pub label: String,
}

/// A rigid body as the structural checks see it.
#[derive(Debug, Clone)]
pub struct TopoBody {
    pub id: u128,
    pub label: String,
}

/// A member as the structural checks see it.
#[derive(Debug, Clone)]
pub struct TopoMember {
    pub label: String,
    /// Stops from one end to the other; interior stops must be bearings.
    pub path: Vec<u128>,
    /// Hardware of each segment between stops, in order.
    pub segments: Vec<Vec<ComponentTag>>,
    /// Findings of the member's segments (empty segments, adjust settings
    /// out of range), in segment order, as evaluated from the parameters.
    pub segment_issues: Vec<RigError>,
}

/// The graph of a rig: nodes, bodies, members (in document order) and the
/// root node, plus the parameter references of its expressions.
#[derive(Debug, Clone)]
pub struct Topology {
    pub nodes: Vec<TopoNode>,
    pub bodies: Vec<TopoBody>,
    pub members: Vec<TopoMember>,
    pub root: u128,
    /// Identifiers of the parameter table.
    pub param_ids: Vec<u128>,
    /// Parameters referenced by the rig's expressions, expression by
    /// expression, each expression's references in ascending order.
    pub expr_param_refs: Vec<u128>,
}

/// Kinds a segment's evaluation reports: a segment without positive
/// length, an adjust setting out of range, or a failed evaluation.
pub open spec fn segment_kind(k: RigErrorKind) -> bool {
    ||| k == RigErrorKind::EmptySegment
    ||| k == RigErrorKind::AdjustOutOfRange
    ||| k == RigErrorKind::ParamCycle
    ||| k == RigErrorKind::UnknownParam
    ||| k == RigErrorKind::QuantityMismatch
    ||| k == RigErrorKind::BadValue
}

/// Every segment finding of every member is of a kind segment evaluation
/// reports.
pub open spec fn segment_findings_ok(t: Topology) -> bool {
    forall|m: int, j: int|
        #![trigger t.members@[m].segment_issues@[j]]
        0 <= m < t.members@.len() && 0 <= j < t.members@[m].segment_issues@.len()
            ==> segment_kind(t.members@[m].segment_issues@[j].code)
}

/// Identifiers are keys: no two nodes, no two bodies and no two parameters
/// share one; and the segment findings are of segment kinds.
pub open spec fn topology_wf(t: Topology) -> bool {
    &&& forall|i: int, j: int| 0 <= i < t.nodes@.len() && 0 <= j < t.nodes@.len() && i != j ==> t.nodes@[i].id != t.nodes@[j].id
    &&& forall|i: int, j: int| 0 <= i < t.bodies@.len() && 0 <= j < t.bodies@.len() && i != j ==> t.bodies@[i].id != t.bodies@[j].id
    &&& t.param_ids@.no_duplicates()
    &&& segment_findings_ok(t)
}

fn is_segment_kind(k: RigErrorKind) -> (r: bool)
    ensures
        r == segment_kind(k),
{
    match k {
        RigErrorKind::EmptySegment | RigErrorKind::AdjustOutOfRange | RigErrorKind::ParamCycle
        | RigErrorKind::UnknownParam | RigErrorKind::QuantityMismatch | RigErrorKind::BadValue => true,
        _ => false,
    }
}

impl Topology {
    /// The first node labelled `name`.
    pub fn node_named(&self, name: &str) -> (r: Option<&TopoNode>)
        ensures
            match r {
                Some(n) => exists|i: int| 0 <= i < self.nodes@.len() && *n == self.nodes@[i] && n.label@ == name@
                    && forall|j: int| 0 <= j < i ==> (#[trigger] self.nodes@[j]).label@ != name@,
                None => forall|j: int| 0 <= j < self.nodes@.len() ==> (#[trigger] self.nodes@[j]).label@ != name@,
            },
    {
        let mut i: usize = 0;
        while i < self.nodes.len()
            invariant
                i <= self.nodes@.len(),
                forall|j: int| 0 <= j < i ==> (#[trigger] self.nodes@[j]).label@ != name@,
            decreases self.nodes@.len() - i,
        {
            if str_eq(self.nodes[i].label.as_str(), name) {
                return Some(&self.nodes[i]);
            }
            i = i + 1;
        }
        None
    }

    /// The first body labelled `name`.
    pub fn body_named(&self, name: &str) -> (r: Option<&TopoBody>)
        ensures
            match r {
                Some(b) => exists|i: int| 0 <= i < self.bodies@.len() && *b == self.bodies@[i] && b.label@ == name@
                    && forall|j: int| 0 <= j < i ==> (#[trigger] self.bodies@[j]).label@ != name@,
                None => forall|j: int| 0 <= j < self.bodies@.len() ==> (#[trigger] self.bodies@[j]).label@ != name@,
            },
    {
        let mut i: usize = 0;
        while i < self.bodies.len()
            invariant
                i <= self.bodies@.len(),
                forall|j: int| 0 <= j < i ==> (#[trigger] self.bodies@[j]).label@ != name@,
            decreases self.bodies@.len() - i,
        {
            if str_eq(self.bodies[i].label.as_str(), name) {
                return Some(&self.bodies[i]);
            }
            i = i + 1;
        }
        None
    }

    /// Whether every segment finding is of a segment kind.
    fn segment_findings_checked(&self) -> (r: bool)
        ensures
            r == segment_findings_ok(*self),
    {
        let mut m: usize = 0;
        while m < self.members.len()
            invariant
                m <= self.members@.len(),
                forall|a: int, j: int|
                    #![trigger self.members@[a].segment_issues@[j]]
                    0 <= a < m && 0 <= j < self.members@[a].segment_issues@.len()
                        ==> segment_kind(self.members@[a].segment_issues@[j].code),
            decreases self.members@.len() - m,
        {
            let issues = &self.members[m].segment_issues;
            let mut j: usize = 0;
            while j < issues.len()
                invariant
                    m < self.members@.len(),
                    *issues == self.members@[m as int].segment_issues,
                    j <= issues@.len(),
                    forall|c: int| 0 <= c < j ==> segment_kind(#[trigger] issues@[c].code),
                decreases issues@.len() - j,
            {
                if !is_segment_kind(issues[j].code) {
                    return false;
                }
                j = j + 1;
            }
            m = m + 1;
        }
        true
    }

    /// Whether the graph is well formed, as [`topology_wf`] states.
    pub fn is_well_formed(&self) -> (r: bool)
        ensures
            r == topology_wf(*self),
    {
        let n = self.nodes.len();
        let mut i: usize = 0;
        while i < n
            invariant
                n == self.nodes@.len(),
                i <= n,
                forall|a: int, c: int| 0 <= a < i && 0 <= c < n && a != c ==> self.nodes@[a].id != self.nodes@[c].id,
            decreases n - i,
        {
            let mut j: usize = 0;
            while j < n
                invariant
                    n == self.nodes@.len(),
                    i < n,
                    j <= n,
                    forall|c: int| 0 <= c < j && c != i ==> self.nodes@[i as int].id != self.nodes@[c].id,
                decreases n - j,
            {
                if j != i && self.nodes[i].id == self.nodes[j].id {
                    return false;
                }
                j = j + 1;
            }
            i = i + 1;
        }
        let m = self.bodies.len();
        let mut i: usize = 0;
        while i < m
            invariant
                m == self.bodies@.len(),
                i <= m,
                forall|a: int, c: int| 0 <= a < n && 0 <= c < n && a != c ==> self.nodes@[a].id != self.nodes@[c].id,
                n == self.nodes@.len(),
                forall|a: int, c: int| 0 <= a < i && 0 <= c < m && a != c ==> self.bodies@[a].id != self.bodies@[c].id,
            decreases m - i,
        {
            let mut j: usize = 0;
            while j < m
                invariant
                    m == self.bodies@.len(),
                    i < m,
                    j <= m,
                    forall|c: int| 0 <= c < j && c != i ==> self.bodies@[i as int].id != self.bodies@[c].id,
                decreases m - j,
            {
                if j != i && self.bodies[i].id == self.bodies[j].id {
                    return false;
                }
                j = j + 1;
            }
            i = i + 1;
        }
        let k = self.param_ids.len();
        let mut i: usize = 0;
        while i < k
            invariant
                k == self.param_ids@.len(),
                i <= k,
                forall|a: int, c: int| 0 <= a < n && 0 <= c < n && a != c ==> self.nodes@[a].id != self.nodes@[c].id,
                n == self.nodes@.len(),
                m == self.bodies@.len(),
                forall|a: int, c: int| 0 <= a < m && 0 <= c < m && a != c ==> self.bodies@[a].id != self.bodies@[c].id,
                forall|a: int, c: int| 0 <= a < i && 0 <= c < k && a != c ==> self.param_ids@[a] != self.param_ids@[c],
            decreases k - i,
        {
            let mut j: usize = 0;
            while j < k
                invariant
                    k == self.param_ids@.len(),
                    i < k,
                    j <= k,
                    forall|c: int| 0 <= c < j && c != i ==> self.param_ids@[i as int] != self.param_ids@[c],
                decreases k - j,
            {
                if j != i && self.param_ids[i] == self.param_ids[j] {
                    return false;
                }
                j = j + 1;
            }
            i = i + 1;
        }
        self.segment_findings_checked()
    }
}

/// A finding: its kind and its message.
pub type Issue = (RigErrorKind, Seq<char>);

/// Findings carried by a list of errors.
pub open spec fn issues_of(errs: Seq<RigError>) -> Seq<Issue> {
    errs.map_values(|e: RigError| (e.code, e.message@))
}

/// Concatenation of lists of findings, in order.
pub open spec fn concat(s: Seq<Seq<Issue>>) -> Seq<Issue>
    decreases s.len(),
{
    if s.len() == 0 { Seq::empty() } else { concat(s.drop_last()) + s.last() }
}

/// Lowercase hexadecimal digit.
pub open spec fn hex_char(d: nat) -> char {
    if d < 10 { digit_of(d) } else if d == 10 { 'a' } else if d == 11 { 'b' } else if d == 12 {
        'c'
    } else if d == 13 { 'd' } else if d == 14 { 'e' } else { 'f' }
}

/// Decimal digit (`d < 10`).
pub open spec fn digit_of(d: nat) -> char {
    decimal(d)[0]
}

/// Hyphenated lowercase text of a 128-bit identifier: 32 hex digits, most
/// significant first, with hyphens after the 8th, 12th, 16th and 20th.
pub open spec fn uuid_text_spec(v: u128) -> Seq<char> {
    Seq::new(
        36,
        |i: int|
            if i == 8 || i == 13 || i == 18 || i == 23 {
                '-'
            } else {
                let k = if i < 8 { i } else if i < 13 { i - 1 } else if i < 18 { i - 2 } else if i
                    < 23 { i - 3 } else { i - 4 };
                hex_char(((v as nat) / pow16((31 - k) as nat)) % 16)
            },
    )
}

/// `16^e`.
pub open spec fn pow16(e: nat) -> nat
    decreases e,
{
    if e == 0 { 1 } else { 16 * pow16((e - 1) as nat) }
}

/// Text of an identifier (`uuid::Uuid::from_u128(v).to_string()`): the
/// hyphenated lowercase form.
#[verifier::external_body]
fn uuid_text(v: u128) -> (s: String)
    ensures
        s@ == uuid_text_spec(v),
{
    uuid::Uuid::from_u128(v).to_string()
}

/// `kind:uuid`, the way typed identifiers print.
pub open spec fn id_text(kind: Seq<char>, v: u128) -> Seq<char> {
    kind + ":"@ + uuid_text_spec(v)
}

pub(crate) fn push_id(s: &mut String, kind: &str, v: u128)
    ensures
        final(s)@ == old(s)@ + id_text(kind@, v),
{
    s.append(kind);
    s.append(":");
    let t = uuid_text(v);
    s.append(t.as_str());
    assert(old(s)@ + kind@ + ":"@ + uuid_text_spec(v) =~= old(s)@ + id_text(kind@, v));
}

/// `a` + quoted `label` + `b`, e.g. `node 'hook' needs a body`.
pub open spec fn quoted(a: Seq<char>, label: Seq<char>, b: Seq<char>) -> Seq<char> {
    a + "'"@ + label + "'"@ + b
}

pub(crate) fn quoted_string(a: &str, label: &String, b: &str) -> (s: String)
    ensures
        s@ == quoted(a@, label@, b@),
{
    let mut s = String::from_str(a);
    s.append("'");
    s.append(label.as_str());
    s.append("'");
    s.append(b);
    s
}

/// Position of the first node with identifier `id` at or after `i`, or -1.
pub open spec fn node_pos(nodes: Seq<TopoNode>, id: u128, i: int) -> int
    decreases nodes.len() - i,
{
    if i < 0 || i >= nodes.len() {
        -1
    } else if nodes[i].id == id {
        i
    } else {
        node_pos(nodes, id, i + 1)
    }
}

/// Whether some node has identifier `id`.
pub open spec fn has_node(t: Topology, id: u128) -> bool {
    node_pos(t.nodes@, id, 0) >= 0
}

/// The (first) node with identifier `id`; meaningful when `has_node`.
pub open spec fn node_of(t: Topology, id: u128) -> TopoNode {
    t.nodes@[node_pos(t.nodes@, id, 0)]
}

/// A found position holds the identifier looked for.
pub proof fn lemma_node_pos(nodes: Seq<TopoNode>, id: u128, i: int)
    requires
        0 <= i,
    ensures
        node_pos(nodes, id, i) >= 0 ==> i <= node_pos(nodes, id, i) < nodes.len()
            && nodes[node_pos(nodes, id, i)].id == id,
        node_pos(nodes, id, i) < 0 ==> forall|j: int| i <= j < nodes.len() ==> nodes[j].id != id,
    decreases nodes.len() - i,
{
    if i < nodes.len() && nodes[i].id != id {
        lemma_node_pos(nodes, id, i + 1);
    }
}

/// Whether some body has identifier `id`.
pub open spec fn has_body(t: Topology, id: u128) -> bool {
    exists|i: int| 0 <= i < t.bodies@.len() && #[trigger] t.bodies@[i].id == id
}

/// Whether some parameter has identifier `id`.
pub open spec fn has_param(t: Topology, id: u128) -> bool {
    t.param_ids@.contains(id)
}

pub(crate) fn node_index(t: &Topology, id: u128) -> (r: Option<usize>)
    ensures
        match r {
            Some(i) => i < t.nodes@.len() && i == node_pos(t.nodes@, id, 0) && t.nodes@[i as int].id
                == id,
            None => node_pos(t.nodes@, id, 0) < 0,
        },
{
    let mut i: usize = 0;
    while i < t.nodes.len()
        invariant
            i <= t.nodes@.len(),
            node_pos(t.nodes@, id, 0) == node_pos(t.nodes@, id, i as int),
        decreases t.nodes@.len() - i,
    {
        if t.nodes[i].id == id {
            return Some(i);
        }
        i = i + 1;
    }
    None
}

fn body_exists(t: &Topology, id: u128) -> (r: bool)
    ensures
        r == has_body(*t, id),
{
    let mut i: usize = 0;
    while i < t.bodies.len()
        invariant
            i <= t.bodies@.len(),
            forall|j: int| 0 <= j < i ==> t.bodies@[j].id != id,
        decreases t.bodies@.len() - i,
    {
        if t.bodies[i].id == id {
            return true;
        }
        i = i + 1;
    }
    false
}

fn param_exists(t: &Topology, id: u128) -> (r: bool)
    ensures
        r == has_param(*t, id),
{
    let mut i: usize = 0;
    while i < t.param_ids.len()
        invariant
            i <= t.param_ids@.len(),
            forall|j: int| 0 <= j < i ==> t.param_ids@[j] != id,
        decreases t.param_ids@.len() - i,
    {
        if t.param_ids[i] == id {
            return true;
        }
        i = i + 1;
    }
    false
}

pub(crate) fn push_issue(errs: &mut Vec<RigError>, code: RigErrorKind, message: String)
    ensures
        issues_of(final(errs)@) == issues_of(old(errs)@).push((code, message@)),
{
    errs.push(RigError::new(code, message));
    assert(issues_of(final(errs)@) =~= issues_of(old(errs)@).push((code, message@)));
}

// ---------------------------------------------------------------------
// Dangling references
// ---------------------------------------------------------------------

/// Finding for a root that is not a node.
pub open spec fn root_dangling_issue(t: Topology) -> Seq<Issue> {
    if has_node(t, t.root) {
        Seq::empty()
    } else {
        seq![(RigErrorKind::DanglingRef, "root "@ + id_text("node"@, t.root) + " is not a node in this rig"@)]
    }
}

/// Finding for a node whose body is missing.
pub open spec fn node_body_issue(t: Topology, n: TopoNode) -> Seq<Issue> {
    match n.body {
        Some(b) => if has_body(t, b) {
            Seq::empty()
        } else {
            seq![(RigErrorKind::DanglingRef, quoted("node "@, n.label@, " references missing body "@) + id_text("body"@, b))]
        },
        None => Seq::empty(),
    }
}

/// Finding for one stop of a member's path that is not a node.
pub open spec fn path_stop_issue(t: Topology, m: TopoMember, id: u128) -> Seq<Issue> {
    if has_node(t, id) {
        Seq::empty()
    } else {
        seq![(RigErrorKind::DanglingRef, quoted("member "@, m.label@, " references missing node "@) + id_text("node"@, id))]
    }
}

/// Findings for every stop of a member's path.
pub open spec fn member_path_issues(t: Topology, m: TopoMember) -> Seq<Issue> {
    concat(m.path@.map_values(|id: u128| path_stop_issue(t, m, id)))
}

/// Finding for one parameter reference that is not in the table.
pub open spec fn param_ref_issue(t: Topology, id: u128) -> Seq<Issue> {
    if has_param(t, id) {
        Seq::empty()
    } else {
        seq![(RigErrorKind::DanglingRef, "expression references missing parameter "@ + id_text("param"@, id))]
    }
}

/// All dangling-reference findings, in check order: the root, node bodies,
/// member stops, then expression parameters.
pub open spec fn dangling_issues(t: Topology) -> Seq<Issue> {
    root_dangling_issue(t) + concat(t.nodes@.map_values(|n: TopoNode| node_body_issue(t, n)))
        + concat(t.members@.map_values(|m: TopoMember| member_path_issues(t, m)))
        + concat(t.expr_param_refs@.map_values(|id: u128| param_ref_issue(t, id)))
}

proof fn lemma_concat_push(s: Seq<Seq<Issue>>, x: Seq<Issue>)
    ensures
        concat(s.push(x)) == concat(s) + x,
{
    assert(s.push(x).drop_last() =~= s);
}

/// Every finding of a part is a finding of the concatenation.
pub(crate) proof fn lemma_concat_contains(s: Seq<Seq<Issue>>, k: int, x: Issue)
    requires
        0 <= k < s.len(),
        s[k].contains(x),
    ensures
        concat(s).contains(x),
    decreases s.len(),
{
    let a = concat(s.drop_last());
    let b = s.last();
    assert(concat(s) == a + b);
    if k == s.len() - 1 {
        let i = choose|i: int| 0 <= i < b.len() && b[i] == x;
        assert((a + b)[a.len() + i] == x);
    } else {
        assert(s.drop_last()[k] == s[k]);
        lemma_concat_contains(s.drop_last(), k, x);
        let i = choose|i: int| 0 <= i < a.len() && a[i] == x;
        assert((a + b)[i] == x);
    }
}

/// Message of a member ending on a bearing it is not choked back to.
pub open spec fn bad_end_message(member: Seq<char>, end: Seq<char>, role: Seq<char>) -> Seq<char> {
    "member "@ + "'"@ + member + "'"@ + ": end "@ + "'"@ + end + "'"@ + " is "@ + role
        + " (only a self-choker may end on a bearing)"@
}

/// Both ends of a member are checked alike: a resolved, well-shaped
/// member whose last stop is a bow or an edge, and that is not a loop
/// choked back on that same bearing, is reported as ending on a bearing,
/// naming its last stop; the same holds of its first stop.
pub proof fn lemma_bearing_ends_reported(t: Topology, m: TopoMember)
    requires
        m.path@.len() >= 2,
        m.segments@.len() == m.path@.len() - 1,
        forall|k: int| 0 <= k < m.path@.len() ==> has_node(t, #[trigger] m.path@[k]),
    ensures
        ({
            let first = node_of(t, m.path@[0]);
            let last = node_of(t, m.path@[m.path@.len() - 1]);
            let choker = first.id == last.id && (first.role == NodeRole::Bow || first.role == NodeRole::Edge);
            &&& (last.role == NodeRole::Bow || last.role == NodeRole::Edge) && !choker ==> member_issues(t, m).contains(
                (RigErrorKind::BadEnd, bad_end_message(m.label@, last.label@, role_label(last.role))))
            &&& (first.role == NodeRole::Bow || first.role == NodeRole::Edge) && !choker ==> member_issues(t, m).contains(
                (RigErrorKind::BadEnd, bad_end_message(m.label@, first.label@, role_label(first.role))))
        }),
{
    reveal_strlit("");
    let n = m.path@.len();
    let first = node_of(t, m.path@[0]);
    let last = node_of(t, m.path@[n - 1]);
    let lc = first.id == last.id && bearing_capable(first.role);
    let inner = concat(m.path@.subrange(1, n - 1).map_values(|id: u128| interior_issue(t, m, id)));
    let e1 = end_issue(m, first, lc);
    let e2 = end_issue(m, last, lc);
    let segs = issues_of(m.segment_issues@);
    assert(path_shape_ok(m) && path_resolves(t, m));
    assert(member_issues(t, m) == inner + e1 + e2 + segs);
    if bearing_capable(last.role) && !lc {
        let x = (RigErrorKind::BadEnd, bad_end_message(m.label@, last.label@, role_label(last.role)));
        assert(e2[0].1 =~= x.1);
        assert((inner + e1 + e2 + segs)[(inner.len() + e1.len()) as int] == e2[0]);
    }
    if bearing_capable(first.role) && !lc {
        let x = (RigErrorKind::BadEnd, bad_end_message(m.label@, first.label@, role_label(first.role)));
        assert(e1[0].1 =~= x.1);
        assert((inner + e1 + e2 + segs)[inner.len() as int] == e1[0]);
    }
}

/// A member of the rig that ends on a bearing it is not choked back to
/// fails validation with that finding, whatever else is reported.
pub proof fn lemma_bearing_end_fails(t: Topology, k: int)
    requires
        0 <= k < t.members@.len(),
        t.members@[k].path@.len() >= 2,
        t.members@[k].segments@.len() == t.members@[k].path@.len() - 1,
        forall|j: int| 0 <= j < t.members@[k].path@.len() ==> has_node(t, #[trigger] t.members@[k].path@[j]),
    ensures
        ({
            let m = t.members@[k];
            let first = node_of(t, m.path@[0]);
            let last = node_of(t, m.path@[m.path@.len() - 1]);
            let choker = first.id == last.id && (first.role == NodeRole::Bow || first.role == NodeRole::Edge);
            (last.role == NodeRole::Bow || last.role == NodeRole::Edge) && !choker ==> members_issues(t).contains(
                (RigErrorKind::BadEnd, bad_end_message(m.label@, last.label@, role_label(last.role))))
        }),
{
    let m = t.members@[k];
    lemma_bearing_ends_reported(t, m);
    let s = t.members@.map_values(|x: TopoMember| member_issues(t, x));
    let first = node_of(t, m.path@[0]);
    let last = node_of(t, m.path@[m.path@.len() - 1]);
    let choker = first.id == last.id && (first.role == NodeRole::Bow || first.role == NodeRole::Edge);
    if (last.role == NodeRole::Bow || last.role == NodeRole::Edge) && !choker {
        assert(s[k] == member_issues(t, m));
        lemma_concat_contains(s, k, (RigErrorKind::BadEnd, bad_end_message(m.label@, last.label@, role_label(last.role))));
    }
}

pub(crate) proof fn lemma_concat_take<A>(s: Seq<A>, f: spec_fn(A) -> Seq<Issue>, i: int)
    requires
        0 <= i < s.len(),
    ensures
        concat(s.take(i + 1).map_values(f)) == concat(s.take(i).map_values(f)) + f(s[i]),
{
    assert(s.take(i + 1).map_values(f) =~= s.take(i).map_values(f).push(f(s[i])));
    lemma_concat_push(s.take(i).map_values(f), f(s[i]));
}

pub(crate) fn check_dangling(t: &Topology, errs: &mut Vec<RigError>)
    ensures
        issues_of(final(errs)@) == issues_of(old(errs)@) + dangling_issues(*t),
{
    let ghost start = issues_of(errs@);
    let ghost tv = *t;
    if node_index(t, t.root).is_none() {
        let mut m = String::from_str("root ");
        push_id(&mut m, "node", t.root);
        m.append(" is not a node in this rig");
        push_issue(errs, RigErrorKind::DanglingRef, m);
    }
    assert(issues_of(errs@) =~= start + root_dangling_issue(tv));

    let ghost f1 = |n: TopoNode| node_body_issue(tv, n);
    let ghost before1 = issues_of(errs@);
    let mut i: usize = 0;
    while i < t.nodes.len()
        invariant
            tv == *t,
            i <= t.nodes@.len(),
            f1 == (|n: TopoNode| node_body_issue(tv, n)),
            issues_of(errs@) == before1 + concat(t.nodes@.take(i as int).map_values(f1)),
        decreases t.nodes@.len() - i,
    {
        proof {
            lemma_concat_take(t.nodes@, f1, i as int);
        }
        let node = &t.nodes[i];
        match node.body {
            Some(b) => {
                if !body_exists(t, b) {
                    let mut m = quoted_string("node ", &node.label, " references missing body ");
                    push_id(&mut m, "body", b);
                    push_issue(errs, RigErrorKind::DanglingRef, m);
                }
            },
            None => {},
        }
        assert(issues_of(errs@) =~= before1 + concat(t.nodes@.take(i + 1).map_values(f1)));
        i = i + 1;
    }
    assert(t.nodes@.take(t.nodes@.len() as int) =~= t.nodes@);

    let ghost f2 = |m: TopoMember| member_path_issues(tv, m);
    let ghost before2 = issues_of(errs@);
    let mut k: usize = 0;
    while k < t.members.len()
        invariant
            tv == *t,
            k <= t.members@.len(),
            f2 == (|m: TopoMember| member_path_issues(tv, m)),
            issues_of(errs@) == before2 + concat(t.members@.take(k as int).map_values(f2)),
        decreases t.members@.len() - k,
    {
        proof {
            lemma_concat_take(t.members@, f2, k as int);
        }
        let member = &t.members[k];
        let ghost mv = *member;
        let ghost f3 = |id: u128| path_stop_issue(tv, mv, id);
        let ghost before3 = issues_of(errs@);
        let mut p: usize = 0;
        while p < member.path.len()
            invariant
                tv == *t,
                mv == *member,
                p <= member.path@.len(),
                f3 == (|id: u128| path_stop_issue(tv, mv, id)),
                issues_of(errs@) == before3 + concat(member.path@.take(p as int).map_values(f3)),
            decreases member.path@.len() - p,
        {
            proof {
                lemma_concat_take(member.path@, f3, p as int);
            }
            let nid = member.path[p];
            if node_index(t, nid).is_none() {
                let mut m = quoted_string("member ", &member.label, " references missing node ");
                push_id(&mut m, "node", nid);
                push_issue(errs, RigErrorKind::DanglingRef, m);
            }
            assert(issues_of(errs@) =~= before3 + concat(member.path@.take(p + 1).map_values(f3)));
            p = p + 1;
        }
        assert(member.path@.take(member.path@.len() as int) =~= member.path@);
        assert(issues_of(errs@) =~= before2 + concat(t.members@.take(k + 1).map_values(f2)));
        k = k + 1;
    }
    assert(t.members@.take(t.members@.len() as int) =~= t.members@);

    let ghost f4 = |id: u128| param_ref_issue(tv, id);
    let ghost before4 = issues_of(errs@);
    let mut r: usize = 0;
    while r < t.expr_param_refs.len()
        invariant
            tv == *t,
            r <= t.expr_param_refs@.len(),
            f4 == (|id: u128| param_ref_issue(tv, id)),
            issues_of(errs@) == before4 + concat(t.expr_param_refs@.take(r as int).map_values(f4)),
        decreases t.expr_param_refs@.len() - r,
    {
        proof {
            lemma_concat_take(t.expr_param_refs@, f4, r as int);
        }
        let pid = t.expr_param_refs[r];
        if !param_exists(t, pid) {
            let mut m = String::from_str("expression references missing parameter ");
            push_id(&mut m, "param", pid);
            push_issue(errs, RigErrorKind::DanglingRef, m);
        }
        assert(issues_of(errs@) =~= before4 + concat(t.expr_param_refs@.take(r + 1).map_values(f4)));
        r = r + 1;
    }
    assert(t.expr_param_refs@.take(t.expr_param_refs@.len() as int) =~= t.expr_param_refs@);
    assert(issues_of(errs@) =~= start + dangling_issues(tv));
}

// ---------------------------------------------------------------------
// Node placement and the root
// ---------------------------------------------------------------------

/// Placement finding for one node: free nodes carry no body, every other
/// node sits on one, and the root sits on the hook.
pub open spec fn placement_issue(n: TopoNode) -> Seq<Issue> {
    if n.role == NodeRole::Free && n.body is Some {
        seq![(RigErrorKind::NodePlacement, quoted("free node "@, n.label@, " must not have a body"@))]
    } else if n.body is None && n.role != NodeRole::Free && n.role != NodeRole::Root {
        seq![(RigErrorKind::NodePlacement, quoted("node "@, n.label@, " ("@) + role_label(n.role) + ") needs a body"@)]
    } else if n.body is None && n.role == NodeRole::Root {
        seq![(RigErrorKind::NodePlacement, quoted("root node "@, n.label@, " needs a hook body"@))]
    } else {
        Seq::empty()
    }
}

/// Placement findings for all nodes, in node order.
pub open spec fn placement_issues(t: Topology) -> Seq<Issue> {
    concat(t.nodes@.map_values(|n: TopoNode| placement_issue(n)))
}

pub(crate) fn check_nodes(t: &Topology, errs: &mut Vec<RigError>)
    ensures
        issues_of(final(errs)@) == issues_of(old(errs)@) + placement_issues(*t),
{
    let ghost f = |n: TopoNode| placement_issue(n);
    let ghost before = issues_of(errs@);
    let mut i: usize = 0;
    while i < t.nodes.len()
        invariant
            i <= t.nodes@.len(),
            f == (|n: TopoNode| placement_issue(n)),
            issues_of(errs@) == before + concat(t.nodes@.take(i as int).map_values(f)),
        decreases t.nodes@.len() - i,
    {
        proof {
            lemma_concat_take(t.nodes@, f, i as int);
        }
        let node = &t.nodes[i];
        if node.role.is_free() && node.body.is_some() {
            let m = quoted_string("free node ", &node.label, " must not have a body");
            push_issue(errs, RigErrorKind::NodePlacement, m);
        } else if node.body.is_none() && !node.role.is_free() && !node.role.is_root() {
            let mut m = quoted_string("node ", &node.label, " (");
            m.append(node.role.label());
            m.append(") needs a body");
            push_issue(errs, RigErrorKind::NodePlacement, m);
        } else if node.body.is_none() && node.role.is_root() {
            let m = quoted_string("root node ", &node.label, " needs a hook body");
            push_issue(errs, RigErrorKind::NodePlacement, m);
        }
        assert(issues_of(errs@) =~= before + concat(t.nodes@.take(i + 1).map_values(f)));
        i = i + 1;
    }
    assert(t.nodes@.take(t.nodes@.len() as int) =~= t.nodes@);
}

/// The root nodes, in node order.
pub open spec fn root_nodes(t: Topology) -> Seq<TopoNode> {
    t.nodes@.filter(|n: TopoNode| n.role == NodeRole::Root)
}

/// Root findings: exactly one Root node, and it is the rig's root.
pub open spec fn root_issues(t: Topology) -> Seq<Issue> {
    let roots = root_nodes(t);
    if roots.len() != 1 {
        seq![(RigErrorKind::RootCount, "expected exactly one Root node, found "@ + decimal(roots.len()))]
    } else if roots[0].id != t.root {
        seq![(RigErrorKind::RootCount, "Rig::root is "@ + id_text("node"@, t.root) + " but the Root node is "@ + id_text("node"@, roots[0].id))]
    } else {
        Seq::empty()
    }
}

pub(crate) fn check_root(t: &Topology, errs: &mut Vec<RigError>)
    ensures
        issues_of(final(errs)@) == issues_of(old(errs)@) + root_issues(*t),
{
    let ghost pred = |n: TopoNode| n.role == NodeRole::Root;
    let mut count: usize = 0;
    let mut first: u128 = 0;
    let mut i: usize = 0;
    while i < t.nodes.len()
        invariant
            i <= t.nodes@.len(),
            pred == (|n: TopoNode| n.role == NodeRole::Root),
            count == t.nodes@.take(i as int).filter(pred).len(),
            count > 0 ==> first == t.nodes@.take(i as int).filter(pred)[0].id,
        decreases t.nodes@.len() - i,
    {
        proof {
            assert(t.nodes@.take(i + 1).drop_last() =~= t.nodes@.take(i as int));
            reveal_with_fuel(Seq::filter, 1);
            if count > 0 {
                t.nodes@.take(i + 1).filter_lemma(pred);
                t.nodes@.take(i as int).filter_lemma(pred);
            }
        }
        if t.nodes[i].role.is_root() {
            if count == 0 {
                first = t.nodes[i].id;
            }
            count = count + 1;
        }
        proof {
            if count > 0 {
                assert(t.nodes@.take(i + 1).filter(pred) =~= if pred(t.nodes@[i as int]) {
                    t.nodes@.take(i as int).filter(pred).push(t.nodes@[i as int])
                } else {
                    t.nodes@.take(i as int).filter(pred)
                });
            }
        }
        i = i + 1;
    }
    assert(t.nodes@.take(t.nodes@.len() as int) =~= t.nodes@);
    if count != 1 {
        let mut m = String::from_str("expected exactly one Root node, found ");
        push_decimal(&mut m, count as u64);
        push_issue(errs, RigErrorKind::RootCount, m);
    } else if first != t.root {
        let mut m = String::from_str("Rig::root is ");
        push_id(&mut m, "node", t.root);
        m.append(" but the Root node is ");
        push_id(&mut m, "node", first);
        push_issue(errs, RigErrorKind::RootCount, m);
    }
}

// ---------------------------------------------------------------------
// Member paths
// ---------------------------------------------------------------------

/// The path has at least two stops and one segment between each pair.
pub open spec fn path_shape_ok(m: TopoMember) -> bool {
    m.path@.len() >= 2 && m.segments@.len() == m.path@.len() - 1
}

/// Every stop of the path is a node of the rig.
pub open spec fn path_resolves(t: Topology, m: TopoMember) -> bool {
    forall|k: int| 0 <= k < m.path@.len() ==> has_node(t, #[trigger] m.path@[k])
}

/// Finding for an interior stop that is not a bow or an edge.
pub open spec fn interior_issue(t: Topology, m: TopoMember, id: u128) -> Seq<Issue> {
    let n = node_of(t, id);
    if bearing_capable(n.role) {
        Seq::empty()
    } else {
        seq![(RigErrorKind::NotBearingCapable, quoted("member "@, m.label@, ": interior stop "@) + quoted(""@, n.label@, " is not Bow/Edge"@))]
    }
}

/// Finding for an end that sits on a bearing, which only a self-choker may.
pub open spec fn end_issue(m: TopoMember, end: TopoNode, loop_choker: bool) -> Seq<Issue> {
    if bearing_capable(end.role) && !loop_choker {
        seq![(RigErrorKind::BadEnd, quoted("member "@, m.label@, ": end "@) + quoted(""@, end.label@, " is "@) + role_label(end.role) + " (only a self-choker may end on a bearing)"@)]
    } else {
        Seq::empty()
    }
}

/// Error findings of one member, segment findings included.
pub open spec fn member_issues(t: Topology, m: TopoMember) -> Seq<Issue> {
    let n = m.path@.len();
    if !path_shape_ok(m) {
        seq![(RigErrorKind::PathShape, quoted("member "@, m.label@, ": path len "@) + decimal(n) + " with "@ + decimal(m.segments@.len()) + " segments"@)]
    } else if !path_resolves(t, m) {
        Seq::empty()
    } else {
        let first = node_of(t, m.path@[0]);
        let last = node_of(t, m.path@[n - 1]);
        let loop_choker = first.id == last.id && bearing_capable(first.role);
        concat(m.path@.subrange(1, n - 1).map_values(|id: u128| interior_issue(t, m, id)))
            + end_issue(m, first, loop_choker) + end_issue(m, last, loop_choker)
            + issues_of(m.segment_issues@)
    }
}

/// Warning findings of one member: both ends on the same body.
pub open spec fn member_warnings(t: Topology, m: TopoMember) -> Seq<Issue> {
    let n = m.path@.len();
    if !path_shape_ok(m) || !path_resolves(t, m) {
        Seq::empty()
    } else {
        let first = node_of(t, m.path@[0]);
        let last = node_of(t, m.path@[n - 1]);
        if first.body is Some && first.body == last.body && first.id != last.id {
            seq![(RigErrorKind::SelfMember, quoted("member "@, m.label@, " has both ends on the same body (allowed for a choker)"@))]
        } else {
            Seq::empty()
        }
    }
}

/// Member error findings, member by member.
pub open spec fn members_issues(t: Topology) -> Seq<Issue> {
    concat(t.members@.map_values(|m: TopoMember| member_issues(t, m)))
}

/// Member warning findings, member by member.
pub open spec fn members_warnings(t: Topology) -> Seq<Issue> {
    concat(t.members@.map_values(|m: TopoMember| member_warnings(t, m)))
}

pub(crate) fn push_all(errs: &mut Vec<RigError>, more: &Vec<RigError>)
    ensures
        issues_of(final(errs)@) == issues_of(old(errs)@) + issues_of(more@),
{
    let mut i: usize = 0;
    while i < more.len()
        invariant
            i <= more@.len(),
            issues_of(errs@) == issues_of(old(errs)@) + issues_of(more@.take(i as int)),
        decreases more@.len() - i,
    {
        let code = more[i].code;
        let message = more[i].message.clone();
        push_issue(errs, code, message);
        assert(issues_of(more@.take(i + 1)) =~= issues_of(more@.take(i as int)).push(
            (more@[i as int].code, more@[i as int].message@),
        ));
        assert(issues_of(errs@) =~= issues_of(old(errs)@) + issues_of(more@.take(i + 1)));
        i = i + 1;
    }
    assert(more@.take(more@.len() as int) =~= more@);
}

fn check_member(t: &Topology, m: &TopoMember, errs: &mut Vec<RigError>, warns: &mut Vec<RigError>)
    ensures
        issues_of(final(errs)@) == issues_of(old(errs)@) + member_issues(*t, *m),
        issues_of(final(warns)@) == issues_of(old(warns)@) + member_warnings(*t, *m),
{
    let n = m.path.len();
    let segs = m.segments.len();
    if n < 2 || segs != n - 1 {
        let mut msg = quoted_string("member ", &m.label, ": path len ");
        push_decimal(&mut msg, n as u64);
        msg.append(" with ");
        push_decimal(&mut msg, segs as u64);
        msg.append(" segments");
        push_issue(errs, RigErrorKind::PathShape, msg);
        return;
    }
    // Resolve every stop; a dangling stop was already reported.
    let mut stops: Vec<usize> = Vec::new();
    let mut k: usize = 0;
    while k < n
        invariant
            n == m.path@.len(),
            n >= 2,
            m.segments@.len() == n - 1,
            errs@ == old(errs)@,
            warns@ == old(warns)@,
            k <= n,
            stops@.len() == k,
            forall|j: int| 0 <= j < k ==> has_node(*t, #[trigger] m.path@[j]) && stops@[j]
                == node_pos(t.nodes@, m.path@[j], 0),
            forall|j: int| 0 <= j < k ==> #[trigger] stops@[j] < t.nodes@.len(),
        decreases n - k,
    {
        match node_index(t, m.path[k]) {
            Some(i) => stops.push(i),
            None => {
                assert(!has_node(*t, m.path@[k as int]));
                assert(!path_resolves(*t, *m));
                assert(path_shape_ok(*m));
                assert(member_issues(*t, *m) =~= Seq::<Issue>::empty());
                assert(member_warnings(*t, *m) =~= Seq::<Issue>::empty());
                assert(issues_of(errs@) =~= issues_of(errs@) + member_issues(*t, *m));
                assert(issues_of(warns@) =~= issues_of(warns@) + member_warnings(*t, *m));
                return;
            },
        }
        k = k + 1;
    }
    assert(path_resolves(*t, *m));

    let ghost tv = *t;
    let ghost mv = *m;
    let ghost f = |id: u128| interior_issue(tv, mv, id);
    let ghost inner = m.path@.subrange(1, n - 1);
    let ghost before = issues_of(errs@);
    let mut i: usize = 1;
    while i + 1 < n
        invariant
            tv == *t,
            mv == *m,
            n == m.path@.len(),
            n >= 2,
            1 <= i <= n - 1,
            stops@.len() == n,
            forall|j: int| 0 <= j < n ==> stops@[j] == node_pos(t.nodes@, m.path@[j], 0),
            forall|j: int| 0 <= j < n ==> #[trigger] stops@[j] < t.nodes@.len(),
            inner == m.path@.subrange(1, n - 1),
            f == (|id: u128| interior_issue(tv, mv, id)),
            issues_of(errs@) == before + concat(inner.take(i - 1).map_values(f)),
        decreases n - i,
    {
        proof {
            lemma_concat_take(inner, f, i - 1);
        }
        let node = &t.nodes[stops[i]];
        if !node.role.is_bearing_capable() {
            let mut msg = quoted_string("member ", &m.label, ": interior stop ");
            let rest = quoted_string("", &node.label, " is not Bow/Edge");
            msg.append(rest.as_str());
            push_issue(errs, RigErrorKind::NotBearingCapable, msg);
        }
        assert(issues_of(errs@) =~= before + concat(inner.take(i as int).map_values(f)));
        i = i + 1;
    }
    assert(inner.take(n - 2) =~= inner);

    let first = &t.nodes[stops[0]];
    let last = &t.nodes[stops[n - 1]];
    let loop_choker = first.id == last.id && first.role.is_bearing_capable();
    let ghost mid = issues_of(errs@);
    if first.role.is_bearing_capable() && !loop_choker {
        let mut msg = quoted_string("member ", &m.label, ": end ");
        let rest = quoted_string("", &first.label, " is ");
        msg.append(rest.as_str());
        msg.append(first.role.label());
        msg.append(" (only a self-choker may end on a bearing)");
        push_issue(errs, RigErrorKind::BadEnd, msg);
    }
    if last.role.is_bearing_capable() && !loop_choker {
        let mut msg = quoted_string("member ", &m.label, ": end ");
        let rest = quoted_string("", &last.label, " is ");
        msg.append(rest.as_str());
        msg.append(last.role.label());
        msg.append(" (only a self-choker may end on a bearing)");
        push_issue(errs, RigErrorKind::BadEnd, msg);
    }
    assert(issues_of(errs@) =~= mid + end_issue(*m, *first, loop_choker) + end_issue(
        *m,
        *last,
        loop_choker,
    ));

    if first.body.is_some() && first.body == last.body && first.id != last.id {
        let msg = quoted_string("member ", &m.label, " has both ends on the same body (allowed for a choker)");
        push_issue(warns, RigErrorKind::SelfMember, msg);
    }
    assert(issues_of(warns@) =~= issues_of(old(warns)@) + member_warnings(*t, *m));
    push_all(errs, &m.segment_issues);
    assert(issues_of(errs@) =~= issues_of(old(errs)@) + member_issues(*t, *m));
}

pub(crate) fn check_members(t: &Topology, errs: &mut Vec<RigError>, warns: &mut Vec<RigError>)
    ensures
        issues_of(final(errs)@) == issues_of(old(errs)@) + members_issues(*t),
        issues_of(final(warns)@) == issues_of(old(warns)@) + members_warnings(*t),
{
    let ghost tv = *t;
    let ghost fe = |m: TopoMember| member_issues(tv, m);
    let ghost fw = |m: TopoMember| member_warnings(tv, m);
    let ghost e0 = issues_of(errs@);
    let ghost w0 = issues_of(warns@);
    let mut k: usize = 0;
    while k < t.members.len()
        invariant
            tv == *t,
            k <= t.members@.len(),
            fe == (|m: TopoMember| member_issues(tv, m)),
            fw == (|m: TopoMember| member_warnings(tv, m)),
            issues_of(errs@) == e0 + concat(t.members@.take(k as int).map_values(fe)),
            issues_of(warns@) == w0 + concat(t.members@.take(k as int).map_values(fw)),
        decreases t.members@.len() - k,
    {
        proof {
            lemma_concat_take(t.members@, fe, k as int);
            lemma_concat_take(t.members@, fw, k as int);
        }
        check_member(t, &t.members[k], errs, warns);
        assert(issues_of(errs@) =~= e0 + concat(t.members@.take(k + 1).map_values(fe)));
        assert(issues_of(warns@) =~= w0 + concat(t.members@.take(k + 1).map_values(fw)));
        k = k + 1;
    }
    assert(t.members@.take(t.members@.len() as int) =~= t.members@);
}

} // verus!
