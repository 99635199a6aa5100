//! Full structural validation of a rig graph, in the order the findings
//! are reported.
use vstd::prelude::*;
use vstd::string::*;
use super::{RigError, RigErrorKind, ValidationReport};
use super::connect::{check_connectivity, connectivity_issues};
use super::param_graph::{
    ParamDeps, acyclic, all_known, check_param_table, dependency_issues, name_taken, param_entry_issues,
    param_table_issues, lemma_repeated_names_reported,
};
use crate::text::str_eq;
use super::topology::{
    Issue, TopoBody, TopoMember, TopoNode, Topology, check_dangling, check_members, check_nodes, check_root,
    dangling_issues, concat, issues_of, members_issues, members_warnings, placement_issues, push_all, root_issues,
    topology_wf, segment_findings_ok, member_issues, member_warnings, node_body_issue, member_path_issues,
    path_stop_issue, param_ref_issue, placement_issue, interior_issue, path_shape_ok, path_resolves, node_of,
    end_issue, root_dangling_issue, has_node, segment_kind, quoted, bad_end_message, lemma_bearing_ends_reported,
    lemma_concat_contains,
};
use super::node::{NodeRole, role_label};
use super::node::bearing_capable;
use super::connect::{disconnected_issue, unsupported_issue};

verus! {

/// All error findings of a rig, in report order: dangling references,
/// parameter findings, node placement, the root, members (with their
/// segment findings), connectivity, then value findings.
pub open spec fn validation_errors(t: Topology, params: Seq<Issue>, values: Seq<Issue>) -> Seq<Issue> {
    dangling_issues(t) + params + placement_issues(t) + root_issues(t) + members_issues(t)
        + connectivity_issues(t) + values
}

/// No finding in `s` is a self-member warning.
pub open spec fn no_self_member(s: Seq<Issue>) -> bool {
    forall|j: int| 0 <= j < s.len() ==> (#[trigger] s[j]).0 != RigErrorKind::SelfMember
}

/// Every finding in `s` is a self-member warning.
pub open spec fn only_self_member(s: Seq<Issue>) -> bool {
    forall|j: int| 0 <= j < s.len() ==> (#[trigger] s[j]).0 == RigErrorKind::SelfMember
}

spec fn kinds_ok(s: Seq<Issue>, p: spec_fn(RigErrorKind) -> bool) -> bool {
    forall|j: int| 0 <= j < s.len() ==> p(#[trigger] s[j].0)
}

proof fn lemma_add_kinds(a: Seq<Issue>, b: Seq<Issue>, p: spec_fn(RigErrorKind) -> bool)
    requires
        kinds_ok(a, p),
        kinds_ok(b, p),
    ensures
        kinds_ok(a + b, p),
{
    assert forall|j: int| 0 <= j < (a + b).len() implies p(#[trigger] (a + b)[j].0) by {
        if j < a.len() {
            assert((a + b)[j] == a[j]);
        } else {
            assert((a + b)[j] == b[j - a.len()]);
        }
    }
}

proof fn lemma_concat_all_kinds(s: Seq<Seq<Issue>>, p: spec_fn(RigErrorKind) -> bool)
    requires
        forall|i: int| 0 <= i < s.len() ==> kinds_ok(#[trigger] s[i], p),
    ensures
        kinds_ok(concat(s), p),
    decreases s.len(),
{
    if s.len() > 0 {
        let s0 = s.drop_last();
        assert forall|i: int| 0 <= i < s0.len() implies kinds_ok(#[trigger] s0[i], p) by {
            assert(s0[i] == s[i]);
        }
        lemma_concat_all_kinds(s0, p);
        assert(kinds_ok(s[s.len() - 1], p));
        lemma_add_kinds(concat(s0), s[s.len() - 1], p);
    }
}

proof fn lemma_concat_kinds<A>(s: Seq<A>, f: spec_fn(A) -> Seq<Issue>, p: spec_fn(RigErrorKind) -> bool)
    requires
        forall|i: int| 0 <= i < s.len() ==> kinds_ok(#[trigger] f(s[i]), p),
    ensures
        kinds_ok(concat(s.map_values(f)), p),
{
    let m = s.map_values(f);
    assert forall|i: int| 0 <= i < m.len() implies kinds_ok(#[trigger] m[i], p) by {
        assert(m[i] == f(s[i]));
    }
    lemma_concat_all_kinds(m, p);
}

/// Expression findings kept for a rig are of expression kinds.
proof fn lemma_kept_kinds(prior: Seq<Issue>, more: Seq<Issue>)
    ensures
        no_self_member(kept_expr_issues(prior, more)),
    decreases more.len(),
{
    if more.len() > 0 {
        lemma_kept_kinds(prior, more.drop_last());
        let kept = kept_expr_issues(prior, more.drop_last());
        let e = more.last();
        if expr_kind(e.0) && !(prior + kept).contains(e) {
            let k2 = kept.push(e);
            assert forall|j: int| 0 <= j < k2.len() implies (#[trigger] k2[j]).0 != RigErrorKind::SelfMember by {
                if j < kept.len() {
                    assert(k2[j] == kept[j]);
                }
            }
        }
    }
}

/// A parameter table's entry findings are repeated names and negative
/// tolerances.
proof fn lemma_table_kinds(table: Seq<ParamDeps>)
    ensures
        no_self_member(param_table_issues(table)),
{
    let p = |k: RigErrorKind| k != RigErrorKind::SelfMember;
    let s = Seq::new(table.len(), |k: int| param_entry_issues(table, k));
    assert forall|i: int| 0 <= i < s.len() implies kinds_ok(#[trigger] s[i], p) by {
        let a: Seq<Issue> = if name_taken(table, i) {
            seq![(RigErrorKind::DanglingRef, quoted("duplicate parameter name "@, table[i].name@, ""@))]
        } else {
            Seq::empty()
        };
        let b: Seq<Issue> = if table[i].negative_tolerance {
            seq![(RigErrorKind::BadValue, quoted("parameter "@, table[i].name@, " has negative tolerance"@))]
        } else {
            Seq::empty()
        };
        assert(s[i] == a + b);
        lemma_add_kinds(a, b, p);
    }
    lemma_concat_all_kinds(s, p);
    let c = param_table_issues(table);
    assert forall|j: int| 0 <= j < c.len() implies (#[trigger] c[j]).0 != RigErrorKind::SelfMember by {
        assert(p(c[j].0));
    }
}

proof fn lemma_member_kinds(t: Topology, m: TopoMember)
    requires
        forall|j: int| 0 <= j < m.segment_issues@.len() ==> segment_kind(#[trigger] m.segment_issues@[j].code),
    ensures
        kinds_ok(member_issues(t, m), |k: RigErrorKind| k != RigErrorKind::SelfMember),
{
    let p = |k: RigErrorKind| k != RigErrorKind::SelfMember;
    let n = m.path@.len();
    if path_shape_ok(m) && path_resolves(t, m) {
        let first = node_of(t, m.path@[0]);
        let last = node_of(t, m.path@[n - 1]);
        let lc = first.id == last.id && bearing_capable(first.role);
        let inner = m.path@.subrange(1, n - 1);
        let fi = |id: u128| interior_issue(t, m, id);
        lemma_concat_kinds(inner, fi, p);
        let segs = issues_of(m.segment_issues@);
        assert forall|j: int| 0 <= j < segs.len() implies p(#[trigger] segs[j].0) by {
            assert(segment_kind(m.segment_issues@[j].code));
        }
        lemma_add_kinds(concat(inner.map_values(fi)), end_issue(m, first, lc), p);
        lemma_add_kinds(concat(inner.map_values(fi)) + end_issue(m, first, lc), end_issue(m, last, lc), p);
        lemma_add_kinds(concat(inner.map_values(fi)) + end_issue(m, first, lc) + end_issue(m, last, lc), segs, p);
    }
}

/// With segment findings of segment kinds, the error findings of a rig
/// hold a self-member finding only where the supplied parameter or value
/// findings do: a self-member is reported as a warning, never an error.
pub proof fn lemma_errors_without_self_member(t: Topology, params: Seq<Issue>, values: Seq<Issue>)
    requires
        segment_findings_ok(t),
        no_self_member(params),
        no_self_member(values),
    ensures
        no_self_member(validation_errors(t, params, values)),
{
    let p = |k: RigErrorKind| k != RigErrorKind::SelfMember;
    assert(kinds_ok(params, p));
    assert(kinds_ok(values, p));
    // dangling references
    let f1 = |n: TopoNode| node_body_issue(t, n);
    lemma_concat_kinds(t.nodes@, f1, p);
    let f2 = |m: TopoMember| member_path_issues(t, m);
    assert forall|i: int| 0 <= i < t.members@.len() implies kinds_ok(#[trigger] f2(t.members@[i]), p) by {
        let m = t.members@[i];
        lemma_concat_kinds(m.path@, |id: u128| path_stop_issue(t, m, id), p);
    }
    lemma_concat_kinds(t.members@, f2, p);
    let f3 = |id: u128| param_ref_issue(t, id);
    lemma_concat_kinds(t.expr_param_refs@, f3, p);
    let d0 = root_dangling_issue(t);
    lemma_add_kinds(d0, concat(t.nodes@.map_values(f1)), p);
    lemma_add_kinds(d0 + concat(t.nodes@.map_values(f1)), concat(t.members@.map_values(f2)), p);
    lemma_add_kinds(d0 + concat(t.nodes@.map_values(f1)) + concat(t.members@.map_values(f2)), concat(t.expr_param_refs@.map_values(f3)), p);
    let dang = dangling_issues(t);
    // placement
    lemma_concat_kinds(t.nodes@, |n: TopoNode| placement_issue(n), p);
    // members
    let fm = |m: TopoMember| member_issues(t, m);
    assert forall|i: int| 0 <= i < t.members@.len() implies kinds_ok(#[trigger] fm(t.members@[i]), p) by {
        let m = t.members@[i];
        assert forall|j: int| 0 <= j < m.segment_issues@.len() implies segment_kind(#[trigger] m.segment_issues@[j].code) by {
            assert(segment_kind(t.members@[i].segment_issues@[j].code));
        }
        lemma_member_kinds(t, m);
    }
    lemma_concat_kinds(t.members@, fm, p);
    // connectivity
    lemma_concat_kinds(t.nodes@, |n: TopoNode| disconnected_issue(t, n), p);
    lemma_concat_kinds(t.bodies@, |b: TopoBody| unsupported_issue(t, b), p);
    if has_node(t, t.root) {
        lemma_add_kinds(concat(t.nodes@.map_values(|n: TopoNode| disconnected_issue(t, n))), concat(t.bodies@.map_values(|b: TopoBody| unsupported_issue(t, b))), p);
    }
    let conn = connectivity_issues(t);
    assert(kinds_ok(conn, p));
    let root = root_issues(t);
    assert(kinds_ok(root, p));
    lemma_add_kinds(dang, params, p);
    lemma_add_kinds(dang + params, placement_issues(t), p);
    lemma_add_kinds(dang + params + placement_issues(t), root, p);
    lemma_add_kinds(dang + params + placement_issues(t) + root, members_issues(t), p);
    lemma_add_kinds(dang + params + placement_issues(t) + root + members_issues(t), conn, p);
    lemma_add_kinds(dang + params + placement_issues(t) + root + members_issues(t) + conn, values, p);
    let e = validation_errors(t, params, values);
    assert forall|j: int| 0 <= j < e.len() implies (#[trigger] e[j]).0 != RigErrorKind::SelfMember by {
        assert(p(e[j].0));
    }
}

/// Every warning a rig reports is a self-member finding.
pub proof fn lemma_warnings_only_self_member(t: Topology)
    ensures
        only_self_member(members_warnings(t)),
{
    let p = |k: RigErrorKind| k == RigErrorKind::SelfMember;
    lemma_concat_kinds(t.members@, |m: TopoMember| member_warnings(t, m), p);
    let w = members_warnings(t);
    assert forall|j: int| 0 <= j < w.len() implies (#[trigger] w[j]).0 == RigErrorKind::SelfMember by {
        assert(p(w[j].0));
    }
}

/// A finding of the member checks is among the rig's error findings.
proof fn lemma_member_finding_reported(t: Topology, params: Seq<Issue>, values: Seq<Issue>, x: Issue)
    requires
        members_issues(t).contains(x),
    ensures
        validation_errors(t, params, values).contains(x),
{
    let a = dangling_issues(t) + params + placement_issues(t) + root_issues(t);
    let mi = members_issues(t);
    let rest = connectivity_issues(t) + values;
    let i = choose|i: int| 0 <= i < mi.len() && mi[i] == x;
    assert(validation_errors(t, params, values) =~= a + mi + rest);
    assert((a + mi + rest)[a.len() + i] == x);
}

/// A rig with a member that ends on a bow or an edge, and is not a loop
/// choked back on that same bearing, never validates: the finding names
/// the member and that end, whichever end it is.
pub proof fn lemma_bearing_end_never_validates(t: Topology, k: int, params: Seq<Issue>, values: Seq<Issue>)
    requires
        0 <= k < t.members@.len(),
        t.members@[k].path@.len() >= 2,
        t.members@[k].segments@.len() == t.members@[k].path@.len() - 1,
        forall|j: int| 0 <= j < t.members@[k].path@.len() ==> has_node(t, #[trigger] t.members@[k].path@[j]),
    ensures
        ({
            let m = t.members@[k];
            let first = node_of(t, m.path@[0]);
            let last = node_of(t, m.path@[m.path@.len() - 1]);
            let choker = first.id == last.id && (first.role == NodeRole::Bow || first.role == NodeRole::Edge);
            &&& (last.role == NodeRole::Bow || last.role == NodeRole::Edge) && !choker ==> validation_errors(t, params, values).contains(
                (RigErrorKind::BadEnd, bad_end_message(m.label@, last.label@, role_label(last.role))))
            &&& (first.role == NodeRole::Bow || first.role == NodeRole::Edge) && !choker ==> validation_errors(t, params, values).contains(
                (RigErrorKind::BadEnd, bad_end_message(m.label@, first.label@, role_label(first.role))))
        }),
{
    let m = t.members@[k];
    lemma_bearing_ends_reported(t, m);
    let first = node_of(t, m.path@[0]);
    let last = node_of(t, m.path@[m.path@.len() - 1]);
    let s = t.members@.map_values(|x: TopoMember| member_issues(t, x));
    assert(s[k] == member_issues(t, m));
    let xl = (RigErrorKind::BadEnd, bad_end_message(m.label@, last.label@, role_label(last.role)));
    let xf = (RigErrorKind::BadEnd, bad_end_message(m.label@, first.label@, role_label(first.role)));
    if member_issues(t, m).contains(xl) {
        lemma_concat_contains(s, k, xl);
        lemma_member_finding_reported(t, params, values, xl);
    }
    if member_issues(t, m).contains(xf) {
        lemma_concat_contains(s, k, xf);
        lemma_member_finding_reported(t, params, values, xf);
    }
}

/// Validate the graph. `param_issues` are the findings of the parameter
/// table (duplicate names, negative tolerances, cycles, evaluation
/// failures) and `value_issues` those of evaluated weights and lengths;
/// both are reported at their place among the structural findings.
pub fn validate_full(t: &Topology, param_issues: &Vec<RigError>, value_issues: &Vec<RigError>) -> (r: ValidationReport)
    requires
        topology_wf(*t),
    ensures
        issues_of(r.errors@) == validation_errors(*t, issues_of(param_issues@), issues_of(value_issues@)),
        issues_of(r.warnings@) == members_warnings(*t),
        only_self_member(issues_of(r.warnings@)),
        no_self_member(issues_of(param_issues@)) && no_self_member(issues_of(value_issues@))
            ==> no_self_member(issues_of(r.errors@)),
{
    proof {
        lemma_warnings_only_self_member(*t);
        if no_self_member(issues_of(param_issues@)) && no_self_member(issues_of(value_issues@)) {
            lemma_errors_without_self_member(*t, issues_of(param_issues@), issues_of(value_issues@));
        }
    }
    let mut errors: Vec<RigError> = Vec::new();
    let mut warnings: Vec<RigError> = Vec::new();
    check_dangling(t, &mut errors);
    push_all(&mut errors, param_issues);
    check_nodes(t, &mut errors);
    check_root(t, &mut errors);
    check_members(t, &mut errors, &mut warnings);
    check_connectivity(t, &mut errors);
    push_all(&mut errors, value_issues);
    assert(issues_of(errors@) =~= validation_errors(*t, issues_of(param_issues@), issues_of(value_issues@)));
    assert(issues_of(warnings@) =~= members_warnings(*t));
    ValidationReport { errors, warnings }
}

/// `Ok` when validation finds no error; otherwise every error found.
/// Warnings never block.
pub fn validate(t: &Topology, param_issues: &Vec<RigError>, value_issues: &Vec<RigError>) -> (r: Result<(), Vec<RigError>>)
    requires
        topology_wf(*t),
    ensures
        r is Ok <==> validation_errors(*t, issues_of(param_issues@), issues_of(value_issues@)).len() == 0,
        r matches Err(e) ==> issues_of(e@) == validation_errors(*t, issues_of(param_issues@), issues_of(value_issues@)),
{
    let report = validate_full(t, param_issues, value_issues);
    if report.is_ok() {
        Ok(())
    } else {
        Err(report.errors)
    }
}

/// A rig passes exactly when it has no dangling reference, no parameter
/// finding, no placement, root, member, connectivity or value finding:
/// warnings such as a self-member never make it fail.
pub proof fn lemma_valid_iff_no_findings(t: Topology, params: Seq<Issue>, values: Seq<Issue>)
    ensures
        validation_errors(t, params, values).len() == 0 <==> (dangling_issues(t).len() == 0
            && params.len() == 0 && placement_issues(t).len() == 0 && root_issues(t).len() == 0
            && members_issues(t).len() == 0 && connectivity_issues(t).len() == 0 && values.len()
            == 0),
{
}

/// Kinds an expression evaluation can report.
pub open spec fn expr_kind(k: RigErrorKind) -> bool {
    k == RigErrorKind::ParamCycle || k == RigErrorKind::UnknownParam || k == RigErrorKind::QuantityMismatch
        || k == RigErrorKind::BadValue
}

/// Expression findings kept after `prior`: those of an expression kind
/// that are not already reported, each once, in the order given.
pub open spec fn kept_expr_issues(prior: Seq<Issue>, more: Seq<Issue>) -> Seq<Issue>
    decreases more.len(),
{
    if more.len() == 0 {
        Seq::empty()
    } else {
        let kept = kept_expr_issues(prior, more.drop_last());
        let e = more.last();
        if expr_kind(e.0) && !(prior + kept).contains(e) { kept.push(e) } else { kept }
    }
}

/// The parameter findings of a rig: per table entry a repeated name and a
/// negative tolerance, then the first dependency finding, then the
/// evaluation findings of its expressions not already reported.
pub open spec fn param_findings(t: Topology, table: Seq<ParamDeps>, exprs: Seq<Issue>) -> Seq<Issue> {
    let own = param_table_issues(table) + dependency_issues(table);
    own + kept_expr_issues(dangling_issues(t) + own, exprs)
}

/// Some table entry repeats an earlier name or has a negative tolerance.
pub open spec fn table_entry_flagged(table: Seq<ParamDeps>) -> bool {
    exists|k: int| 0 <= k < table.len() && (#[trigger] name_taken(table, k) || table[k].negative_tolerance)
}

fn same_error(a: &RigError, b: &RigError) -> (r: bool)
    ensures
        r == ((a.code, a.message@) == (b.code, b.message@)),
{
    a.code == b.code && str_eq(a.message.as_str(), b.message.as_str())
}

fn reported(errs: &Vec<RigError>, e: &RigError) -> (r: bool)
    ensures
        r == issues_of(errs@).contains((e.code, e.message@)),
{
    let mut i: usize = 0;
    while i < errs.len()
        invariant
            i <= errs@.len(),
            forall|j: int| 0 <= j < i ==> issues_of(errs@)[j] != (e.code, e.message@),
        decreases errs@.len() - i,
    {
        if same_error(&errs[i], e) {
            assert(issues_of(errs@)[i as int] == (e.code, e.message@));
            return true;
        }
        i = i + 1;
    }
    false
}

fn copy_error(e: &RigError) -> (c: RigError)
    ensures
        c.code == e.code,
        c.message@ == e.message@,
{
    RigError::new(e.code, String::from_str(e.message.as_str()))
}

fn is_expr_kind(k: RigErrorKind) -> (r: bool)
    ensures
        r == expr_kind(k),
{
    match k {
        RigErrorKind::ParamCycle | RigErrorKind::UnknownParam | RigErrorKind::QuantityMismatch | RigErrorKind::BadValue => true,
        _ => false,
    }
}

/// The parameter findings of a rig (see [`param_findings`]).
fn rig_param_findings(t: &Topology, table: &Vec<ParamDeps>, expr_issues: &Vec<RigError>) -> (p: Vec<RigError>)
    ensures
        issues_of(p@) == param_findings(*t, table@, issues_of(expr_issues@)),
        no_self_member(issues_of(p@)),
{
    let mut seen: Vec<RigError> = Vec::new();
    check_dangling(t, &mut seen);
    let own = check_param_table(table);
    push_all(&mut seen, &own);
    let ghost prior = issues_of(seen@);
    let mut out = own;
    let ghost own_i = issues_of(out@);
    let mut k: usize = 0;
    while k < expr_issues.len()
        invariant
            k <= expr_issues@.len(),
            prior == dangling_issues(*t) + own_i,
            issues_of(seen@) == prior + kept_expr_issues(prior, issues_of(expr_issues@).take(k as int)),
            issues_of(out@) == own_i + kept_expr_issues(prior, issues_of(expr_issues@).take(k as int)),
        decreases expr_issues@.len() - k,
    {
        let ghost more = issues_of(expr_issues@).take(k + 1);
        assert(more.drop_last() =~= issues_of(expr_issues@).take(k as int));
        let e = &expr_issues[k];
        if is_expr_kind(e.code) && !reported(&seen, e) {
            let ghost s0 = seen@;
            let ghost o0 = out@;
            seen.push(copy_error(e));
            out.push(copy_error(e));
            assert(issues_of(seen@) =~= issues_of(s0).push((e.code, e.message@)));
            assert(issues_of(out@) =~= issues_of(o0).push((e.code, e.message@)));
        }
        k = k + 1;
    }
    assert(issues_of(expr_issues@).take(expr_issues@.len() as int) =~= issues_of(expr_issues@));
    proof {
        let pk = |k: RigErrorKind| k != RigErrorKind::SelfMember;
        lemma_table_kinds(table@);
        lemma_kept_kinds(prior, issues_of(expr_issues@));
        let kept = kept_expr_issues(prior, issues_of(expr_issues@));
        assert(kinds_ok(param_table_issues(table@), pk));
        assert(kinds_ok(kept, pk));
        if all_known(table@) && acyclic(table@) {
            assert(kinds_ok(own_i, pk));
        } else {
            let e = own@.last();
            assert(e.code == RigErrorKind::ParamCycle || e.code == RigErrorKind::UnknownParam);
            assert(own_i =~= issues_of(own@.drop_last()).push((e.code, e.message@)));
            lemma_add_kinds(param_table_issues(table@), seq![(e.code, e.message@)], pk);
            assert(own_i =~= param_table_issues(table@) + seq![(e.code, e.message@)]);
        }
        lemma_add_kinds(own_i, kept, pk);
        let all = issues_of(out@);
        assert forall|j: int| 0 <= j < all.len() implies (#[trigger] all[j]).0 != RigErrorKind::SelfMember by {
            assert(pk(all[j].0));
        }
    }
    out
}

proof fn lemma_concat_has(s: Seq<Seq<Issue>>, k: int)
    requires
        0 <= k < s.len(),
    ensures
        concat(s).len() >= s[k].len(),
    decreases s.len(),
{
    if k < s.len() - 1 {
        assert(s.drop_last()[k] == s[k]);
        lemma_concat_has(s.drop_last(), k);
    }
}

/// Validate a rig with its parameter table: the table's own findings, its
/// first dependency finding and the evaluation findings of its
/// expressions (`expr_issues`) are reported among the structural ones.
pub fn validate_rig_full(t: &Topology, table: &Vec<ParamDeps>, expr_issues: &Vec<RigError>, value_issues: &Vec<RigError>) -> (r: ValidationReport)
    requires
        topology_wf(*t),
    ensures
        issues_of(r.errors@) == validation_errors(*t, param_findings(*t, table@, issues_of(expr_issues@)), issues_of(value_issues@)),
        issues_of(r.warnings@) == members_warnings(*t),
        only_self_member(issues_of(r.warnings@)),
        no_self_member(issues_of(value_issues@)) ==> no_self_member(issues_of(r.errors@)),
{
    let p = rig_param_findings(t, table, expr_issues);
    validate_full(t, &p, value_issues)
}

/// `Ok` when the rig with its parameter table has no error finding;
/// otherwise every error found. A table with a missing reference, a cycle,
/// a repeated name or a negative tolerance always fails.
pub fn validate_rig(t: &Topology, table: &Vec<ParamDeps>, expr_issues: &Vec<RigError>, value_issues: &Vec<RigError>) -> (r: Result<(), Vec<RigError>>)
    requires
        topology_wf(*t),
    ensures
        r is Ok <==> validation_errors(*t, param_findings(*t, table@, issues_of(expr_issues@)), issues_of(value_issues@)).len() == 0,
        r matches Err(e) ==> issues_of(e@) == validation_errors(*t, param_findings(*t, table@, issues_of(expr_issues@)), issues_of(value_issues@)),
        !(all_known(table@) && acyclic(table@)) ==> r is Err,
        table_entry_flagged(table@) ==> r is Err,
        (exists|j: int, k: int| 0 <= j < k < table@.len() && #[trigger] table@[j].name@ == #[trigger] table@[k].name@)
            ==> r is Err,
{
    let own = check_param_table(table);
    proof {
        if exists|j: int, k: int| 0 <= j < k < table@.len() && #[trigger] table@[j].name@ == #[trigger] table@[k].name@ {
            let (j, k) = choose|j: int, k: int| 0 <= j < k < table@.len() && #[trigger] table@[j].name@ == #[trigger] table@[k].name@;
            lemma_repeated_names_reported(table@, j, k);
            assert(param_table_issues(table@).len() >= 1);
        }
        let pf = param_findings(*t, table@, issues_of(expr_issues@));
        if !(all_known(table@) && acyclic(table@)) {
            assert(dependency_issues(table@).len() >= 1) by {
                assert(issues_of(own@).len() == own@.len());
                assert(issues_of(own@.drop_last()).len() == own@.len() - 1);
            }
        }
        if table_entry_flagged(table@) {
            let k = choose|k: int| 0 <= k < table@.len() && (#[trigger] name_taken(table@, k) || table@[k].negative_tolerance);
            let s = Seq::new(table@.len(), |q: int| param_entry_issues(table@, q));
            lemma_concat_has(s, k);
            assert(s[k].len() >= 1);
            assert(param_table_issues(table@) == concat(s));
        }
        assert(pf.len() >= param_table_issues(table@).len() + dependency_issues(table@).len());
        assert(validation_errors(*t, pf, issues_of(value_issues@)).len() >= pf.len());
    }
    let report = validate_rig_full(t, table, expr_issues, value_issues);
    if report.is_ok() {
        Ok(())
    } else {
        Err(report.errors)
    }
}

} // verus!
