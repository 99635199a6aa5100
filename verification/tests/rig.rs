use bth_rigging::domain::Hitch;
use bth_rigging::rig::body::{BarRating, BodyKind};
use bth_rigging::rig::component::{CatalogKind, CatalogRef, ComponentTag};
use bth_rigging::rig::id::{BodyId, MemberId, NodeId, ParamId};
use bth_rigging::rig::member::min_rating;
use bth_rigging::rig::node::{LugRating, NodeRole};
use bth_rigging::rig::param::{merge_add, merge_div, merge_mul, unknown_params, Expr, Quantity};
use bth_rigging::rig::param_graph::{check_param_cycles, param_named, ParamDeps};
use bth_rigging::rig::topology::{TopoBody, TopoMember, TopoNode, Topology};
use bth_rigging::rig::validate::{validate, validate_full, validate_rig, validate_rig_full};
use bth_rigging::rig::{RigError, RigErrorKind, ValidationReport};

const HOOK_BODY: u128 = 0x10;
const LOAD_BODY: u128 = 0x20;
const HOOK: u128 = 0x100;
const PICK: u128 = 0x200;

fn node(id: u128, body: Option<u128>, role: NodeRole, label: &str) -> TopoNode {
    TopoNode { id, body, role, label: label.to_string() }
}

fn member(label: &str, path: Vec<u128>) -> TopoMember {
    let segs = path.len().saturating_sub(1);
    TopoMember { label: label.to_string(), path, segments: vec![Vec::new(); segs], segment_issues: Vec::new() }
}

/// Hook and a load hung from one leg.
fn minimal() -> Topology {
    Topology {
        nodes: vec![
            node(HOOK, Some(HOOK_BODY), NodeRole::Root, "hook"),
            node(PICK, Some(LOAD_BODY), NodeRole::Lug, "pick"),
        ],
        bodies: vec![
            TopoBody { id: HOOK_BODY, label: "Hook".to_string() },
            TopoBody { id: LOAD_BODY, label: "Load".to_string() },
        ],
        members: vec![member("leg", vec![HOOK, PICK])],
        root: HOOK,
        param_ids: Vec::new(),
        expr_param_refs: Vec::new(),
    }
}

fn errors(t: &Topology) -> Vec<RigError> {
    match validate(t, &Vec::new(), &Vec::new()) {
        Ok(()) => Vec::new(),
        Err(e) => e,
    }
}

fn has(code: RigErrorKind, errs: &[RigError]) -> bool {
    errs.iter().any(|e| e.code == code)
}

#[test]
fn minimal_topology_validates() {
    assert!(validate(&minimal(), &Vec::new(), &Vec::new()).is_ok());
    let report = validate_full(&minimal(), &Vec::new(), &Vec::new());
    assert!(report.is_ok());
    assert!(report.warnings.is_empty());
}

#[test]
fn v1_dangling_ref() {
    let mut t = minimal();
    t.members[0].path[1] = 0x999;
    let errs = errors(&t);
    assert!(has(RigErrorKind::DanglingRef, &errs));
    assert_eq!(
        errs[0].message,
        "member 'leg' references missing node node:00000000-0000-0000-0000-000000000999"
    );
}

#[test]
fn dangling_root_and_body_and_param() {
    let mut t = minimal();
    t.root = 0xabc;
    t.nodes[1].body = Some(0x77);
    t.expr_param_refs = vec![0x5];
    let errs = errors(&t);
    assert_eq!(errs[0].message, "root node:00000000-0000-0000-0000-000000000abc is not a node in this rig");
    assert_eq!(errs[1].message, "node 'pick' references missing body body:00000000-0000-0000-0000-000000000077");
    assert_eq!(errs[2].message, "expression references missing parameter param:00000000-0000-0000-0000-000000000005");
    assert!(errs.iter().all(|e| e.code != RigErrorKind::Disconnected));
}

#[test]
fn v2_path_shape() {
    let mut t = minimal();
    t.members[0].segments.clear();
    let errs = errors(&t);
    assert!(has(RigErrorKind::PathShape, &errs));
    assert_eq!(errs[0].message, "member 'leg': path len 2 with 0 segments");
}

#[test]
fn v3_not_bearing_capable() {
    let mut t = minimal();
    t.nodes.push(node(0x300, Some(LOAD_BODY), NodeRole::Lug, "mid"));
    t.members[0] = member("leg", vec![HOOK, 0x300, PICK]);
    let errs = errors(&t);
    assert!(has(RigErrorKind::NotBearingCapable, &errs));
    assert_eq!(errs[0].message, "member 'leg': interior stop 'mid' is not Bow/Edge");
}

#[test]
fn v4_bad_end() {
    let mut t = minimal();
    t.bodies.push(TopoBody { id: 0x30, label: "Bar".to_string() });
    t.nodes.push(node(0x400, Some(0x30), NodeRole::Bow, "bow"));
    t.members.push(member("hang bar", vec![HOOK, 0x400]));
    t.members[0].path[0] = 0x400;
    let errs = errors(&t);
    assert!(has(RigErrorKind::BadEnd, &errs));
    assert!(errs
        .iter()
        .any(|e| e.message == "member 'leg': end 'bow' is bow (only a self-choker may end on a bearing)"));
}

#[test]
fn v5_free_node_with_body() {
    let mut t = minimal();
    t.nodes.push(node(0x500, Some(HOOK_BODY), NodeRole::Free, "knot"));
    t.members.push(member("to knot", vec![HOOK, 0x500]));
    let errs = errors(&t);
    assert!(has(RigErrorKind::NodePlacement, &errs));
    assert_eq!(errs[0].message, "free node 'knot' must not have a body");
}

#[test]
fn lug_without_body_is_misplaced() {
    let mut t = minimal();
    t.nodes[1].body = None;
    let errs = errors(&t);
    assert_eq!(errs[0].message, "node 'pick' (lug) needs a body");
}

#[test]
fn v10_root_count() {
    let mut t = minimal();
    t.nodes.push(node(0x600, Some(HOOK_BODY), NodeRole::Root, "hook2"));
    let errs = errors(&t);
    assert!(has(RigErrorKind::RootCount, &errs));
    assert_eq!(errs[0].message, "expected exactly one Root node, found 2");
}

#[test]
fn v11_disconnected() {
    let mut t = minimal();
    t.bodies.push(TopoBody { id: 0x40, label: "island".to_string() });
    t.nodes.push(node(0x700, Some(0x40), NodeRole::Lug, "a"));
    t.nodes.push(node(0x701, Some(0x40), NodeRole::Lug, "b"));
    t.members.push(member("island member", vec![0x700, 0x701]));
    let errs = errors(&t);
    assert!(has(RigErrorKind::Disconnected, &errs));
    assert_eq!(errs[0].message, "node 'a' is not connected from the root");
    assert_eq!(errs[1].message, "node 'b' is not connected from the root");
    assert_eq!(errs.len(), 2);
}

#[test]
fn v12_unsupported_body() {
    let mut t = minimal();
    t.bodies.push(TopoBody { id: 0x50, label: "unused bar".to_string() });
    t.nodes.push(node(0x800, Some(0x50), NodeRole::Lug, "unused lug"));
    let errs = errors(&t);
    assert!(has(RigErrorKind::UnsupportedBody, &errs) || has(RigErrorKind::Disconnected, &errs));
    assert_eq!(errs.last().unwrap().message, "body 'unused bar' has no node touched by a member");
}

#[test]
fn nodes_on_one_body_are_connected() {
    let mut t = minimal();
    // A second lug on the load, touched by nothing, is still reachable
    // through the load body.
    t.nodes.push(node(0x900, Some(LOAD_BODY), NodeRole::Lug, "spare"));
    assert!(errors(&t).is_empty());
}

#[test]
fn v13_self_member_is_warning() {
    let mut t = minimal();
    t.nodes.push(node(0xa00, Some(LOAD_BODY), NodeRole::Lug, "pick2"));
    t.nodes.push(node(0xb00, Some(LOAD_BODY), NodeRole::Bow, "choke"));
    t.members.push(member("choker", vec![PICK, 0xb00, 0xa00]));
    let report = validate_full(&t, &Vec::new(), &Vec::new());
    assert!(report.errors.is_empty());
    assert_eq!(report.warnings.len(), 1);
    assert_eq!(report.warnings[0].code, RigErrorKind::SelfMember);
    assert_eq!(
        report.warnings[0].message,
        "member 'choker' has both ends on the same body (allowed for a choker)"
    );
}

#[test]
fn supplied_findings_keep_their_place() {
    let mut t = minimal();
    t.members[0].segment_issues =
        vec![RigError::new(RigErrorKind::EmptySegment, "member 'leg' segment 0 has no positive-length component".to_string())];
    t.nodes.push(node(0xc00, None, NodeRole::Root, "loose root"));
    let params = vec![RigError::new(RigErrorKind::ParamCycle, "cycle".to_string())];
    let values = vec![RigError::new(RigErrorKind::BadValue, "bad".to_string())];
    let report = validate_full(&t, &params, &values);
    let codes: Vec<RigErrorKind> = report.errors.iter().map(|e| e.code).collect();
    assert_eq!(
        codes,
        vec![
            RigErrorKind::ParamCycle,
            RigErrorKind::NodePlacement,
            RigErrorKind::RootCount,
            RigErrorKind::EmptySegment,
            RigErrorKind::Disconnected,
            RigErrorKind::BadValue,
        ]
    );
    assert!(!report.is_ok());
}

#[test]
fn report_is_ok_without_errors() {
    let r = ValidationReport { errors: Vec::new(), warnings: vec![RigError::new(RigErrorKind::SelfMember, "w".to_string())] };
    assert!(r.is_ok());
    let e = RigError::new(RigErrorKind::BadValue, "x".to_string());
    assert_eq!(e.code, RigErrorKind::BadValue);
    assert_eq!(e.message, "x");
}

#[test]
fn quantity_merges() {
    assert_eq!(merge_add(Some(Quantity::Length), None).unwrap(), Some(Quantity::Length));
    assert_eq!(merge_add(Some(Quantity::Length), Some(Quantity::Length)).unwrap(), Some(Quantity::Length));
    let e = merge_add(Some(Quantity::Length), Some(Quantity::Weight)).unwrap_err();
    assert_eq!(e.code, RigErrorKind::QuantityMismatch);
    assert_eq!(e.message, "cannot add Length to Weight");
    assert_eq!(merge_mul(Some(Quantity::Ratio), Some(Quantity::Weight)).unwrap(), Some(Quantity::Weight));
    assert_eq!(merge_mul(Some(Quantity::Count), Some(Quantity::Length)).unwrap(), Some(Quantity::Length));
    assert_eq!(merge_mul(Some(Quantity::Length), Some(Quantity::Length)).unwrap_err().message, "cannot multiply Length by Length");
    assert_eq!(merge_div(Some(Quantity::Length), Some(Quantity::Length)).unwrap(), Some(Quantity::Ratio));
    assert_eq!(merge_div(None, Some(Quantity::Length)).unwrap(), None);
    assert_eq!(merge_div(Some(Quantity::Weight), Some(Quantity::Count)).unwrap(), Some(Quantity::Weight));
    assert_eq!(merge_div(Some(Quantity::Weight), Some(Quantity::Length)).unwrap_err().message, "cannot divide Weight by Length");
    assert_eq!(Quantity::Length.unit_label(), "ft");
    assert_eq!(Quantity::Count.unit_label(), "ea");
}

#[test]
fn weakest_component_names_its_segment() {
    let leg = vec![vec![
        ComponentTag::Shackle { size: "1-1/4".to_string() },
        ComponentTag::RoundSling { size: 7, hitch: Hitch::Vertical },
        ComponentTag::Shackle { size: "1-1/4".to_string() },
    ]];
    let m = min_rating(&leg).unwrap();
    assert_eq!(m.wll_lbs, 21_200);
    assert_eq!(m.segment_index, 0);
    assert_eq!(m.component_index, 1);
    assert_eq!(m.label, "RS-7 Vertical");

    let seg = vec![ComponentTag::RoundSling { size: 5, hitch: Hitch::Choker }];
    let choker = vec![seg.clone(), seg];
    let m = min_rating(&choker).unwrap();
    assert_eq!(m.wll_lbs, 10_600);
    assert_eq!(m.segment_index, 0);

    let unrated = vec![vec![ComponentTag::Strap, ComponentTag::MasterLink]];
    assert!(min_rating(&unrated).is_none());
    assert_eq!(ComponentTag::Chain { grade: 8 }.label(), "chain G8");
    assert_eq!(ComponentTag::Shackle { size: "3/4".to_string() }.label(), "shackle 3/4″");
    assert_eq!(ComponentTag::Shackle { size: "3/4".to_string() }.catalog_wll_lbs(), Some(9_500));
}

#[test]
fn catalog_refs_and_ratings() {
    let r = CatalogRef::roundsling(12);
    assert_eq!(r.kind, CatalogKind::RoundSling);
    assert_eq!(r.key, "12");
    let s = CatalogRef::shackle("5/8");
    assert_eq!(s.kind, CatalogKind::Shackle);
    assert_eq!(s.key, "5/8");
    assert_eq!(BarRating::new(20_000).wll_lbs, 20_000);
    assert_eq!(LugRating::new(5_000).wll_lbs, 5_000);
}

#[test]
fn typed_ids() {
    assert!(BodyId::nil().is_nil());
    assert!(!NodeId::new().is_nil());
    assert!(!MemberId::new().is_nil());
    assert_ne!(ParamId::new(), ParamId::new());
    assert_eq!(NodeRole::Bow.label(), "bow");
    assert!(NodeRole::Edge.is_bearing_capable());
    assert!(!NodeRole::Lug.is_bearing_capable());
}

fn param(id: u128, name: &str, deps: Option<Vec<u128>>) -> ParamDeps {
    ParamDeps { id, name: name.to_string(), deps, negative_tolerance: false }
}

#[test]
fn param_chain_without_cycle_passes() {
    let table = vec![
        param(1, "span", None),
        param(2, "half_span", Some(vec![1])),
        param(3, "quarter_span", Some(vec![2])),
    ];
    assert!(check_param_cycles(&table).is_ok());
    assert!(check_param_cycles(&Vec::new()).is_ok());
}

#[test]
fn v6_param_cycle() {
    // Two derived parameters referencing each other; the load's weight uses one.
    let mut t = minimal();
    t.param_ids = vec![1, 2];
    t.expr_param_refs = vec![1];
    let table = vec![param(1, "a", Some(vec![2])), param(2, "b", Some(vec![1]))];
    let err = validate_rig(&t, &table, &Vec::new(), &Vec::new()).unwrap_err();
    assert!(has(RigErrorKind::ParamCycle, &err));
}

#[test]
fn v6_unknown_param() {
    // The load's weight references a parameter the rig does not have.
    let mut t = minimal();
    t.expr_param_refs = vec![0x2a];
    let err = validate_rig(&t, &Vec::new(), &Vec::new(), &Vec::new()).unwrap_err();
    assert!(has(RigErrorKind::DanglingRef, &err) || has(RigErrorKind::UnknownParam, &err));
}

#[test]
fn v7_quantity_mismatch() {
    // The load's weight is span + wt: a length added to a weight.
    let mut t = minimal();
    t.param_ids = vec![1, 2];
    t.expr_param_refs = vec![1, 2];
    let table = vec![param(1, "span", None), param(2, "wt", None)];
    let eval = merge_add(Some(Quantity::Length), Some(Quantity::Weight)).unwrap_err();
    let err = validate_rig(&t, &table, &vec![eval], &Vec::new()).unwrap_err();
    assert!(has(RigErrorKind::QuantityMismatch, &err));
}

#[test]
fn cycle_check_reports_the_first_finding() {
    let self_ref = vec![param(7, "loop", Some(vec![7]))];
    let err = check_param_cycles(&self_ref).unwrap_err();
    assert_eq!(err.message, "parameter cycle involving param:00000000-0000-0000-0000-000000000007");
    let unknown = vec![param(1, "height", Some(vec![0x2a]))];
    assert_eq!(
        check_param_cycles(&unknown).unwrap_err().message,
        "unknown parameter param:00000000-0000-0000-0000-00000000002a from 'height'"
    );
    // A cycle later in the table does not hide an earlier unknown reference.
    let both = vec![
        param(1, "height", Some(vec![0x2a])),
        param(2, "a", Some(vec![3])),
        param(3, "b", Some(vec![2])),
    ];
    assert_eq!(check_param_cycles(&both).unwrap_err().code, RigErrorKind::UnknownParam);
    // Within a parameter its references are followed in order: 2 leads into
    // the cycle through 3 before 9 is looked up.
    let order = vec![
        param(1, "top", Some(vec![2, 9])),
        param(2, "a", Some(vec![3])),
        param(3, "b", Some(vec![2])),
    ];
    let err = check_param_cycles(&order).unwrap_err();
    assert_eq!(err.code, RigErrorKind::ParamCycle);
    assert_eq!(err.message, "parameter cycle involving param:00000000-0000-0000-0000-000000000002");
}

#[test]
fn rig_validation_keeps_each_parameter_finding_once() {
    let mut t = minimal();
    t.param_ids = vec![1, 2];
    let mut table = vec![param(1, "span", None), param(2, "span", None)];
    table[1].negative_tolerance = true;
    let eval = RigError::new(RigErrorKind::BadValue, "parameter 'span' has negative tolerance".to_string());
    let other = RigError::new(RigErrorKind::EmptySegment, "not an evaluation finding".to_string());
    let report = validate_rig_full(&t, &table, &vec![eval.clone(), eval, other], &Vec::new());
    let msgs: Vec<&str> = report.errors.iter().map(|e| e.message.as_str()).collect();
    assert_eq!(msgs, vec!["duplicate parameter name 'span'", "parameter 'span' has negative tolerance"]);
    assert!(validate_rig(&minimal(), &Vec::new(), &Vec::new(), &Vec::new()).is_ok());
}

#[test]
fn identifiers_must_be_keys() {
    assert!(minimal().is_well_formed());
    let mut t = minimal();
    t.nodes.push(node(PICK, Some(LOAD_BODY), NodeRole::Lug, "twin"));
    assert!(!t.is_well_formed());
    let mut t = minimal();
    t.param_ids = vec![5, 5];
    assert!(!t.is_well_formed());
}

#[test]
fn segment_findings_must_be_of_segment_kinds() {
    let mut t = minimal();
    t.members[0].segment_issues = vec![RigError::new(RigErrorKind::AdjustOutOfRange, "adjust".to_string())];
    assert!(t.is_well_formed());
    t.members[0].segment_issues.push(RigError::new(RigErrorKind::SelfMember, "not a segment finding".to_string()));
    assert!(!t.is_well_formed());
}

#[test]
fn self_member_is_never_an_error() {
    let mut t = minimal();
    t.nodes.push(node(0xa00, Some(LOAD_BODY), NodeRole::Lug, "pick2"));
    t.members.push(member("sling", vec![PICK, 0xa00]));
    t.members[0].segment_issues = vec![RigError::new(RigErrorKind::EmptySegment, "empty".to_string())];
    assert!(t.is_well_formed());
    let report = validate_full(&t, &Vec::new(), &Vec::new());
    assert!(report.warnings.iter().all(|w| w.code == RigErrorKind::SelfMember));
    assert_eq!(report.warnings.len(), 1);
    assert!(report.errors.iter().all(|e| e.code != RigErrorKind::SelfMember));
    assert_eq!(report.errors.len(), 1);
    assert_eq!(report.errors[0].code, RigErrorKind::EmptySegment);
}

#[test]
fn lookups_by_name_take_the_first() {
    let mut t = minimal();
    t.nodes.push(node(0x901, Some(LOAD_BODY), NodeRole::Lug, "pick"));
    assert_eq!(t.node_named("pick").unwrap().id, PICK);
    assert!(t.node_named("nothing").is_none());
    assert_eq!(t.body_named("Load").unwrap().id, LOAD_BODY);
    assert!(t.body_named("load").is_none());
    let table = vec![param(1, "span", None), param(2, "span", None)];
    assert_eq!(param_named(&table, "span").unwrap().id, 1);
    assert!(param_named(&table, "height").is_none());
}

#[test]
fn body_kinds_label_and_classify() {
    let bar = BodyKind::SpreaderBar { rating: BarRating::new(20_000) };
    assert_eq!(bar.label(), "spreader bar");
    assert!(bar.is_gear() && !bar.is_load());
    let beam = BodyKind::LiftingBeam { rating: BarRating::new(10_000) };
    assert_eq!(beam.label(), "lifting beam");
    assert!(beam.is_gear());
    assert_eq!(BodyKind::Load.label(), "load");
    assert!(BodyKind::Load.is_load() && !BodyKind::Load.is_gear());
    assert_eq!(BodyKind::Hook.label(), "hook");
    assert_eq!(BodyKind::Frame.label(), "frame");
    assert!(!BodyKind::Frame.is_gear());
}

#[test]
fn param_table_reports_repeated_names_and_negative_tolerances() {
    let mut table = vec![
        param(1, "span", None),
        param(2, "span", None),
        param(3, "height", Some(vec![1])),
        param(4, "span", None),
    ];
    table[2].negative_tolerance = true;
    let errs = bth_rigging::rig::param_graph::check_param_table(&table);
    let msgs: Vec<&str> = errs.iter().map(|e| e.message.as_str()).collect();
    assert_eq!(
        msgs,
        vec![
            "duplicate parameter name 'span'",
            "parameter 'height' has negative tolerance",
            "duplicate parameter name 'span'",
        ]
    );
    assert_eq!(errs[0].code, RigErrorKind::DanglingRef);
    assert_eq!(errs[1].code, RigErrorKind::BadValue);
}

#[test]
fn param_table_ends_with_the_cycle() {
    let table = vec![param(1, "a", Some(vec![2])), param(2, "b", Some(vec![1]))];
    let errs = bth_rigging::rig::param_graph::check_param_table(&table);
    assert_eq!(errs.len(), 1);
    assert_eq!(errs[0].code, RigErrorKind::ParamCycle);
    assert!(bth_rigging::rig::param_graph::check_param_table(&vec![param(1, "a", None)]).is_empty());
}

#[test]
fn hook_leg_path_is_two_nodes_one_segment() {
    let leg = member("Hook leg", vec![HOOK, PICK]);
    assert_eq!(leg.path.len(), 2);
    assert_eq!(leg.segments.len(), 1);
    let seg = vec![vec![
        ComponentTag::Shackle { size: "1-1/4".to_string() },
        ComponentTag::RoundSling { size: 7, hitch: Hitch::Vertical },
        ComponentTag::Shackle { size: "1-1/4".to_string() },
    ]];
    // 1-1/4 shackle is 24_000; RS-7 vertical is 21_200
    let rating = min_rating(&seg).unwrap();
    assert_eq!(rating.wll_lbs, 21_200);
    assert_eq!(rating.segment_index, 0);
}

#[test]
fn choker_path_is_lug_bow_lug() {
    let m = member("Choker", vec![0x1, 0x2, 0x3]);
    assert_eq!(m.path.len(), 3);
    let seg = vec![ComponentTag::RoundSling { size: 5, hitch: Hitch::Choker }];
    assert_eq!(min_rating(&vec![seg.clone(), seg]).unwrap().wll_lbs, 10_600);
}

#[test]
fn derived_cycle_is_detected() {
    let table = vec![param(0xa, "a", Some(vec![0xb])), param(0xb, "b", Some(vec![0xa]))];
    let err = check_param_cycles(&table).unwrap_err();
    assert_eq!(err.code, RigErrorKind::ParamCycle);
}

#[test]
fn quantity_mismatch_on_add() {
    let err = merge_add(Some(Quantity::Length), Some(Quantity::Weight)).unwrap_err();
    assert_eq!(err.code, RigErrorKind::QuantityMismatch);
    assert!(merge_add(Some(Quantity::Weight), Some(Quantity::Length)).is_err());
}

#[test]
fn free_node_with_a_body_is_rejected_by_placement_rule() {
    // The node records the illegal combination; validation reports it.
    let knot = node(0x5, Some(HOOK_BODY), NodeRole::Free, "knot");
    assert!(knot.role.is_free());
    assert!(knot.body.is_some());
    let mut t = minimal();
    t.nodes.push(knot);
    t.members.push(member("to knot", vec![HOOK, 0x5]));
    assert!(has(RigErrorKind::NodePlacement, &errors(&t)));
}

#[test]
fn params_collects_ids() {
    let a = 0x7_u128;
    let b = 0x3_u128;
    // (a + 2) * b
    let e = Expr::Mul(
        Box::new(Expr::Add(Box::new(Expr::p(a)), Box::new(Expr::Const))),
        Box::new(Expr::p(b)),
    );
    let ids = e.params();
    assert_eq!(ids.len(), 2);
    assert!(ids.contains(&a) && ids.contains(&b));
    assert_eq!(ids, vec![b, a]);
}

#[test]
fn repeated_references_collect_once() {
    let e = Expr::Sub(
        Box::new(Expr::Div(Box::new(Expr::p(9)), Box::new(Expr::p(4)))),
        Box::new(Expr::Neg(Box::new(Expr::p(9)))),
    );
    assert_eq!(e.params(), vec![4, 9]);
    assert!(Expr::Const.params().is_empty());
}

#[test]
fn unknown_params_lists_missing_references() {
    let table = vec![param(4, "span", None)];
    let e = Expr::Add(Box::new(Expr::p(9)), Box::new(Expr::Mul(Box::new(Expr::p(4)), Box::new(Expr::p(1)))));
    assert_eq!(unknown_params(&e, &table), vec![1, 9]);
    assert!(unknown_params(&Expr::p(4), &table).is_empty());
}

#[test]
fn rig_validation_reports_self_members_only_as_warnings() {
    let mut t = minimal();
    t.nodes.push(node(0xa00, Some(LOAD_BODY), NodeRole::Lug, "pick2"));
    t.members.push(member("sling", vec![PICK, 0xa00]));
    t.param_ids = vec![1, 2];
    let table = vec![param(1, "a", None), param(2, "a", Some(vec![1, 9]))];
    let report = validate_rig_full(&t, &table, &Vec::new(), &Vec::new());
    let codes: Vec<RigErrorKind> = report.errors.iter().map(|e| e.code).collect();
    assert_eq!(codes, vec![RigErrorKind::DanglingRef, RigErrorKind::UnknownParam]);
    assert_eq!(report.warnings.len(), 1);
    assert!(report.warnings.iter().all(|w| w.code == RigErrorKind::SelfMember));
}

/// The Duplo10 enclosure lift as the structural checks see it: a top bar on
/// four hook legs, three cross bars, basket straps reeved through the
/// cross-bar bows and chain legs to the pick points.
fn duplo10_structure() -> Topology {
    let mut next: u128 = 0x1000;
    let mut fresh = || {
        next += 1;
        next
    };
    let hook_body = fresh();
    let unit = fresh();
    let bar_top = fresh();
    let bar_l = fresh();
    let bar_c = fresh();
    let bar_r = fresh();
    let bodies = vec![
        TopoBody { id: hook_body, label: "Hook".to_string() },
        TopoBody { id: unit, label: "Al MDC enclosure".to_string() },
        TopoBody { id: bar_top, label: "Bar top".to_string() },
        TopoBody { id: bar_l, label: "Bar L".to_string() },
        TopoBody { id: bar_c, label: "Bar C".to_string() },
        TopoBody { id: bar_r, label: "Bar R".to_string() },
    ];
    let mut nodes = Vec::new();
    let mut add = |body: Option<u128>, role: NodeRole, label: &str, nodes: &mut Vec<TopoNode>| {
        let id = fresh();
        nodes.push(node(id, body, role, label));
        id
    };
    let hook = add(Some(hook_body), NodeRole::Root, "hook", &mut nodes);
    let mut lugs = Vec::new();
    for i in 1..=7 {
        let f = add(Some(unit), NodeRole::Lug, &format!("P{i}-front"), &mut nodes);
        let b = add(Some(unit), NodeRole::Lug, &format!("P{i}-back"), &mut nodes);
        lugs.push((f, b));
    }
    add(Some(bar_top), NodeRole::Bow, "Bar top end A", &mut nodes);
    add(Some(bar_top), NodeRole::Bow, "Bar top end B", &mut nodes);
    let top_l_f = add(Some(bar_top), NodeRole::Lug, "Top→L front", &mut nodes);
    let top_l_b = add(Some(bar_top), NodeRole::Lug, "Top→L back", &mut nodes);
    let top_r_f = add(Some(bar_top), NodeRole::Lug, "Top→R front", &mut nodes);
    let top_r_b = add(Some(bar_top), NodeRole::Lug, "Top→R back", &mut nodes);
    let hook_lugs: Vec<u128> = ["Top hook LF", "Top hook LB", "Top hook RF", "Top hook RB"]
        .iter()
        .map(|l| add(Some(bar_top), NodeRole::Lug, l, &mut nodes))
        .collect();
    let mut cross = Vec::new();
    for (bar, name) in [(bar_l, "L"), (bar_c, "C"), (bar_r, "R")] {
        let bow_f = add(Some(bar), NodeRole::Bow, &format!("Bar {name} bow F"), &mut nodes);
        let bow_b = add(Some(bar), NodeRole::Bow, &format!("Bar {name} bow B"), &mut nodes);
        let lug_f = add(Some(bar), NodeRole::Lug, &format!("Bar {name} lug F"), &mut nodes);
        let lug_b = add(Some(bar), NodeRole::Lug, &format!("Bar {name} lug B"), &mut nodes);
        cross.push((bow_f, bow_b, lug_f, lug_b));
    }
    let shackled = |key: &str, middle: ComponentTag| {
        vec![
            ComponentTag::Shackle { size: key.to_string() },
            middle,
            ComponentTag::Shackle { size: key.to_string() },
        ]
    };
    let mut members = Vec::new();
    let basket = |label: &str, path: Vec<u128>| TopoMember {
        label: label.to_string(),
        path,
        segments: vec![shackled("1-1/4", ComponentTag::Strap), shackled("1-1/4", ComponentTag::Strap)],
        segment_issues: Vec::new(),
    };
    members.push(basket("Basket strap P1–P3 (front)", vec![lugs[0].0, cross[0].0, lugs[2].0]));
    members.push(basket("Basket strap P1–P3 (back)", vec![lugs[0].1, cross[0].1, lugs[2].1]));
    members.push(basket("Basket strap P5–P7 (front)", vec![lugs[4].0, cross[2].0, lugs[6].0]));
    members.push(basket("Basket strap P5–P7 (back)", vec![lugs[4].1, cross[2].1, lugs[6].1]));
    let single = |label: &str, from: u128, to: u128, parts: Vec<ComponentTag>| TopoMember {
        label: label.to_string(),
        path: vec![from, to],
        segments: vec![parts],
        segment_issues: Vec::new(),
    };
    let chain = || {
        vec![
            ComponentTag::Shackle { size: "1".to_string() },
            ComponentTag::Strap,
            ComponentTag::Chain { grade: 8 },
            ComponentTag::Shackle { size: "1".to_string() },
        ]
    };
    for (bar, pick) in [(0usize, 1usize), (1, 3), (2, 5)] {
        let (_, _, lug_f, lug_b) = cross[bar];
        let p = pick + 1;
        members.push(single(&format!("Chain leg P{p} front"), lug_f, lugs[pick].0, chain()));
        members.push(single(&format!("Chain leg P{p} back"), lug_b, lugs[pick].1, chain()));
    }
    let hook_sling = || shackled("1-1/2", ComponentTag::RoundSling { size: 11, hitch: Hitch::Vertical });
    for (label, dest) in ["Hook leg LF", "Hook leg LB", "Hook leg RF", "Hook leg RB"].iter().zip(hook_lugs.iter()) {
        members.push(single(label, hook, *dest, hook_sling()));
    }
    members.push(single("Hook to Bar C front", hook, cross[1].2, hook_sling()));
    members.push(single("Hook to Bar C back", hook, cross[1].3, hook_sling()));
    let v_sling = || shackled("1-1/4", ComponentTag::RoundSling { size: 9, hitch: Hitch::Vertical });
    members.push(single("V leg L front", top_l_f, cross[0].2, v_sling()));
    members.push(single("V leg L back", top_l_b, cross[0].3, v_sling()));
    members.push(single("V leg R front", top_r_f, cross[2].2, v_sling()));
    members.push(single("V leg R back", top_r_b, cross[2].3, v_sling()));
    Topology { nodes, bodies, members, root: hook, param_ids: Vec::new(), expr_param_refs: Vec::new() }
}

#[test]
fn duplo10_structure_validates() {
    let t = duplo10_structure();
    assert!(t.is_well_formed());
    let report = validate_full(&t, &Vec::new(), &Vec::new());
    assert!(report.errors.is_empty(), "{:?}", report.errors);
    // Each basket strap has both ends on the enclosure.
    assert_eq!(report.warnings.len(), 4);
    assert!(report.warnings.iter().all(|w| w.code == RigErrorKind::SelfMember));
    assert!(validate(&t, &Vec::new(), &Vec::new()).is_ok());

    assert_eq!(t.bodies.len() - 1, 5, "enclosure + 4 bars");
    assert_eq!(t.nodes.iter().filter(|n| n.role == NodeRole::Root).count(), 1);
    let load_lugs = t
        .nodes
        .iter()
        .filter(|n| n.label.starts_with('P') && n.label.contains('-') && n.role == NodeRole::Lug)
        .count();
    assert_eq!(load_lugs, 14, "7 pick points × 2 faces");
    assert_eq!(t.nodes.iter().filter(|n| n.role == NodeRole::Bow).count(), 8, "bar-end bows");
    let count = |prefix: &str| t.members.iter().filter(|m| m.label.starts_with(prefix)).count();
    assert_eq!(count("Basket"), 4);
    assert_eq!(count("Chain"), 6);
    assert_eq!(count("Hook leg"), 4);
    assert_eq!(count("V leg"), 4);
    assert_eq!(count("Hook to Bar C"), 2);
}
