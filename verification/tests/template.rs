use bth_rigging::domain::Hitch;
use bth_rigging::rig::component::ComponentTag;
use bth_rigging::rig::node::NodeRole;
use bth_rigging::rig::param::{ParamSource, Quantity};
use bth_rigging::rig::template::{from_layers, from_layers_with_ids, layers_id_count_of, LayerShape, LayeredRig};
use bth_rigging::rig::topology::Topology;
use bth_rigging::rig::validate::{validate, validate_full};

const BASE: u128 = 0x1000;

fn layer(count: u32) -> LayerShape {
    LayerShape {
        sling_count: count,
        size: 3,
        hitch: Hitch::Vertical,
        has_bar: false,
        apex_shackle: None,
        leg_shackle: None,
        has_tare: false,
        geometry_ends: 0,
    }
}

fn bar_layer(count: u32, apex: Option<&str>, tare: bool, geometry_ends: u32) -> LayerShape {
    let mut l = layer(count);
    l.has_bar = true;
    l.apex_shackle = apex.map(|a| a.to_string());
    l.has_tare = tare;
    l.geometry_ends = geometry_ends;
    l
}

/// Identifiers `BASE`, `BASE + 1`, ... as many as the rig takes.
fn ids_for(layers: &[LayerShape]) -> Vec<u128> {
    let n = layers_id_count_of(&layers.to_vec());
    (0..n).map(|k| BASE + k).collect()
}

fn wire(layers: &[LayerShape]) -> LayeredRig {
    from_layers_with_ids(&layers.to_vec(), &ids_for(layers))
}

fn labels(t: &Topology) -> Vec<String> {
    t.nodes.iter().map(|n| n.label.clone()).collect()
}

fn member_labels(t: &Topology) -> Vec<String> {
    t.members.iter().map(|m| m.label.clone()).collect()
}

fn id_of(t: &Topology, label: &str) -> u128 {
    t.nodes.iter().find(|n| n.label == label).map(|n| n.id).unwrap()
}

fn path_of(t: &Topology, label: &str) -> Vec<u128> {
    t.members.iter().find(|m| m.label == label).map(|m| m.path.clone()).unwrap()
}

/// The wired graph passes every structural check.
fn check(layers: &[LayerShape]) -> Topology {
    let t = wire(layers).topology;
    let report = validate_full(&t, &Vec::new(), &Vec::new());
    assert!(report.errors.is_empty(), "graph invalid: {:?}", report.errors);
    assert!(validate(&t, &Vec::new(), &Vec::new()).is_ok());
    assert!(t.is_well_formed());
    t
}

#[test]
fn print_sample_single_manual() {
    // Two vertical slings, no spacing: a single layer straight to the load.
    let t = check(&[layer(2)]);
    assert_eq!(labels(&t), vec!["hook", "P0", "P1"]);
    assert_eq!(member_labels(&t), vec!["L0 sling 0", "L0 sling 1"]);
}

#[test]
fn print_sample_two_layer_spreader() {
    let mut top = layer(2);
    top.has_bar = true;
    let bottom = layer(2);
    let t = check(&[top, bottom]);
    assert_eq!(labels(&t), vec!["hook", "L0 bar pick 0", "L0 bar pick 1", "P0", "P1"]);
    assert_eq!(
        member_labels(&t),
        vec!["L0 sling 0", "L0 sling 1", "L1 sling 0", "L1 sling 1"]
    );
    assert_eq!(path_of(&t, "L1 sling 1"), vec![id_of(&t, "L0 bar pick 1"), id_of(&t, "P1")]);
}

#[test]
fn print_sample_impossible_geom() {
    // The geometry error lives in the angles, not in the wiring.
    let t = check(&[layer(2)]);
    assert_eq!(t.members.len(), 2);
}

#[test]
fn db_fixture_pick() {
    let l = bar_layer(2, Some("1"), true, 0);
    let t = check(&[l]);
    assert_eq!(
        labels(&t),
        vec![
            "hook",
            "L0 bar pick 0",
            "L0 bar pick 1",
            "load from bar 0",
            "load from bar 1",
            "L0 collector 0",
            "L0 tare node",
        ]
    );
    assert_eq!(
        member_labels(&t),
        vec![
            "L0 bar to load 0",
            "L0 bar to load 1",
            "L0 apex 0",
            "L0 sling 0",
            "L0 sling 1",
            "L0 tare hang",
        ]
    );
    let bodies: Vec<String> = t.bodies.iter().map(|b| b.label.clone()).collect();
    assert_eq!(bodies, vec!["Hook", "Load", "Spreader L0", "L0 tare"]);
}

#[test]
fn duplo10ish_two_over_four() {
    let l1 = bar_layer(2, Some("1-1/4"), false, 0);
    let mut l2 = layer(4);
    l2.has_tare = true;
    let t = check(&[l1, l2]);
    assert_eq!(t.root, BASE + 5);
    let collector = id_of(&t, "L0 collector 0");
    assert_eq!(path_of(&t, "L0 apex 0"), vec![BASE + 5, collector]);
    assert_eq!(path_of(&t, "L0 sling 0"), vec![collector, id_of(&t, "L0 bar pick 0")]);
    // Four slings split two and two under the bar's lugs.
    assert_eq!(path_of(&t, "L1 sling 1"), vec![id_of(&t, "L0 bar pick 0"), id_of(&t, "P1")]);
    assert_eq!(path_of(&t, "L1 sling 2"), vec![id_of(&t, "L0 bar pick 1"), id_of(&t, "P2")]);
    assert_eq!(path_of(&t, "L1 tare hang"), vec![id_of(&t, "P0"), id_of(&t, "L1 tare node")]);
}

#[test]
fn legacy_zero_sling_length() {
    // A missing sling length changes weights only, not the wiring.
    let t = check(&[layer(2)]);
    assert_eq!(t.nodes.len(), 3);
}

#[test]
fn corpus_with_shackles_and_lengths() {
    let l1 = bar_layer(2, Some("1-1/2"), false, 0);
    let mut l2 = layer(4);
    l2.apex_shackle = Some("3/4".to_string());
    l2.has_tare = true;
    let t = check(&[l1, l2]);
    // One collector under the hook, one under each bar lug.
    assert_eq!(id_of(&t, "L1 collector 1") - id_of(&t, "L1 collector 0"), 1);
    assert_eq!(
        path_of(&t, "L1 apex 1"),
        vec![id_of(&t, "L0 bar pick 1"), id_of(&t, "L1 collector 1")]
    );
}

#[test]
fn identifiers_are_taken_in_creation_order() {
    let r = wire(&[layer(1)]);
    let t = &r.topology;
    assert_eq!(t.bodies[0].id, BASE + 4);
    assert_eq!(t.nodes[0].id, BASE + 5);
    assert_eq!(t.bodies[1].id, BASE + 6);
    assert_eq!(t.nodes[1].id, BASE + 7);
    assert_eq!(t.nodes[0].role, NodeRole::Root);
    assert_eq!(t.nodes[1].role, NodeRole::Lug);
    assert_eq!(t.nodes[1].body, Some(BASE + 6));
    assert_eq!(t.param_ids, vec![BASE, BASE + 1, BASE + 2, BASE + 3, BASE + 8]);
    // The load reads its weight, height (centre of gravity), length, width
    // and height; the pick lug on the load reads the height.
    assert_eq!(t.expr_param_refs, vec![BASE, BASE + 3, BASE + 1, BASE + 2, BASE + 3, BASE + 3]);
    assert_eq!(layers_id_count_of(&vec![layer(1)]), 9);
}

#[test]
fn parameters_are_named_with_their_quantities() {
    let r = wire(&[bar_layer(2, None, false, 0), layer(2)]);
    let names: Vec<String> = r.params.iter().map(|p| p.name.clone()).collect();
    assert_eq!(
        names,
        vec!["load_weight", "load_length", "load_width", "load_height", "span_layer0", "l_layer0", "l_layer1"]
    );
    assert_eq!(r.params[0].quantity, Quantity::Weight);
    assert!(r.params[1..].iter().all(|p| p.quantity == Quantity::Length));
    assert_eq!(r.params[0].source, ParamSource::Drawing);
    assert_eq!(r.params[4].source, ParamSource::Assumed);
    assert_eq!(r.params[5].source, ParamSource::Drawing);
    let ids: Vec<u128> = r.params.iter().map(|p| p.id).collect();
    assert_eq!(r.topology.param_ids, ids);
    // The bar's span reads its parameter, after the load's five references.
    assert_eq!(r.topology.expr_param_refs[5], r.params[4].id);
}

#[test]
fn members_carry_their_hardware() {
    let mut top = bar_layer(2, Some("1"), true, 0);
    top.leg_shackle = Some("3/4".to_string());
    top.size = 5;
    top.hitch = Hitch::Basket;
    let mut bottom = layer(2);
    bottom.leg_shackle = Some("9/4".to_string());
    let r = wire(&[top, bottom.clone()]);
    let t = &r.topology;
    let parts = |label: &str| t.members.iter().find(|m| m.label == label).map(|m| m.segments.clone()).unwrap();
    let apex = parts("L0 apex 0");
    assert_eq!(apex.len(), 1);
    assert!(matches!(apex[0].as_slice(), [ComponentTag::Shackle { size }, ComponentTag::MasterLink] if size == "1"));
    let sling = parts("L0 sling 0");
    assert!(matches!(
        sling[0].as_slice(),
        [ComponentTag::RoundSling { size: 5, hitch: Hitch::Basket }, ComponentTag::Shackle { size }] if size == "3/4"
    ));
    // A leg shackle key the catalog lacks adds no shackle.
    let lower = parts("L1 sling 0");
    assert!(matches!(lower[0].as_slice(), [ComponentTag::RoundSling { size: 3, hitch: Hitch::Vertical }]));
    assert!(matches!(parts("L0 tare hang")[0].as_slice(), [ComponentTag::MasterLink]));
    let last = wire(&[bar_layer(2, None, false, 0)]);
    let link = last.topology.members.iter().find(|m| m.label == "L0 bar to load 0").unwrap();
    assert!(matches!(link.segments[0].as_slice(), [ComponentTag::MasterLink]));
}

#[test]
fn drawn_identifiers_are_version_four() {
    let layers = vec![bar_layer(2, Some("1"), true, 0), layer(4)];
    let r = from_layers(&layers);
    let t = &r.topology;
    let mut all: Vec<u128> = t.nodes.iter().map(|n| n.id).collect();
    all.extend(t.bodies.iter().map(|b| b.id));
    all.extend(t.param_ids.iter().copied());
    assert_eq!(all.len() as u128, layers_id_count_of(&layers));
    assert!(all.iter().all(|v| (v >> 76) & 0xf == 4 && (v >> 62) & 0x3 == 2));
    assert!(t.is_well_formed());
    assert!(validate(t, &Vec::new(), &Vec::new()).is_ok());
    assert_eq!(t.root, t.nodes[0].id);
}

#[test]
fn zero_slings_rig_one() {
    let t = check(&[layer(0)]);
    assert_eq!(labels(&t), vec!["hook", "P0"]);
}

#[test]
fn unknown_apex_key_adds_no_collector() {
    let mut l = layer(2);
    l.apex_shackle = Some("9/4".to_string());
    let t = check(&[l]);
    assert!(t.nodes.iter().all(|n| n.role != NodeRole::Free));
    assert_eq!(path_of(&t, "L0 sling 0")[0], BASE + 5);
}

#[test]
fn single_sling_under_a_bar_hangs_two_end_lugs() {
    let top = bar_layer(1, None, false, 0);
    let bottom = layer(2);
    let t = check(&[top, bottom]);
    assert_eq!(
        labels(&t),
        vec!["hook", "L0 bar pick 0", "L0 bar end 0", "L0 bar end 1", "P0", "P1"]
    );
    assert_eq!(path_of(&t, "L1 sling 1"), vec![id_of(&t, "L0 bar end 1"), id_of(&t, "P1")]);
}

#[test]
fn knots_between_layers_are_free() {
    let t = check(&[layer(2), layer(2)]);
    assert_eq!(labels(&t), vec!["hook", "L0 knot 0", "L0 knot 1", "P0", "P1"]);
    assert!(t.nodes[1].body.is_none());
    assert_eq!(t.nodes[1].role, NodeRole::Free);
}

#[test]
fn empty_pick_leaves_the_load_unsupported() {
    let t = wire(&[]).topology;
    assert!(validate(&t, &Vec::new(), &Vec::new()).is_err());
}

#[test]
fn bar_ends_follow_the_geometry() {
    // A single sling on a bar with no span: the geometry keeps one endpoint.
    let top = bar_layer(1, None, false, 1);
    let t = check(&[top, layer(2)]);
    assert_eq!(labels(&t), vec!["hook", "L0 bar pick 0", "L0 bar end 0", "P0", "P1"]);
    assert_eq!(path_of(&t, "L1 sling 1"), vec![id_of(&t, "L0 bar end 0"), id_of(&t, "P1")]);
}
