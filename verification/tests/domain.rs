use bth_rigging::calc::{
    apex_shackle_count, endpoints_below_count, layer_status, leg_count, LayerFlags,
};
use bth_rigging::domain::{epoch_millis, now_millis, Hitch, Project};
use bth_rigging::hardware::sling_stroke_color;

#[test]
fn hitch_labels_and_menu_order() {
    assert_eq!(Hitch::Vertical.label(), "Vertical");
    assert_eq!(Hitch::Choker.label(), "Choker");
    assert_eq!(Hitch::Basket.label(), "Basket");
    assert_eq!(Hitch::all(), [Hitch::Vertical, Hitch::Choker, Hitch::Basket]);
    assert_eq!(Hitch::default(), Hitch::Vertical);
}

#[test]
fn basket_doubles_leg_count() {
    assert_eq!(leg_count(Hitch::Basket, 2), 4);
    assert_eq!(leg_count(Hitch::Vertical, 2), 2);
    assert_eq!(leg_count(Hitch::Choker, 0), 1);
    assert_eq!(leg_count(Hitch::Basket, 0), 2);
}

#[test]
fn apex_shackles_one_at_hook_else_per_parent_end() {
    assert_eq!(apex_shackle_count(0, Some(4)), 1);
    assert_eq!(apex_shackle_count(1, Some(2)), 2);
    assert_eq!(apex_shackle_count(1, Some(0)), 1);
    assert_eq!(apex_shackle_count(2, None), 1);
}

#[test]
fn spreader_presents_two_end_lugs() {
    assert_eq!(endpoints_below_count(true, 1), 2);
    assert_eq!(endpoints_below_count(true, 4), 4);
    assert_eq!(endpoints_below_count(false, 1), 1);
    assert_eq!(endpoints_below_count(false, 0), 1);
    assert_eq!(endpoints_below_count(false, 3), 3);
}

fn flags(g: bool, o: bool, a: bool, u: bool, m: bool) -> LayerFlags {
    LayerFlags {
        geometry_error: g,
        overloaded: o,
        angle_below_minimum: a,
        unequal_drops: u,
        sling_length_missing: m,
    }
}

#[test]
fn status_stamp_priority() {
    assert_eq!(layer_status(&flags(true, true, true, true, true)), ("GEOM", "over"));
    assert_eq!(layer_status(&flags(false, true, true, false, false)), ("OVER", "over"));
    assert_eq!(layer_status(&flags(false, false, true, true, false)), ("ANGLE", "warn"));
    assert_eq!(layer_status(&flags(false, false, false, true, true)), ("LEGS", "warn"));
    assert_eq!(layer_status(&flags(false, false, false, false, true)), ("NO LEN", "warn"));
    assert_eq!(layer_status(&flags(false, false, false, false, false)), ("OK", "ok"));
}

#[test]
fn stroke_colors() {
    assert_eq!(sling_stroke_color("Purple"), "#7c3aed");
    assert_eq!(sling_stroke_color("Orange"), "#ea580c");
    assert_eq!(sling_stroke_color("purple"), "#334155");
    assert_eq!(sling_stroke_color(""), "#334155");
}

#[test]
fn project_new_and_touch() {
    let mut p = Project::new("Tower A");
    assert_eq!(p.name, "Tower A");
    assert_eq!(p.notes, "");
    assert_ne!(p.id, 0);
    let id = p.id;
    let before = p.updated_at;
    p.touch();
    assert_eq!(p.id, id);
    assert!(p.updated_at >= before);
    assert!(now_millis() > 1_600_000_000_000);
}

#[test]
fn touch_at_sets_only_the_timestamp() {
    let mut p = Project::new("Bridge");
    let id = p.id;
    p.notes = "north span".to_string();
    p.touch_at(1_700_000_000_123);
    assert_eq!(p.updated_at, 1_700_000_000_123);
    assert_eq!(p.id, id);
    assert_eq!(p.name, "Bridge");
    assert_eq!(p.notes, "north span");
}

#[test]
fn fresh_ids_differ() {
    let a = Project::new("a");
    let b = Project::new("b");
    assert_ne!(a.id, b.id);
}

#[test]
fn epoch_millis_cuts_to_64_bits() {
    assert_eq!(epoch_millis(None), 0);
    assert_eq!(epoch_millis(Some(1_700_000_000_123)), 1_700_000_000_123);
    assert_eq!(epoch_millis(Some((1u128 << 64) + 5)), 5);
}

#[test]
fn project_ids_are_version_four() {
    let p = Project::new("bits");
    assert_eq!((p.id >> 76) & 0xf, 4);
    assert_eq!((p.id >> 62) & 0x3, 2);
}
