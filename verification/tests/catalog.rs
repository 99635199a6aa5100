use bth_rigging::rig::bearing::hardware_width_ok;
use bth_rigging::catalog::connection_hardware::{min_hardware_dia_centi_in, roundsling_body_dia_centi_in};
use bth_rigging::catalog::{find_by_size, find_shackle, polyester_roundslings, shackles};
use bth_rigging::domain::Hitch;

#[test]
fn catalog_has_thirteen_sizes() {
    let table = polyester_roundslings();
    assert_eq!(table.len(), 13);
    assert_eq!(table[0].size, 1);
    assert_eq!(table[0].color, "Purple");
    assert_eq!(table[0].vertical_lbs, 2_600);
    assert_eq!(table[12].size, 13);
    assert_eq!(table[12].vertical_lbs, 90_000);
    assert_eq!(table[12].choker_lbs, 72_000);
    assert_eq!(table[12].basket_vertical_lbs, 180_000);
}

#[test]
fn table_covers_rs_sizes() {
    // Diameters in hundredths of an inch: 0.50 in, 2.50 in, 1.00 in.
    assert_eq!(roundsling_body_dia_centi_in(1), Some(50));
    assert_eq!(roundsling_body_dia_centi_in(13), Some(250));
    assert_eq!(min_hardware_dia_centi_in(5), Some(100));
    assert_eq!(roundsling_body_dia_centi_in(99), None);
}

#[test]
fn shackles_cover_common_sizes() {
    assert_eq!(find_shackle("3/4").unwrap().wll_lbs, 9_500);
    assert_eq!(find_shackle("2-1/2").unwrap().wll_lbs, 110_000);
    // 5.03 lb each, in hundredths of a pound.
    assert_eq!(find_shackle("1").unwrap().weight_centi_lbs, 503);
    assert!(shackles().iter().all(|s| s.weight_centi_lbs > 0));
}

#[test]
fn find_by_size_matches_the_table_row() {
    for size in 1u8..=13 {
        let r = find_by_size(size).expect("size in table");
        assert_eq!(r.size, size);
    }
    assert!(find_by_size(0).is_none());
    assert!(find_by_size(14).is_none());
    assert_eq!(find_by_size(7).unwrap().color, "Blue");
}

#[test]
fn basket_uses_vertical_rating_per_leg() {
    let r = find_by_size(2).unwrap();
    assert_eq!(r.hitch_wll_lbs(Hitch::Basket), 5_300);
    assert_eq!(r.hitch_wll_lbs(Hitch::Vertical), 5_300);
    assert_eq!(r.hitch_wll_lbs(Hitch::Choker), 4_200);
    for row in polyester_roundslings() {
        assert_eq!(row.basket_vertical_lbs, 2 * row.vertical_lbs);
    }
}

#[test]
fn shackle_pounds_are_tons_times_two_thousand() {
    for s in shackles() {
        assert_eq!(s.wll_lbs as u64 * 100, s.wll_centi_tons as u64 * 2_000);
    }
    assert_eq!(find_shackle("5/8").unwrap().wll_centi_tons, 325);
}

#[test]
fn unknown_shackle_is_none() {
    assert!(find_shackle("9/16").is_none());
    assert!(find_shackle("").is_none());
    assert!(find_shackle("3/4 ").is_none());
}

#[test]
fn catalog_labels() {
    assert_eq!(find_by_size(5).unwrap().label(), "RS-5 Red (13200 lb vert)");
    assert_eq!(find_shackle("3/4").unwrap().label(), "3/4″ · 9500 lb WLL");
}

#[test]
fn d_over_d_and_width_table() {
    // D/d of 2 in hardware over an RS-5 body.
    let body_in = f64::from(roundsling_body_dia_centi_in(5).unwrap()) / 100.0;
    let d = 2.0 / body_in;
    assert!(d > 1.0);
    assert!(hardware_width_ok(5, 200));
    assert!(!hardware_width_ok(13, 25));
}

#[test]
fn hardware_width_edges() {
    assert!(hardware_width_ok(5, 100));
    assert!(!hardware_width_ok(5, 99));
    assert!(!hardware_width_ok(0, 1000));
    assert!(!hardware_width_ok(14, 1000));
}
