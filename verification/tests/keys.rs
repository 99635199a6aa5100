use bth_rigging::store::keys::{layer_edge_id, member_edge_id, uuid_coords};

const ID: u128 = 0xa1a2a3a4_b1b2c1c2_d1d2d3d4_d5d6d7d8;

#[test]
fn coords_are_leading_words() {
    assert_eq!(uuid_coords(ID), (0xa1a2a3a4, 0xb1b2c1c2));
    assert_eq!(uuid_coords(0), (0, 0));
}

#[test]
fn layer_edge_formula() {
    let lead: u64 = 0xa1a2a3a4_b1b2c1c2;
    assert_eq!(layer_edge_id(ID, 0), lead.wrapping_mul(1_000_003));
    assert_eq!(layer_edge_id(ID, 3), lead.wrapping_mul(1_000_003).wrapping_add(3));
    assert_ne!(layer_edge_id(ID, 1), layer_edge_id(ID, 2));
    assert_eq!(layer_edge_id(1u128 << 64, 7), 1_000_010);
}

#[test]
fn member_edge_formula() {
    let lead: u64 = 0xa1a2a3a4_b1b2c1c2;
    assert_eq!(member_edge_id(ID), lead.wrapping_mul(1_000_003).wrapping_add(0x524D));
    assert_ne!(member_edge_id(ID), layer_edge_id(ID, 0));
}
