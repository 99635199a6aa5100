//! Dimension-vector coordinates and hyperedge identifiers. The formulas are
//! frozen: stored topology depends on them.
use vstd::prelude::*;

verus! {

/// The two big-endian 32-bit words that lead an identifier: bytes 0..4 and 4..8.
pub open spec fn coords_spec(id: u128) -> (u32, u32) {
    ((id / 0x1_0000_0000_0000_0000_0000_0000u128) as u32, ((id / 0x1_0000_0000_0000_0000u128)
        % 0x1_0000_0000u128) as u32)
}

/// Leading two words of an identifier, used as point coordinates.
pub fn uuid_coords(id: u128) -> (c: (u32, u32))
    ensures
        c == coords_spec(id),
{
    let hi = (id >> 96u32) as u32;
    let lo = ((id >> 64u32) & 0xffff_ffffu128) as u32;
    assert((id >> 96u32) == id / 0x1_0000_0000_0000_0000_0000_0000u128) by (bit_vector);
    assert(((id >> 64u32) & 0xffff_ffffu128) == (id / 0x1_0000_0000_0000_0000u128)
        % 0x1_0000_0000u128) by (bit_vector);
    assert(id / 0x1_0000_0000_0000_0000_0000_0000u128 < 0x1_0000_0000u128) by (bit_vector);
    (hi, lo)
}

/// The leading 64 bits of an identifier.
pub open spec fn lead64(id: u128) -> nat {
    (id / 0x1_0000_0000_0000_0000u128) as nat
}

/// Hyperedge id of the edge from a pick to one of its layers:
/// `(lead64 * 1_000_003 + layer) mod 2^64`.
pub open spec fn layer_edge_spec(pick_id: u128, layer_index: u32) -> u64 {
    (((lead64(pick_id) * 1_000_003) % 0x1_0000_0000_0000_0000 + layer_index as nat)
        % 0x1_0000_0000_0000_0000) as u64
}

/// Hyperedge id of a rig member's path edge: `(lead64 * 1_000_003 + 0x524D) mod 2^64`.
pub open spec fn member_edge_spec(member_id: u128) -> u64 {
    (((lead64(member_id) * 1_000_003) % 0x1_0000_0000_0000_0000 + 0x524D)
        % 0x1_0000_0000_0000_0000) as u64
}

fn lead_word(id: u128) -> (w: u64)
    ensures
        w == lead64(id),
{
    let (hi, lo) = uuid_coords(id);
    let w = ((hi as u64) << 32u64) | (lo as u64);
    assert(((((id / 0x1_0000_0000_0000_0000_0000_0000u128) as u32) as u64) << 32u64) | ((((id
        / 0x1_0000_0000_0000_0000u128) % 0x1_0000_0000u128) as u32) as u64) == (id
        / 0x1_0000_0000_0000_0000u128) as u64) by (bit_vector);
    assert((id / 0x1_0000_0000_0000_0000u128) < 0x1_0000_0000_0000_0000u128) by (bit_vector);
    w
}

/// Hyperedge id of the PickHasLayer edge for one layer of a pick.
pub fn layer_edge_id(pick_id: u128, layer_index: u32) -> (e: u64)
    ensures
        e == layer_edge_spec(pick_id, layer_index),
{
    let w = lead_word(pick_id);
    w.wrapping_mul(1_000_003).wrapping_add(layer_index as u64)
}

/// Hyperedge id of the RigMemberPath edge for a member.
pub fn member_edge_id(member_id: u128) -> (e: u64)
    ensures
        e == member_edge_spec(member_id),
{
    let w = lead_word(member_id);
    w.wrapping_mul(1_000_003).wrapping_add(0x524D)
}

/// Different layers of one pick get different hyperedge ids.
pub proof fn lemma_layer_edges_distinct(pick_id: u128, a: u32, b: u32)
    requires
        a != b,
    ensures
        layer_edge_spec(pick_id, a) != layer_edge_spec(pick_id, b),
{
    let base = (lead64(pick_id) * 1_000_003) % 0x1_0000_0000_0000_0000;
    assert(base < 0x1_0000_0000_0000_0000);
}

/// The layer edge of layer 0 and the member edge of the same identifier
/// differ by exactly 0x524D (mod 2^64), so they never coincide.
pub proof fn lemma_member_and_first_layer_differ(id: u128)
    ensures
        layer_edge_spec(id, 0) != member_edge_spec(id),
{
}

} // verus!
