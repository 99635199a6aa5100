//! WSTDA section 4.7 connection / bearing-width hardware table.
use vstd::prelude::*;

verus! {

/// Roundsling body diameter in hundredths of an inch, by size number.
pub open spec fn body_dia_spec(size: u8) -> Option<u32> {
    if size == 0 { None }
    else if size == 1 { Some(50) }
    else if size == 2 { Some(62) }
    else if size == 3 { Some(75) }
    else if size == 4 { Some(88) }
    else if size == 5 { Some(100) }
    else if size == 6 { Some(112) }
    else if size == 7 { Some(125) }
    else if size == 8 { Some(138) }
    else if size == 9 { Some(150) }
    else if size == 10 { Some(175) }
    else if size == 11 { Some(200) }
    else if size == 12 { Some(225) }
    else if size == 13 { Some(250) }
    else { None }
}

/// Approximate roundsling body diameter, hundredths of an inch, by WSTDA
/// size number. Representative endless-polyester values; verify against the tag.
pub fn roundsling_body_dia_centi_in(size: u8) -> (d: Option<u32>)
    ensures
        d == body_dia_spec(size),
{
    match size {
        1 => Some(50),
        2 => Some(62),
        3 => Some(75),
        4 => Some(88),
        5 => Some(100),
        6 => Some(112),
        7 => Some(125),
        8 => Some(138),
        9 => Some(150),
        10 => Some(175),
        11 => Some(200),
        12 => Some(225),
        13 => Some(250),
        _ => None,
    }
}

/// Minimum connection hardware diameter (hundredths of an inch) from
/// WSTDA-RS-1 section 4.7 style guidance: hardware should be at least as
/// large as the sling body.
pub fn min_hardware_dia_centi_in(size: u8) -> (d: Option<u32>)
    ensures
        d == body_dia_spec(size),
{
    roundsling_body_dia_centi_in(size)
}

/// Every catalog size has a body diameter, and no other size does; bigger
/// slings are never thinner.
pub proof fn lemma_body_dia_table(a: u8, b: u8)
    ensures
        body_dia_spec(a) is Some <==> 1 <= a <= 13,
        1 <= a <= b <= 13 ==> body_dia_spec(a)->0 <= body_dia_spec(b)->0,
{
}

} // verus!
