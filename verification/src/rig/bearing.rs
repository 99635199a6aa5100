//! Bearing-width check of connection hardware against the sling body.
use vstd::prelude::*;
use crate::catalog::connection_hardware::{body_dia_spec, min_hardware_dia_centi_in};

verus! {

/// Hardware of diameter `hardware_dia_centi_in` (hundredths of an inch)
/// meets the section 4.7 minimum for sling size `size`; an unknown size
/// never does.
pub fn hardware_width_ok(size: u8, hardware_dia_centi_in: u32) -> (ok: bool)
    ensures
        ok == match body_dia_spec(size) {
            Some(min) => hardware_dia_centi_in >= min,
            None => false,
        },
{
    match min_hardware_dia_centi_in(size) {
        Some(min) => hardware_dia_centi_in >= min,
        None => false,
    }
}

} // verus!
