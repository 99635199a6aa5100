//! Diagram stroke colors for WSTDA cover names.
use vstd::prelude::*;
use crate::text::str_eq;

verus! {

/// Stroke color for a WSTDA cover color name; slate for anything else.
pub open spec fn stroke_color_spec(c: Seq<char>) -> Seq<char> {
    if c == "Purple"@ { "#7c3aed"@ }
    else if c == "Green"@ { "#16a34a"@ }
    else if c == "Yellow"@ { "#ca8a04"@ }
    else if c == "Tan"@ { "#a16207"@ }
    else if c == "Red"@ { "#dc2626"@ }
    else if c == "White"@ { "#94a3b8"@ }
    else if c == "Blue"@ { "#2563eb"@ }
    else if c == "Orange"@ { "#ea580c"@ }
    else { "#334155"@ }
}

/// Approximate CSS stroke color for a WSTDA cover color name.
pub fn sling_stroke_color(wstda_color: &str) -> (s: &'static str)
    ensures
        s@ == stroke_color_spec(wstda_color@),
{
    if str_eq(wstda_color, "Purple") {
        "#7c3aed"
    } else if str_eq(wstda_color, "Green") {
        "#16a34a"
    } else if str_eq(wstda_color, "Yellow") {
        "#ca8a04"
    } else if str_eq(wstda_color, "Tan") {
        "#a16207"
    } else if str_eq(wstda_color, "Red") {
        "#dc2626"
    } else if str_eq(wstda_color, "White") {
        "#94a3b8"
    } else if str_eq(wstda_color, "Blue") {
        "#2563eb"
    } else if str_eq(wstda_color, "Orange") {
        "#ea580c"
    } else {
        "#334155"
    }
}

} // verus!
