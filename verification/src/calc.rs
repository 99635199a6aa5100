//! Counting rules of the layer engine: legs, apex shackles, endpoints, and
//! the status stamp a layer's checks produce.
use vstd::prelude::*;
use crate::domain::Hitch;

verus! {

/// Slings on a layer, at least one.
pub open spec fn slings_used(sling_count: u32) -> int {
    if sling_count < 1 { 1 } else { sling_count as int }
}

/// Load-sharing legs: one per sling, two per sling in a basket.
pub open spec fn legs_spec(hitch: Hitch, sling_count: u32) -> int {
    match hitch {
        Hitch::Basket => 2 * slings_used(sling_count),
        _ => slings_used(sling_count),
    }
}

/// Number of load-sharing legs for the hitch and sling count.
/// Basket: each sling contributes two legs.
pub fn leg_count(hitch: Hitch, sling_count: u32) -> (n: u32)
    requires
        hitch == Hitch::Basket ==> sling_count <= u32::MAX / 2,
    ensures
        n == legs_spec(hitch, sling_count),
{
    let n = if sling_count < 1 { 1 } else { sling_count };
    match hitch {
        Hitch::Vertical | Hitch::Choker => n,
        Hitch::Basket => 2 * n,
    }
}

/// A basket doubles the legs of the same slings hung vertically.
pub proof fn lemma_basket_doubles_legs(sling_count: u32)
    ensures
        legs_spec(Hitch::Basket, sling_count) == 2 * legs_spec(Hitch::Vertical, sling_count),
        legs_spec(Hitch::Choker, sling_count) == legs_spec(Hitch::Vertical, sling_count),
        legs_spec(Hitch::Vertical, sling_count) >= 1,
{
}

/// Apex shackles on a layer: one at the hook for the top layer, otherwise
/// one at each endpoint of the parent layer (at least one).
pub open spec fn apex_count_spec(layer_index: usize, parent_endpoint_count: Option<u32>) -> u32 {
    if layer_index == 0 {
        1
    } else {
        match parent_endpoint_count {
            Some(n) => if n < 1 { 1 } else { n },
            None => 1,
        }
    }
}

/// Number of apex shackles on a layer: one at the hook for L1,
/// otherwise one at each endpoint of the parent layer.
pub fn apex_shackle_count(layer_index: usize, parent_endpoint_count: Option<u32>) -> (n: u32)
    ensures
        n == apex_count_spec(layer_index, parent_endpoint_count),
        n >= 1,
{
    if layer_index == 0 {
        1
    } else {
        let c = match parent_endpoint_count {
            Some(c) => c,
            None => 1,
        };
        if c < 1 { 1 } else { c }
    }
}

/// Endpoints the next layer hangs from: a spreader always presents at
/// least two end lugs, otherwise one per sling (at least one).
pub open spec fn endpoints_spec(has_bar: bool, sling_count: u32) -> u32 {
    if has_bar {
        if sling_count < 2 { 2 } else { sling_count }
    } else {
        if sling_count < 1 { 1 } else { sling_count }
    }
}

/// Number of endpoints the next layer hangs from. `has_bar` is true when a
/// saved spreader or a legacy spreader rating is on the layer.
pub fn endpoints_below_count(has_bar: bool, sling_count: u32) -> (n: u32)
    ensures
        n == endpoints_spec(has_bar, sling_count),
{
    if has_bar {
        if sling_count < 2 { 2 } else { sling_count }
    } else {
        if sling_count < 1 { 1 } else { sling_count }
    }
}

/// What a layer's checks found, in the order the stamp considers them.
#[derive(Debug, Clone, Copy, PartialEq, Eq, Structural)]
pub struct LayerFlags {
    /// The pick-point geometry cannot be rigged.
    pub geometry_error: bool,
    /// Sling tension exceeds the hitch rating (or is not finite).
    pub overloaded: bool,
    /// Sling angle below 30 degrees from horizontal.
    pub angle_below_minimum: bool,
    /// Leg drops differ by more than the tolerance.
    pub unequal_drops: bool,
    /// No sling length entered, so sling weight is excluded.
    pub sling_length_missing: bool,
}

/// Status stamp text of a layer.
pub open spec fn status_label(f: LayerFlags) -> Seq<char> {
    if f.geometry_error { "GEOM"@ }
    else if f.overloaded { "OVER"@ }
    else if f.angle_below_minimum { "ANGLE"@ }
    else if f.unequal_drops { "LEGS"@ }
    else if f.sling_length_missing { "NO LEN"@ }
    else { "OK"@ }
}

/// Status kind of a layer: `over`, `warn` or `ok`.
pub open spec fn status_kind(f: LayerFlags) -> Seq<char> {
    if f.geometry_error || f.overloaded { "over"@ }
    else if f.angle_below_minimum || f.unequal_drops || f.sling_length_missing { "warn"@ }
    else { "ok"@ }
}

/// Sling status stamp `(label, kind)` where kind is `ok` / `warn` / `over`.
pub fn layer_status(f: &LayerFlags) -> (r: (&'static str, &'static str))
    ensures
        r.0@ == status_label(*f),
        r.1@ == status_kind(*f),
{
    if f.geometry_error {
        ("GEOM", "over")
    } else if f.overloaded {
        ("OVER", "over")
    } else if f.angle_below_minimum {
        ("ANGLE", "warn")
    } else if f.unequal_drops {
        ("LEGS", "warn")
    } else if f.sling_length_missing {
        ("NO LEN", "warn")
    } else {
        ("OK", "ok")
    }
}

/// A stamp is `ok` only when no check found anything.
pub proof fn lemma_status_ok_iff_clean(f: LayerFlags)
    ensures
        (status_kind(f) == "ok"@) <==> (!f.geometry_error && !f.overloaded
            && !f.angle_below_minimum && !f.unequal_drops && !f.sling_length_missing),
{
    reveal_strlit("ok");
    reveal_strlit("over");
    reveal_strlit("warn");
    assert("ok"@.len() == 2);
    assert("over"@.len() == 4);
    assert("warn"@.len() == 4);
}

/// A stamp is `over` exactly when the geometry cannot be rigged or the
/// sling is overloaded, and `warn` exactly when neither holds but some
/// warning check fires.
pub proof fn lemma_status_over_iff_blocking(f: LayerFlags)
    ensures
        (status_kind(f) == "over"@) <==> (f.geometry_error || f.overloaded),
        (status_kind(f) == "warn"@) <==> (!f.geometry_error && !f.overloaded
            && (f.angle_below_minimum || f.unequal_drops || f.sling_length_missing)),
{
    reveal_strlit("ok");
    reveal_strlit("over");
    reveal_strlit("warn");
    assert("ok"@.len() == 2);
    assert("over"@[0] != "warn"@[0]);
}

/// A stamp's label and kind agree: `GEOM` and `OVER` are `over`; `ANGLE`,
/// `LEGS` and `NO LEN` are `warn`; `OK` is `ok`. A geometry error is
/// always stamped `GEOM`, whatever else fired.
pub proof fn lemma_status_label_matches_kind(f: LayerFlags)
    ensures
        (status_label(f) == "GEOM"@ || status_label(f) == "OVER"@) <==> status_kind(f) == "over"@,
        (status_label(f) == "ANGLE"@ || status_label(f) == "LEGS"@ || status_label(f) == "NO LEN"@)
            <==> status_kind(f) == "warn"@,
        status_label(f) == "OK"@ <==> status_kind(f) == "ok"@,
        f.geometry_error ==> status_label(f) == "GEOM"@,
{
    reveal_strlit("ok");
    reveal_strlit("over");
    reveal_strlit("warn");
    reveal_strlit("GEOM");
    reveal_strlit("OVER");
    reveal_strlit("ANGLE");
    reveal_strlit("LEGS");
    reveal_strlit("NO LEN");
    reveal_strlit("OK");
    assert("ok"@.len() == 2);
    assert("over"@[0] != "warn"@[0]);
    assert("GEOM"@[0] != "OVER"@[0] && "GEOM"@[0] != "LEGS"@[0] && "OVER"@[0] != "LEGS"@[0]);
    assert("ANGLE"@.len() == 5 && "NO LEN"@.len() == 6 && "OK"@.len() == 2 && "GEOM"@.len() == 4);
}

/// Without a bar the next layer hangs from one endpoint per sling: every
/// sling of a layer with at least one sling is an endpoint below it.
pub proof fn lemma_one_endpoint_per_sling(n: u32)
    ensures
        n >= 1 ==> endpoints_spec(false, n) == n,
        n == 0 ==> endpoints_spec(false, n) == 1,
        n >= 2 ==> endpoints_spec(true, n) == n,
{
}

} // verus!
