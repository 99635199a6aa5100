//! Kinds and ratings of rigid bodies in the graph.
use vstd::prelude::*;
use vstd::string::*;

verus! {

/// Working load rating for a spreader bar or lifting beam.
#[derive(Debug, Clone, Copy, PartialEq, Eq, Structural)]
pub struct BarRating {
    pub wll_lbs: u32,
}

impl BarRating {
    pub fn new(wll_lbs: u32) -> (r: Self)
        ensures
            r.wll_lbs == wll_lbs,
    {
        BarRating { wll_lbs }
    }
}

/// Kind of rigid body in the rig graph; a bar's or beam's rating is kept,
/// its dimensions are not.
#[derive(Debug, Clone, Copy, PartialEq, Eq, Structural)]
pub enum BodyKind {
    /// The fixed root's body.
    Hook,
    /// Strut between end lugs.
    SpreaderBar { rating: BarRating },
    /// Top lug(s) not at the ends.
    LiftingBeam { rating: BarRating },
    Load,
    /// Catch-all rigid body (tare frames and the like).
    Frame,
}

/// Name of a body kind as reports print it.
pub open spec fn body_kind_label(k: BodyKind) -> Seq<char> {
    match k {
        BodyKind::Hook => "hook"@,
        BodyKind::SpreaderBar { .. } => "spreader bar"@,
        BodyKind::LiftingBeam { .. } => "lifting beam"@,
        BodyKind::Load => "load"@,
        BodyKind::Frame => "frame"@,
    }
}

impl BodyKind {
    pub fn label(&self) -> (s: &'static str)
        ensures
            s@ == body_kind_label(*self),
    {
        match self {
            BodyKind::Hook => "hook",
            BodyKind::SpreaderBar { .. } => "spreader bar",
            BodyKind::LiftingBeam { .. } => "lifting beam",
            BodyKind::Load => "load",
            BodyKind::Frame => "frame",
        }
    }

    /// Spreader bars and lifting beams are rigging gear.
    pub fn is_gear(&self) -> (r: bool)
        ensures
            r == (*self is SpreaderBar || *self is LiftingBeam),
    {
        match self {
            BodyKind::SpreaderBar { .. } | BodyKind::LiftingBeam { .. } => true,
            _ => false,
        }
    }

    pub fn is_load(&self) -> (r: bool)
        ensures
            r == (*self is Load),
    {
        match self {
            BodyKind::Load => true,
            _ => false,
        }
    }
}

} // verus!
