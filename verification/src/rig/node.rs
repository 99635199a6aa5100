//! Node roles and lug ratings.
use vstd::prelude::*;

verus! {

/// Principal axis, used for lug plate normals.
#[derive(Debug, Clone, Copy, PartialEq, Eq, Structural)]
pub enum Axis {
    X,
    Y,
    Z,
    NegX,
    NegY,
    NegZ,
}

/// Working load rating for a padeye / lug.
#[derive(Debug, Clone, Copy, PartialEq, Eq, Structural)]
pub struct LugRating {
    pub wll_lbs: u32,
}

impl LugRating {
    pub fn new(wll_lbs: u32) -> (r: Self)
        ensures
            r.wll_lbs == wll_lbs,
    {
        LugRating { wll_lbs }
    }
}

/// Role of a node in the graph, as the structural checks read it.
#[derive(Debug, Clone, Copy, PartialEq, Eq, Structural)]
pub enum NodeRole {
    /// Padeye on a body.
    Lug,
    /// Shackle bow or pin a strap reeves through.
    Bow,
    /// Basket edge under the unit.
    Edge,
    /// Master link, collector ring: no body.
    Free,
    /// Hook bowl.
    Root,
}

/// Bows and edges can carry a member through them.
pub open spec fn bearing_capable(r: NodeRole) -> bool {
    r == NodeRole::Bow || r == NodeRole::Edge
}

/// Name of a node role as reports print it.
pub open spec fn role_label(r: NodeRole) -> Seq<char> {
    match r {
        NodeRole::Lug => "lug"@,
        NodeRole::Bow => "bow"@,
        NodeRole::Edge => "edge"@,
        NodeRole::Free => "free"@,
        NodeRole::Root => "root"@,
    }
}

impl NodeRole {
    pub fn is_bearing_capable(self) -> (r: bool)
        ensures
            r == bearing_capable(self),
    {
        match self {
            NodeRole::Bow | NodeRole::Edge => true,
            _ => false,
        }
    }

    pub fn is_free(self) -> (r: bool)
        ensures
            r == (self == NodeRole::Free),
    {
        match self {
            NodeRole::Free => true,
            _ => false,
        }
    }

    pub fn is_root(self) -> (r: bool)
        ensures
            r == (self == NodeRole::Root),
    {
        match self {
            NodeRole::Root => true,
            _ => false,
        }
    }

    pub fn label(self) -> (s: &'static str)
        ensures
            s@ == role_label(self),
    {
        match self {
            NodeRole::Lug => "lug",
            NodeRole::Bow => "bow",
            NodeRole::Edge => "edge",
            NodeRole::Free => "free",
            NodeRole::Root => "root",
        }
    }
}

} // verus!
