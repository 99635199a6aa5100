//! Typed identifiers for rig graph elements: 128-bit UUID values that
//! survive reordering and merges.
use vstd::prelude::*;
use crate::domain::{lemma_v4_not_nil, random_uuid, v4_bits, v4_mask};

verus! {

/// Identifier of a rigid body.
#[derive(Debug, Clone, Copy, PartialEq, Eq, Structural)]
pub struct BodyId(pub u128);

/// Identifier of a node (attachment point or free knot).
#[derive(Debug, Clone, Copy, PartialEq, Eq, Structural)]
pub struct NodeId(pub u128);

/// Identifier of a member (one physical assembly along a path).
#[derive(Debug, Clone, Copy, PartialEq, Eq, Structural)]
pub struct MemberId(pub u128);

/// Identifier of a named parameter.
#[derive(Debug, Clone, Copy, PartialEq, Eq, Structural)]
pub struct ParamId(pub u128);

impl BodyId {
    /// A fresh random identifier; never nil.
    pub fn new() -> (id: Self)
        ensures
            id.0 != 0,
            id.0 & v4_mask() == v4_bits(),
    {
        let v = random_uuid();
        proof {
            lemma_v4_not_nil(v);
        }
        BodyId(v)
    }

    pub fn nil() -> (id: Self)
        ensures
            id.0 == 0,
    {
        BodyId(0)
    }

    pub fn is_nil(self) -> (r: bool)
        ensures
            r == (self.0 == 0),
    {
        self.0 == 0
    }
}

impl NodeId {
    /// A fresh random identifier; never nil.
    pub fn new() -> (id: Self)
        ensures
            id.0 != 0,
            id.0 & v4_mask() == v4_bits(),
    {
        let v = random_uuid();
        proof {
            lemma_v4_not_nil(v);
        }
        NodeId(v)
    }

    pub fn nil() -> (id: Self)
        ensures
            id.0 == 0,
    {
        NodeId(0)
    }

    pub fn is_nil(self) -> (r: bool)
        ensures
            r == (self.0 == 0),
    {
        self.0 == 0
    }
}

impl MemberId {
    /// A fresh random identifier; never nil.
    pub fn new() -> (id: Self)
        ensures
            id.0 != 0,
            id.0 & v4_mask() == v4_bits(),
    {
        let v = random_uuid();
        proof {
            lemma_v4_not_nil(v);
        }
        MemberId(v)
    }

    pub fn nil() -> (id: Self)
        ensures
            id.0 == 0,
    {
        MemberId(0)
    }

    pub fn is_nil(self) -> (r: bool)
        ensures
            r == (self.0 == 0),
    {
        self.0 == 0
    }
}

impl ParamId {
    /// A fresh random identifier; never nil.
    pub fn new() -> (id: Self)
        ensures
            id.0 != 0,
            id.0 & v4_mask() == v4_bits(),
    {
        let v = random_uuid();
        proof {
            lemma_v4_not_nil(v);
        }
        ParamId(v)
    }

    pub fn nil() -> (id: Self)
        ensures
            id.0 == 0,
    {
        ParamId(0)
    }

    pub fn is_nil(self) -> (r: bool)
        ensures
            r == (self.0 == 0),
    {
        self.0 == 0
    }
}

} // verus!
