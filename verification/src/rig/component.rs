//! Hardware kinds that sit in a member's segments, and their catalog refs.
use vstd::prelude::*;
use vstd::string::*;
use crate::catalog::{find_by_size, find_shackle, hitch_wll_spec, size_entry};
use crate::catalog::shackle::shackle_from;
use crate::domain::{Hitch, hitch_label};
use crate::text::{decimal, decimal_string, push_decimal};

verus! {

/// Which catalog table a reference points into.
#[derive(Debug, Clone, Copy, PartialEq, Eq, Structural)]
pub enum CatalogKind {
    RoundSling,
    Shackle,
    Chain,
    WireRope,
    Bar,
}

/// Pointer into a catalog table; numbers stay in the catalog.
#[derive(Debug, Clone)]
pub struct CatalogRef {
    pub kind: CatalogKind,
    pub key: String,
}

impl CatalogRef {
    /// Reference to a roundsling size; the key is the size number.
    pub fn roundsling(size: u8) -> (r: Self)
        ensures
            r.kind == CatalogKind::RoundSling,
            r.key@ == decimal(size as nat),
    {
        CatalogRef { kind: CatalogKind::RoundSling, key: decimal_string(size as u64) }
    }

    /// Reference to a shackle size key such as `"3/4"`.
    pub fn shackle(size: &str) -> (r: Self)
        ensures
            r.kind == CatalogKind::Shackle,
            r.key@ == size@,
    {
        CatalogRef { kind: CatalogKind::Shackle, key: String::from_str(size) }
    }
}

/// Kind of hardware in a segment, with what its rating and label depend on.
#[derive(Debug, Clone)]
pub enum ComponentTag {
    RoundSling { size: u8, hitch: Hitch },
    Strap,
    Chain { grade: u8 },
    WireRope,
    Shackle { size: String },
    MasterLink,
    Turnbuckle,
}

/// Label of a component kind as reports print it.
pub open spec fn tag_label(t: ComponentTag) -> Seq<char> {
    match t {
        ComponentTag::RoundSling { size, hitch } => "RS-"@ + decimal(size as nat) + " "@
            + hitch_label(hitch),
        ComponentTag::Strap => "strap"@,
        ComponentTag::Chain { grade } => "chain G"@ + decimal(grade as nat),
        ComponentTag::WireRope => "wire rope"@,
        ComponentTag::Shackle { size } => "shackle "@ + size@ + "″"@,
        ComponentTag::MasterLink => "master link"@,
        ComponentTag::Turnbuckle => "turnbuckle"@,
    }
}

/// Catalog WLL of a component kind, when the catalog rates it.
pub open spec fn tag_wll(t: ComponentTag) -> Option<u32> {
    match t {
        ComponentTag::RoundSling { size, hitch } => match size_entry(size) {
            Some(r) => Some(hitch_wll_spec(r, hitch)),
            None => None,
        },
        ComponentTag::Shackle { size } => match shackle_from(size@, 0) {
            Some(s) => Some(s.wll_lbs),
            None => None,
        },
        _ => None,
    }
}

impl ComponentTag {
    pub fn label(&self) -> (s: String)
        ensures
            s@ == tag_label(*self),
    {
        match self {
            ComponentTag::RoundSling { size, hitch } => {
                let mut s = String::from_str("RS-");
                push_decimal(&mut s, *size as u64);
                s.append(" ");
                s.append(hitch.label());
                s
            },
            ComponentTag::Strap => String::from_str("strap"),
            ComponentTag::Chain { grade } => {
                let mut s = String::from_str("chain G");
                push_decimal(&mut s, *grade as u64);
                s
            },
            ComponentTag::WireRope => String::from_str("wire rope"),
            ComponentTag::Shackle { size } => {
                let mut s = String::from_str("shackle ");
                s.append(size.as_str());
                s.append("″");
                s
            },
            ComponentTag::MasterLink => String::from_str("master link"),
            ComponentTag::Turnbuckle => String::from_str("turnbuckle"),
        }
    }

    /// Catalog WLL in lb, when the component has a known rating.
    pub fn catalog_wll_lbs(&self) -> (w: Option<u32>)
        ensures
            w == tag_wll(*self),
    {
        match self {
            ComponentTag::RoundSling { size, hitch } => match find_by_size(*size) {
                Some(r) => Some(r.hitch_wll_lbs(*hitch)),
                None => None,
            },
            ComponentTag::Shackle { size } => match find_shackle(size.as_str()) {
                Some(s) => Some(s.wll_lbs),
                None => None,
            },
            _ => None,
        }
    }
}

} // verus!
