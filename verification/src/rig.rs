//! Rig graph: identifiers, parameters' quantities, ratings, component tags,
//! and the structural checks a rig must pass before it is solved.
use vstd::prelude::*;

pub mod bearing;
pub mod body;
pub mod component;
pub mod connect;
pub mod id;
pub mod member;
pub mod node;
pub mod param;
pub mod param_graph;
pub mod template;
pub mod topology;
pub mod validate;

verus! {

/// Current rig document schema. Loading a newer version is refused.
pub const SCHEMA_VERSION: u16 = 1;

/// What a validation or evaluation failure is about.
#[derive(Debug, Clone, Copy, PartialEq, Eq, Structural)]
pub enum RigErrorKind {
    DanglingRef,
    PathShape,
    NotBearingCapable,
    BadEnd,
    NodePlacement,
    ParamCycle,
    UnknownParam,
    QuantityMismatch,
    EmptySegment,
    AdjustOutOfRange,
    RootCount,
    Disconnected,
    UnsupportedBody,
    SelfMember,
    BadValue,
}

/// Validation / eval failure, named after the item it points at.
#[derive(Debug, Clone)]
pub struct RigError {
    pub code: RigErrorKind,
    pub message: String,
}

impl RigError {
    pub fn new(code: RigErrorKind, message: String) -> (e: Self)
        ensures
            e.code == code,
            e.message == message,
    {
        RigError { code, message }
    }
}

/// Errors block the solve; warnings surface in the report.
#[derive(Debug, Clone)]
pub struct ValidationReport {
    pub errors: Vec<RigError>,
    pub warnings: Vec<RigError>,
}

impl ValidationReport {
    /// A report passes when it holds no error (warnings do not block).
    pub fn is_ok(&self) -> (ok: bool)
        ensures
            ok == (self.errors@.len() == 0),
    {
        self.errors.len() == 0
    }
}

} // verus!
