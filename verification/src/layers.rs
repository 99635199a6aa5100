//! Layer engine pieces that need no floating point.
pub mod split;
