//! Storage addressing: how identifiers become point coordinates and
//! hyperedge identifiers in the database.
pub mod keys;
