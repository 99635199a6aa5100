//! Engineering core for BTH Rigging: rigging tables, sling splits, rating
//! rules, rig-graph checks and the text the calc package prints.
pub mod calc;
pub mod catalog;
pub mod domain;
pub mod hardware;
pub mod layers;
pub mod print;
pub mod report;
pub mod rig;
pub mod store;
pub mod text;
