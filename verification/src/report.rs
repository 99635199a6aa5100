//! Calc-package export helpers.
pub mod pdf;
