//! File naming for the exported calc-package PDF.
pub use crate::print::calc_package_filename;
