//! Automatic numbering and cross-referencing of labeled equations in a
//! tree of chapters: a first pass assigns sequential numbers to equation
//! placeholders and records labels, a second pass resolves references
//! into relative links.

use vstd::prelude::*;

pub mod bytes;
pub mod engine;
pub mod eqs;
pub mod laws;
pub mod model;
pub mod path;
pub mod refs;
pub mod secnum;
pub mod table;

verus! {

/// Configuration of the equation-numbering preprocessor.
pub struct NumEqPreprocessor {
    /// Whether equation numbers are prefixed by the chapter section number.
    pub with_prefix: bool,
    /// How many leading section-number components delimit a counter-reset
    /// window; 0 means no prefix-based reset.
    pub prefix_depth: usize,
    /// When true, the counter never resets at chapter boundaries.
    pub global: bool,
}

impl NumEqPreprocessor {
    /// Builds a preprocessor from the three recognized options.
    pub fn from_options(with_prefix: bool, prefix_depth: usize, global: bool) -> (r: Self)
        ensures
            r.with_prefix == with_prefix,
            r.prefix_depth == prefix_depth,
            r.global == global,
    {
        NumEqPreprocessor { with_prefix, prefix_depth, global }
    }
}

impl Default for NumEqPreprocessor {
    /// All options off, matching the defaults of the configuration surface.
    fn default() -> (r: Self)
        ensures
            !r.with_prefix,
            r.prefix_depth == 0,
            !r.global,
    {
        NumEqPreprocessor { with_prefix: false, prefix_depth: 0, global: false }
    }
}

} // verus!
