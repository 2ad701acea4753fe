//! Normalizes package manifests: collapses eligible nested dependency
//! tables into single-line inline values, orders the top-level sections and
//! the package keys canonically, sorts dependency keys, and preserves every
//! other byte of the text.

use vstd::prelude::*;

pub mod order;
pub mod pipeline;
pub mod sections;
pub mod text;
pub mod toml_io;
pub mod transform;

verus! {

} // verus!
