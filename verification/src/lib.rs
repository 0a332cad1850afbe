//! Resolution of filesystem path patterns whose components may carry `*`
//! wildcards, by layer-by-layer expansion of a frontier of candidate paths.

use vstd::prelude::*;

pub mod glob;
pub mod laws;
pub mod model;
pub mod paths;
pub mod resolver;
pub mod tree;

verus! {

pub use crate::tree::resolve;

} // verus!
