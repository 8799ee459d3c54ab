//! A same-domain web crawler core: URL normalization, depth computation,
//! pattern-based throttling, visited-state tracking, and the traversal
//! engine that decides, for every discovered link, whether it is fetched.
use vstd::prelude::*;

pub mod args;
pub mod depth;
pub mod engine;
pub mod ledger;
pub mod normalize;
pub mod pattern;
pub mod urls;

verus! {

} // verus!
