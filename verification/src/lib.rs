//! Range maps from `u32` keys to `i32` values, kept in a canonical form
//! (sorted, disjoint, coalesced), and the property functions that check
//! the promises of that form.
use vstd::prelude::*;

pub mod segment_map;
pub mod range_map;
pub mod inclusive_map;
pub mod map_eq;
pub mod etna;
pub mod witness;
pub mod inputs;
pub mod metrics;
pub mod json;
pub mod text;
