//! Puzzle library built around a multi-stage interval remapping pipeline.
//!
//! The heart of the crate is the `ranges` / `stage` / `pipeline` trio: a
//! `RangeSet` of disjoint half-open intervals is driven through an ordered
//! sequence of `StageTable`s, each of which shifts the values matched by one
//! of its source spans and passes every other value through unchanged.  The
//! `almanac` module wires the pipeline to its text format, and the remaining
//! modules hold the smaller puzzle rules that share the same input style.

use vstd::prelude::*;

pub mod almanac;
pub mod cards;
pub mod engine;
pub mod games;
pub mod parse;
pub mod ranges;
pub mod sums;
pub mod trebuchet;
pub mod pipeline;
pub mod stage;

verus! {

/// The ways a construction or a parse can fail.
#[derive(Debug, Clone, Copy, PartialEq, Eq, Structural)]
pub enum Error {
    /// An interval or a stage entry has zero length or overflows `u64`.
    InvalidRange,
    /// Two entries of one stage table have intersecting source spans.
    OverlappingEntries,
    /// The input text does not match the expected format.
    MalformedInput,
}

} // verus!
