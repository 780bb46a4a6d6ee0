//! A persistent term-frequency dictionary for spell correction and query
//! analysis.
//!
//! Terms observed during indexing are filtered, counted in an in-memory
//! accumulator, and committed into immutable ordered segments backed by
//! finite-state transducers.  The dictionary supports exact frequency
//! lookup across segments, compaction of all segments into one with
//! counts of coinciding keys summed, retention of roughly the top-N
//! terms, cheap union with another dictionary, and fuzzy lookup bounded
//! by edit distance.
use vstd::prelude::*;

pub mod accum;
pub mod config;
pub mod dict;
pub mod editdist;
pub mod laws;
pub mod merge;
pub mod meta;
pub mod order;
pub mod parser;
pub mod segment;
pub mod text;

verus! {

/// The faults a dictionary operation can surface.
#[derive(Debug, Clone, Copy, PartialEq, Eq, Structural)]
pub enum Error {
    /// A filesystem operation failed in the surrounding storage layer.
    IoError,
    /// A segment or the catalog failed format validation.
    FormatError,
    /// The catalog bytes could not be parsed as the expected schema.
    SerializationError,
}

} // verus!
