//! Error kinds of the segmentation engines.
//!
//! Invariant violations are surfaced as explicit error values rather than
//! aborting the process: a caller can refuse to produce a wrong answer and
//! abort deterministically.

use vstd::prelude::*;

verus! {

/// Defects detected while segmenting: a query that is not a path of the
/// trie it is walked against, a predecessor grid that does not lead back to
/// the start, or a stored construction count that is not positive.
#[derive(Clone, Copy, Debug, PartialEq, Eq, Structural)]
pub enum SegmentError {
    InvalidGrid,
    NoPathFound,
    NegativeCount,
}

/// Failure to build an inflection dictionary from its resource text.
#[derive(Clone, Copy, Debug, PartialEq, Eq, Structural)]
pub enum DictionaryLoadError {
    /// The resource is not well-formed tab-separated text.
    Parse,
    /// A row has fewer than the three required fields.
    MalformedRow,
}

/// Failure to decode a morphological cost model from its binary resource.
#[derive(Clone, Copy, Debug, PartialEq, Eq, Structural)]
pub enum ModelDecodeError {
    /// The bytes are not a well-formed message of the expected schema.
    Malformed,
    /// A stored construction count is not positive.
    NegativeCount,
}

} // verus!
