//! The capability both segmentation engines implement: split a word into
//! ordered, contiguous, non-overlapping byte-offset spans covering the whole
//! word.

use vstd::prelude::*;

use crate::offsets::{spans_tile, utf8_len};

verus! {

/// A word segmenter. The returned spans are byte offsets into the word,
/// half-open, ordered, contiguous, and exactly tiling `[0, byte length)`; an
/// empty word yields the single zero-length span `(0, 0)`.
pub trait Segmenter {
    fn segment(&self, message: &str) -> (r: Vec<(usize, usize)>)
        ensures
            spans_tile(r@, utf8_len(message@)),
    ;
}

} // verus!
