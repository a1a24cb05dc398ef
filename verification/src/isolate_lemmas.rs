//! Configuration of the pre-tokenizer that asks an external process to
//! isolate the lemmas of a word. As with [`crate::external`], only the
//! connection settings live here; the socket I/O is the caller's.

use vstd::prelude::*;

verus! {

/// Where to reach the lemma-isolating service: the socket path, a prefix to
/// keep in front of its answer, and the delimiter it marks split points
/// with.
#[derive(Clone, Debug, PartialEq, Eq)]
pub struct IsolateLemmas {
    pub path_to_socket: String,
    pub with_prefix: String,
    pub split_delimiter: char,
}

impl Default for IsolateLemmas {
    /// Empty socket path and prefix, and the null character as delimiter.
    fn default() -> (r: IsolateLemmas)
        ensures
            r.path_to_socket@ == Seq::<char>::empty(),
            r.with_prefix@ == Seq::<char>::empty(),
            r.split_delimiter == '\0',
    {
        IsolateLemmas {
            path_to_socket: String::new(),
            with_prefix: String::new(),
            split_delimiter: '\0',
        }
    }
}

} // verus!
