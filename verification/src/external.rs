//! Configuration of the pre-tokenizer that delegates segmentation work to
//! another process over a socket. The delegation itself is I/O and lives
//! with the caller; the value here only carries the connection settings.

use vstd::prelude::*;

verus! {

/// Where to reach the external segmenter and how to read its answer: the
/// socket path, a prefix of the word it must not see, and the delimiter it
/// marks split points with.
#[derive(Clone, Debug, PartialEq, Eq)]
pub struct External {
    pub path_to_socket: String,
    pub ignored_prefix: String,
    pub split_delimiter: char,
}

impl External {
    /// A configuration holding exactly the given settings.
    pub fn new(path_to_socket: &str, ignored_prefix: &str, split_delimiter: char) -> (r: External)
        ensures
            r.path_to_socket@ == path_to_socket@,
            r.ignored_prefix@ == ignored_prefix@,
            r.split_delimiter == split_delimiter,
    {
        External {
            path_to_socket: path_to_socket.to_owned(),
            ignored_prefix: ignored_prefix.to_owned(),
            split_delimiter,
        }
    }
}

impl Default for External {
    /// Empty socket path and prefix, and the null character as delimiter.
    fn default() -> (r: External)
        ensures
            r.path_to_socket@ == Seq::<char>::empty(),
            r.ignored_prefix@ == Seq::<char>::empty(),
            r.split_delimiter == '\0',
    {
        External {
            path_to_socket: String::new(),
            ignored_prefix: String::new(),
            split_delimiter: '\0',
        }
    }
}

} // verus!
