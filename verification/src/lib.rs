//! Word segmentation engines for subword pre-tokenization.
//!
//! Two segmentation strategies are provided behind one interface: a
//! statistical, dictionary-free segmenter driven by a pretrained
//! morphological cost model, and a dictionary-driven segmenter that infers
//! split points from the inflectional paradigm of known word forms.

pub mod decode;
pub mod errors;
pub mod external;
pub mod isolate_lemmas;
pub mod morfessor;
pub mod offsets;
pub mod segmenter;
pub mod tree_split;
pub mod trie;
pub mod unimorph;
