// The dictionary-driven segmenter behind the Segmenter capability.

use wordseg::segmenter::Segmenter;
use wordseg::tree_split::TreeSplit;
use wordseg::unimorph::Unimorph;

fn tree_split(tsv: &str) -> TreeSplit {
    let mut unimorph = Unimorph::new();
    unimorph.init(tsv).unwrap();
    TreeSplit { unimorph }
}

fn assert_tiles(spans: &[(usize, usize)], len: usize) {
    assert!(!spans.is_empty());
    assert_eq!(spans.first().unwrap().0, 0);
    assert_eq!(spans.last().unwrap().1, len);
    for w in spans.windows(2) {
        assert_eq!(w[0].1, w[1].0);
    }
}

#[test]
fn test_unknown_word_is_single_segment() {
    let ts = tree_split("foo\tfoobar\tN;PL");
    // A word the dictionary has never seen is returned whole.
    assert_eq!(ts.segment("unrelated"), vec![(0, 9)]);
    assert_eq!(ts.segment("unrelated"), vec![(0, 9)]);
}

#[test]
fn test_paradigm_split_at_divergence() {
    let ts = tree_split("foo\tfoo\tN;SG\nfoo\tfoobar\tN;PL\nfoo\tfoobaz\tN;DU");
    // The stem "foo" is itself a paradigm member, so the trie branches after
    // it; "foobaz" is not prefix-related to the query and is ignored.
    let spans = ts.segment("foobar");
    assert_eq!(spans, vec![(0, 3), (3, 6)]);
    assert_tiles(&spans, "foobar".len());
}

#[test]
fn test_stem_query_with_longer_sibling() {
    let ts = tree_split("foo\tfoo\tN;SG\nfoo\tfoobar\tN;PL");
    // The query ends exactly at the branch point: the final boundary is the
    // empty trailing span.
    let spans = ts.segment("foo");
    assert_eq!(spans, vec![(0, 3), (3, 3)]);
    assert_tiles(&spans, "foo".len());
}

#[test]
fn test_no_informative_siblings() {
    let ts = tree_split("lemma\tworda\tX\nlemma\twordy\tX");
    // Sibling forms that are not prefix-related to the word leave the trie
    // with the word alone, so nothing is split.
    let spans = ts.segment("worda");
    assert_eq!(spans, vec![(0, 5)]);
}

#[test]
fn test_multibyte_spans_are_byte_offsets() {
    let ts = tree_split("k\u{016F}\u{0148}\tk\u{016F}\u{0148}\tN;SG\nk\u{016F}\u{0148}\tk\u{016F}\u{0148}mi\tN;INS;PL");
    // The stem ends after three scalar values but five bytes.
    let spans = ts.segment("k\u{016F}\u{0148}mi");
    assert_eq!(spans, vec![(0, 5), (5, 7)]);
    assert_tiles(&spans, 7);
}

#[test]
fn test_decomposed_mark_can_be_split_off() {
    // Known hazard of scalar-value-based slicing: with a decomposed
    // character, a paradigm sibling ending at the base letter makes the walk
    // cut between the base letter and its combining mark, so a byte span
    // boundary falls inside the user-perceived character.
    let ts = tree_split("le\tle\tX\nle\tle\u{0301}\tX");
    let spans = ts.segment("le\u{0301}");
    assert_eq!(spans, vec![(0, 2), (2, 4)]);
}

#[test]
fn test_tiling_over_dictionary_words() {
    let ts = tree_split("foo\tfoo\tN;SG\nfoo\tfoobar\tN;PL\nfoo\tfoobaz\tN;DU");
    for word in ["foo", "foobar", "foobaz", "f", "other", "fo"] {
        let spans = ts.segment(word);
        assert_tiles(&spans, word.len());
    }
}
