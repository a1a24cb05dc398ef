// Offset conversion between Unicode-scalar-value counts and byte offsets.
//
// A composed character ("\u{00E9}") is one scalar value of two bytes; a
// decomposed one ("\u{0065}\u{0301}") is two scalar values of three bytes.

use wordseg::offsets::{collect_scalar_offsets, scalar_to_byte_offsets, unicode_scalar_bounds};

#[test]
fn test_scalar_to_byte_offsets_composed() {
    assert_eq!(scalar_to_byte_offsets("\u{00E9}", vec![(0, 1)]), vec![(0, 2)]);
}

#[test]
fn test_scalar_to_byte_offset_decomposed() {
    assert_eq!(
        scalar_to_byte_offsets("\u{0065}\u{0301}", vec![(0, 2)]),
        vec![(0, 3)]
    );
}

#[test]
fn test_unicode_scalar_bounds() {
    assert_eq!(unicode_scalar_bounds("foo"), vec![1, 2, 3]);
    assert_eq!(unicode_scalar_bounds("l\u{00E9}l"), vec![1, 3, 4]);
    assert_eq!(
        unicode_scalar_bounds("l\u{0065}\u{0301}l"),
        vec![1, 2, 4, 5]
    );
}

#[test]
fn test_collect_scalar_offsets() {
    assert_eq!(
        collect_scalar_offsets(vec!["foo".to_string()]),
        vec![(0, 3)]
    );
    assert_eq!(
        collect_scalar_offsets(vec![
            "l".to_string(),
            "\u{00E9}".to_string(),
            "l".to_string()
        ]),
        vec![(0, 1), (1, 2), (2, 3)]
    );
    assert_eq!(
        collect_scalar_offsets(vec![
            "l".to_string(),
            "\u{0065}\u{0301}".to_string(),
            "l".to_string()
        ]),
        vec![(0, 1), (1, 3), (3, 4)]
    );
}

#[test]
fn test_multi_segment_byte_offsets() {
    // "lél" decomposed: l | e + combining acute | l.
    let offsets = collect_scalar_offsets(vec![
        "l".to_string(),
        "\u{0065}\u{0301}".to_string(),
        "l".to_string(),
    ]);
    let bytes = scalar_to_byte_offsets("l\u{0065}\u{0301}l", offsets);
    assert_eq!(bytes, vec![(0, 1), (1, 4), (4, 5)]);
}

#[test]
fn test_round_trip_total_length() {
    // The byte spans of a valid boundary list cover the word's byte length.
    let word = "br\u{016F}l\u{00E9}e";
    let bounds = vec![(0, 3), (3, 5), (5, 6)];
    let bytes = scalar_to_byte_offsets(word, bounds);
    let total: usize = bytes.iter().map(|(a, b)| b - a).sum();
    assert_eq!(total, word.len());
    assert_eq!(bytes.first().unwrap().0, 0);
    assert_eq!(bytes.last().unwrap().1, word.len());
}
