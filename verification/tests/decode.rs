// Decoding the binary model resource: field primitives, nested messages,
// unknown-field skipping, and the defect reports.

use wordseg::decode::decode_model;
use wordseg::errors::ModelDecodeError;
use wordseg::morfessor::viterbi_transitions;
use wordseg::morfessor::TransitionKind;

fn push_varint(mut v: u64, out: &mut Vec<u8>) {
    loop {
        let b = (v & 0x7f) as u8;
        v >>= 7;
        if v == 0 {
            out.push(b);
            return;
        }
        out.push(b | 0x80);
    }
}

fn push_varint_field(field: u64, v: u64, out: &mut Vec<u8>) {
    push_varint(field * 8, out);
    push_varint(v, out);
}

fn push_fixed64_field(field: u64, bits: u64, out: &mut Vec<u8>) {
    push_varint(field * 8 + 1, out);
    out.extend_from_slice(&bits.to_le_bytes());
}

fn push_len_field(field: u64, body: &[u8], out: &mut Vec<u8>) {
    push_varint(field * 8 + 2, out);
    push_varint(body.len() as u64, out);
    out.extend_from_slice(body);
}

fn coding_body(tokens: u64, boundaries: u64, weight: f64) -> Vec<u8> {
    let mut out = Vec::new();
    push_varint_field(1, tokens, &mut out);
    push_varint_field(2, boundaries, &mut out);
    push_fixed64_field(3, weight.to_bits(), &mut out);
    out
}

fn atom_entry(key: &str, count: u64) -> Vec<u8> {
    let mut out = Vec::new();
    push_len_field(1, key.as_bytes(), &mut out);
    push_varint_field(2, count, &mut out);
    out
}

fn analysis_entry(key: &str, count: u64, splitloc: &[u64]) -> Vec<u8> {
    let mut value = Vec::new();
    push_varint_field(1, count, &mut value);
    for s in splitloc {
        push_varint_field(2, *s, &mut value);
    }
    let mut out = Vec::new();
    push_len_field(1, key.as_bytes(), &mut out);
    push_len_field(2, &value, &mut out);
    out
}

fn model_bytes() -> Vec<u8> {
    let mut out = Vec::new();
    push_len_field(1, &coding_body(100, 50, 1.0), &mut out);

    let mut lexicon = coding_body(9, 3, 0.5);
    let mut atoms = Vec::new();
    push_len_field(1, &atom_entry("a", 7), &mut atoms);
    push_len_field(1, &atom_entry("b", 2), &mut atoms);
    push_len_field(4, &atoms, &mut lexicon);
    push_len_field(2, &lexicon, &mut out);

    push_len_field(3, &analysis_entry("un", 10, &[]), &mut out);
    push_len_field(3, &analysis_entry("foo", 20, &[2, 4]), &mut out);
    out
}

#[test]
fn test_decode_model_fields() {
    let m = decode_model(&model_bytes()).unwrap();

    assert_eq!(m.corpus_coding.tokens, 100);
    assert_eq!(m.corpus_coding.boundaries, 50);
    assert_eq!(f64::from_bits(m.corpus_coding.weight_bits), 1.0);

    assert_eq!(m.lexicon_coding.tokens, 9);
    assert_eq!(m.lexicon_coding.boundaries, 3);
    assert_eq!(f64::from_bits(m.lexicon_coding.weight_bits), 0.5);
    assert_eq!(
        m.lexicon_coding.atoms,
        vec![("a".to_string(), 7), ("b".to_string(), 2)]
    );

    assert_eq!(m.analyses.len(), 2);
    assert_eq!(m.analyses[0].0, "un");
    assert_eq!(m.analyses[0].1.count, 10);
    assert!(m.analyses[0].1.splitloc.is_empty());
    assert_eq!(m.analyses[1].0, "foo");
    assert_eq!(m.analyses[1].1.count, 20);
    assert_eq!(m.analyses[1].1.splitloc, vec![2, 4]);
}

#[test]
fn test_decode_skips_unknown_fields() {
    let mut bytes = Vec::new();
    push_varint_field(9, 77, &mut bytes);
    bytes.extend_from_slice(&model_bytes());
    push_len_field(8, b"ignored", &mut bytes);

    let m = decode_model(&bytes).unwrap();
    assert_eq!(m.corpus_coding.tokens, 100);
    assert_eq!(m.analyses.len(), 2);
}

#[test]
fn test_decode_packed_splitloc() {
    let mut value = Vec::new();
    push_varint_field(1, 10, &mut value);
    let mut packed = Vec::new();
    push_varint(2, &mut packed);
    push_varint(300, &mut packed);
    push_len_field(2, &packed, &mut value);
    let mut entry = Vec::new();
    push_len_field(1, b"un", &mut entry);
    push_len_field(2, &value, &mut entry);

    let mut bytes = Vec::new();
    push_len_field(1, &coding_body(100, 50, 1.0), &mut bytes);
    push_len_field(2, &coding_body(9, 3, 0.5), &mut bytes);
    push_len_field(3, &entry, &mut bytes);

    let m = decode_model(&bytes).unwrap();
    assert_eq!(m.analyses[0].1.splitloc, vec![2, 300]);
}

#[test]
fn test_decode_truncated_is_malformed() {
    let mut bytes = model_bytes();
    bytes.pop();
    assert_eq!(decode_model(&bytes), Err(ModelDecodeError::Malformed));
}

#[test]
fn test_decode_missing_codings_is_malformed() {
    let mut bytes = Vec::new();
    push_len_field(3, &analysis_entry("un", 10, &[]), &mut bytes);
    assert_eq!(decode_model(&bytes), Err(ModelDecodeError::Malformed));
}

#[test]
fn test_decode_invalid_utf8_key_is_malformed() {
    let mut entry = Vec::new();
    push_len_field(1, &[0xFF, 0xFE], &mut entry);
    let mut bytes = Vec::new();
    push_len_field(1, &coding_body(100, 50, 1.0), &mut bytes);
    push_len_field(2, &coding_body(9, 3, 0.5), &mut bytes);
    push_len_field(3, &entry, &mut bytes);
    assert_eq!(decode_model(&bytes), Err(ModelDecodeError::Malformed));
}

#[test]
fn test_decode_nonpositive_count_is_rejected() {
    // A count of -1, stored as the ten-byte two's-complement varint.
    let mut bytes = Vec::new();
    push_len_field(1, &coding_body(100, 50, 1.0), &mut bytes);
    push_len_field(2, &coding_body(9, 3, 0.5), &mut bytes);
    push_len_field(3, &analysis_entry("un", u64::MAX, &[]), &mut bytes);
    assert_eq!(decode_model(&bytes), Err(ModelDecodeError::NegativeCount));

    let mut bytes = Vec::new();
    push_len_field(1, &coding_body(100, 50, 1.0), &mut bytes);
    push_len_field(2, &coding_body(9, 3, 0.5), &mut bytes);
    push_len_field(3, &analysis_entry("un", 0, &[]), &mut bytes);
    assert_eq!(decode_model(&bytes), Err(ModelDecodeError::NegativeCount));
}

#[test]
fn test_decoded_model_drives_segmentation() {
    let m = decode_model(&model_bytes()).unwrap();
    let chars: Vec<char> = "un".chars().collect();
    let v = viterbi_transitions(&m, &chars, 2, 30, true).unwrap();
    // The decoded "un" entry is an observed whole lexicon item.
    assert_eq!(v[0].start, 0);
    assert_eq!(v[0].kind, TransitionKind::Known(10));
}
