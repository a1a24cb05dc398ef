// The Viterbi segmenter: the verified discrete core (transition
// enumeration, backtracking, acceptance policy) driven by the
// minimum-description-length cost arithmetic.

use wordseg::errors::SegmentError;
use wordseg::morfessor::{
    backtrack_spans, construction_strings, finalize_segmentation, viterbi_transitions, Analysis,
    BaselineModel, CorpusEncoding, LexiconEncoding, Transition, TransitionKind,
};

fn model(analyses: Vec<(&str, i64, Vec<u64>)>, tokens: u64, boundaries: u64) -> BaselineModel {
    BaselineModel {
        corpus_coding: CorpusEncoding {
            tokens,
            boundaries,
            weight_bits: 1.0f64.to_bits(),
        },
        lexicon_coding: LexiconEncoding {
            tokens: 0,
            boundaries: 0,
            weight_bits: 1.0f64.to_bits(),
            atoms: Vec::new(),
        },
        analyses: analyses
            .into_iter()
            .map(|(s, count, splitloc)| (s.to_string(), Analysis { count, splitloc }))
            .collect(),
    }
}

// The closed-lexicon (`add_count == 0`) cost loop over the verified
// transition enumeration: an observed whole lexicon item costs
// `log_tokens - ln(count)`, an unseen single scalar value costs the bad
// likelihood `n * log_tokens + 1`; ties keep the first (smallest) start.
fn run_viterbi(model: &BaselineModel, word: &str, max_len: usize) -> (Vec<String>, f64) {
    let chars: Vec<char> = word.chars().collect();
    let n = chars.len();
    let tokens = model.corpus_coding.tokens as f64;
    let boundaries = model.corpus_coding.boundaries as f64;
    let log_tokens = if tokens + boundaries > 0.0 {
        (tokens + boundaries).ln()
    } else {
        0.0
    };
    let bad_likelihood = n as f64 * log_tokens + 1.0;
    let mut costs: Vec<f64> = vec![0.0];
    let mut preds: Vec<usize> = vec![0];
    for t in 1..=n {
        let transitions = viterbi_transitions(model, &chars, t, max_len, true).unwrap();
        let mut best: Option<(f64, usize)> = None;
        for tr in transitions {
            let step = match tr.kind {
                TransitionKind::Known(c) => log_tokens - (c as f64).ln(),
                TransitionKind::UnseenSingle => bad_likelihood,
                TransitionKind::Novel => unreachable!(),
            };
            let cost = costs[tr.start] + step;
            if best.map_or(true, |(bc, _)| cost < bc) {
                best = Some((cost, tr.start));
            }
        }
        let (cost, pred) = best.expect("no transition into a boundary");
        costs.push(cost);
        preds.push(pred);
    }
    let spans = backtrack_spans(&preds, n).unwrap();
    let segments = construction_strings(&chars, &spans);
    let score = costs[n] + (tokens + boundaries).ln() - boundaries.ln();
    (segments, score)
}

#[test]
fn test_viterbi_known_entries() {
    let m = model(
        vec![
            ("un", 10, vec![]),
            ("foo", 20, vec![]),
            ("bar", 30, vec![]),
            ("ed", 40, vec![]),
        ],
        100,
        50,
    );

    let (segments, score) = run_viterbi(&m, "unfoobared", 30);

    assert_eq!(segments, vec!["un", "foo", "bar", "ed"]);

    // The total cost: the summed per-construction costs plus the boundary
    // normalization term, accumulated in the same order as the grid.
    let lt = 150.0f64.ln();
    let expected = (((0.0 + (lt - 10.0f64.ln())) + (lt - 20.0f64.ln())) + (lt - 30.0f64.ln()))
        + (lt - 40.0f64.ln())
        + (150.0f64.ln() - 50.0f64.ln());
    assert!((score - expected).abs() < 1e-12);
}

#[test]
fn test_viterbi_interior_split_entry_is_not_whole() {
    // An analysis with a recorded interior split point is not usable as a
    // whole lexicon item, so the word falls back to unseen single scalars.
    let m = model(vec![("ab", 5, vec![1])], 100, 50);
    let (segments, _score) = run_viterbi(&m, "ab", 30);
    assert_eq!(segments, vec!["a", "b"]);
}

#[test]
fn test_viterbi_max_len() {
    let m = model(vec![("abab", 100, vec![]), ("ab", 2, vec![])], 100, 50);

    let (segments, _) = run_viterbi(&m, "abab", 30);
    assert_eq!(segments, vec!["abab"]);

    // With max_len 2 the four-scalar construction is no longer a transition.
    let (segments, _) = run_viterbi(&m, "abab", 2);
    assert_eq!(segments, vec!["ab", "ab"]);
}

#[test]
fn test_transitions_report_negative_count() {
    let m = model(vec![("bad", 0, vec![])], 100, 50);
    let chars: Vec<char> = "bad".chars().collect();
    assert_eq!(
        viterbi_transitions(&m, &chars, 3, 30, true),
        Err(SegmentError::NegativeCount)
    );
}

#[test]
fn test_transitions_closed_lexicon_singles() {
    let m = model(vec![("ab", 5, vec![])], 100, 50);
    let chars: Vec<char> = "ab".chars().collect();
    let v = viterbi_transitions(&m, &chars, 2, 30, true).unwrap();
    assert_eq!(
        v,
        vec![
            Transition {
                start: 0,
                kind: TransitionKind::Known(5)
            },
            Transition {
                start: 1,
                kind: TransitionKind::UnseenSingle
            },
        ]
    );
}

#[test]
fn test_transitions_open_lexicon_novel() {
    let m = model(vec![], 100, 50);
    let chars: Vec<char> = "ab".chars().collect();
    let v = viterbi_transitions(&m, &chars, 2, 30, false).unwrap();
    assert_eq!(
        v,
        vec![
            Transition {
                start: 0,
                kind: TransitionKind::Novel
            },
            Transition {
                start: 1,
                kind: TransitionKind::Novel
            },
        ]
    );
}

#[test]
fn test_backtrack_invalid_grids() {
    // Wrong grid length.
    assert_eq!(
        backtrack_spans(&vec![0, 0], 2),
        Err(SegmentError::InvalidGrid)
    );
    // A predecessor that does not point strictly backwards.
    assert_eq!(
        backtrack_spans(&vec![0, 0, 3], 2),
        Err(SegmentError::InvalidGrid)
    );
    // An empty word has no segmentation to backtrack.
    assert_eq!(backtrack_spans(&vec![0], 0), Err(SegmentError::InvalidGrid));
}

#[test]
fn test_backtrack_spans_tile() {
    let spans = backtrack_spans(&vec![0, 0, 0, 2, 3], 4).unwrap();
    assert_eq!(spans, vec![(0, 2), (2, 3), (3, 4)]);
}

#[test]
fn test_reject_single_char_sequences() {
    // Two adjacent single-character segments are discarded in favor of the
    // whole-word fallback, regardless of the segmentation's raw cost.
    let segments = vec!["a".to_string(), "b".to_string(), "rest".to_string()];
    assert_eq!(
        finalize_segmentation("abrest", &segments, false, true),
        vec![(0, 6)]
    );
    // Without the policy the same segmentation is kept.
    assert_eq!(
        finalize_segmentation("abrest", &segments, false, false),
        vec![(0, 1), (1, 2), (2, 6)]
    );
}

#[test]
fn test_rejection_threshold_fallback() {
    let segments = vec!["ab".to_string(), "rest".to_string()];
    assert_eq!(
        finalize_segmentation("abrest", &segments, true, false),
        vec![(0, 6)]
    );
}

#[test]
fn test_single_scalar_pair_must_be_adjacent() {
    // Single-character segments separated by a longer one are accepted.
    let segments = vec!["a".to_string(), "rest".to_string(), "b".to_string()];
    assert_eq!(
        finalize_segmentation("arestb", &segments, false, true),
        vec![(0, 1), (1, 5), (5, 6)]
    );
}

#[test]
fn test_atom_count_lookup() {
    let lex = LexiconEncoding {
        tokens: 9,
        boundaries: 3,
        weight_bits: 1.0f64.to_bits(),
        atoms: vec![("a".to_string(), 7), ("b".to_string(), 2)],
    };
    assert_eq!(lex.atom_count('a'), 7);
    assert_eq!(lex.atom_count('b'), 2);
    // An unseen atom defaults to a count of one.
    assert_eq!(lex.atom_count('z'), 1);
}

#[test]
fn test_viterbi_segments_tile_the_word() {
    let m = model(vec![("un", 10, vec![]), ("ed", 40, vec![])], 100, 50);
    let word = "untested";
    let (segments, score) = run_viterbi(&m, word, 30);
    let spans = finalize_segmentation(word, &segments, score > 50.0, false);
    assert_eq!(spans.first().unwrap().0, 0);
    assert_eq!(spans.last().unwrap().1, word.len());
    for w in spans.windows(2) {
        assert_eq!(w[0].1, w[1].0);
    }
}
