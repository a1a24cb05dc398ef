//! The morphological cost model and the discrete core of the Viterbi
//! segmenter: which transitions exist between scalar-value boundary
//! positions of a word, how a predecessor grid is walked back into spans,
//! and the acceptance policy applied to a candidate segmentation.
//!
//! The cost arithmetic itself is floating point and lives with the caller
//! driving the dynamic program; everything it decides on — stored analyses,
//! atom counts, transition eligibility, backtracking, rejection — is here,
//! with exact contracts.

use vstd::prelude::*;

use crate::errors::SegmentError;
use crate::offsets::{
    chars_total, collect_scalar_offsets, lemma_chars_total_le, lemma_chars_total_step,
    scalar_to_byte_offsets, spans_tile, str_byte_len, utf8_len, utf8_prefix,
};

verus! {

/// Corpus-level coding statistics of a pretrained model. The weight is kept
/// as the bit pattern of its binary64 representation; the discrete logic
/// never reads it.
#[derive(Clone, Debug, PartialEq)]
pub struct CorpusEncoding {
    pub tokens: u64,
    pub boundaries: u64,
    pub weight_bits: u64,
}

/// Lexicon-level coding statistics, with the per-atom frequency table.
#[derive(Clone, Debug, PartialEq)]
pub struct LexiconEncoding {
    pub tokens: u64,
    pub boundaries: u64,
    pub weight_bits: u64,
    pub atoms: Vec<(String, u64)>,
}

/// The stored analysis of one construction: its corpus count and its
/// recorded interior split points.
#[derive(Clone, Debug, PartialEq)]
pub struct Analysis {
    pub count: i64,
    pub splitloc: Vec<u64>,
}

/// An immutable, decoded morphological cost model.
#[derive(Clone, Debug, PartialEq)]
pub struct BaselineModel {
    pub corpus_coding: CorpusEncoding,
    pub lexicon_coding: LexiconEncoding,
    pub analyses: Vec<(String, Analysis)>,
}

/// First value bound to `key` in an association list, if any.
pub open spec fn assoc_analysis(
    entries: Seq<(Seq<char>, (i64, Seq<u64>))>,
    key: Seq<char>,
) -> Option<(i64, Seq<u64>)>
    decreases entries.len(),
{
    if entries.len() == 0 {
        None
    } else if entries[0].0 == key {
        Some(entries[0].1)
    } else {
        assoc_analysis(entries.drop_first(), key)
    }
}

/// First count bound to `key` in an atom table, or 1 when the atom is
/// unseen.
pub open spec fn assoc_atom_count(entries: Seq<(Seq<char>, u64)>, key: Seq<char>) -> u64
    decreases entries.len(),
{
    if entries.len() == 0 {
        1u64
    } else if entries[0].0 == key {
        entries[0].1
    } else {
        assoc_atom_count(entries.drop_first(), key)
    }
}

/// An atom table as an association list of character sequences.
pub open spec fn atom_entries_view(s: Seq<(String, u64)>) -> Seq<(Seq<char>, u64)> {
    Seq::new(s.len(), |i: int| (s[i].0@, s[i].1))
}

/// An analyses list as an association list from construction to
/// `(count, split locations)`.
pub open spec fn analysis_entries_view(s: Seq<(String, Analysis)>) -> Seq<
    (Seq<char>, (i64, Seq<u64>)),
> {
    Seq::new(s.len(), |i: int| (s[i].0@, (s[i].1.count, s[i].1.splitloc@)))
}

impl LexiconEncoding {
    /// The atom table as an association list of character sequences.
    pub open spec fn atoms_view(self) -> Seq<(Seq<char>, u64)> {
        atom_entries_view(self.atoms@)
    }

    /// The frequency of one atom in the lexicon coding, defaulting to 1 for
    /// an unseen atom.
    pub open spec fn spec_atom_count(self, atom: char) -> u64 {
        assoc_atom_count(self.atoms_view(), seq![atom])
    }
}

impl BaselineModel {
    /// The stored analyses as an association list from construction to
    /// `(count, split locations)`.
    pub open spec fn analyses_view(self) -> Seq<(Seq<char>, (i64, Seq<u64>))> {
        analysis_entries_view(self.analyses@)
    }

    /// The stored analysis of a construction, if any.
    pub open spec fn analysis_of(self, c: Seq<char>) -> Option<(i64, Seq<u64>)> {
        assoc_analysis(self.analyses_view(), c)
    }

    /// The construction is stored as a whole lexicon item whose count is not
    /// positive — a defect of the model data.
    pub open spec fn negative_entry(self, c: Seq<char>) -> bool {
        match self.analysis_of(c) {
            Some((count, splitloc)) => (splitloc.len() == 0 || splitloc[0] == 0) && count <= 0,
            None => false,
        }
    }
}

/// How one transition of the Viterbi grid is costed: an observed whole
/// lexicon item with its stored count, an unseen single scalar value under
/// the closed lexicon, or an unseen construction to be added to the open
/// lexicon.
#[derive(Clone, Copy, Debug, PartialEq, Eq, Structural)]
pub enum TransitionKind {
    Known(i64),
    UnseenSingle,
    Novel,
}

/// One admissible transition: the construction `word[start..t]` entering the
/// boundary position `t` the transitions were enumerated for.
#[derive(Clone, Copy, Debug, PartialEq, Eq, Structural)]
pub struct Transition {
    pub start: usize,
    pub kind: TransitionKind,
}

/// The kind of transition admissible from boundary position `pt` to `t`, if
/// any: a stored whole lexicon item is costed by its count; otherwise, under
/// a closed lexicon (`add_count == 0`) only a single unseen scalar value is
/// admissible, while an open lexicon admits any unseen construction.
pub open spec fn transition_kind_at(
    m: BaselineModel,
    word: Seq<char>,
    pt: int,
    t: int,
    closed_lexicon: bool,
) -> Option<TransitionKind> {
    let c = word.subrange(pt, t);
    match m.analysis_of(c) {
        Some((count, splitloc)) => {
            if splitloc.len() == 0 || splitloc[0] == 0 {
                Some(TransitionKind::Known(count))
            } else if closed_lexicon {
                if t - pt == 1 {
                    Some(TransitionKind::UnseenSingle)
                } else {
                    None
                }
            } else {
                Some(TransitionKind::Novel)
            }
        },
        None => {
            if closed_lexicon {
                if t - pt == 1 {
                    Some(TransitionKind::UnseenSingle)
                } else {
                    None
                }
            } else {
                Some(TransitionKind::Novel)
            }
        },
    }
}

/// The lowest admissible predecessor position for boundary `t`: `max_len`
/// scalar values back, clamped at the word's start.
pub open spec fn transition_low(t: int, max_len: int) -> int {
    if t - max_len > 0 {
        t - max_len
    } else {
        0
    }
}

/// Whether `s` equals the characters of `w` between positions `a` and `b`.
fn str_eq_chars(s: &str, w: &Vec<char>, a: usize, b: usize) -> (r: bool)
    requires
        a <= b <= w@.len(),
    ensures
        r == (s@ == w@.subrange(a as int, b as int)),
{
    let n = s.unicode_len();
    if n != b - a {
        return false;
    }
    let mut i: usize = 0;
    while i < n
        invariant
            0 <= i <= n,
            n == s@.len(),
            n == b - a,
            a <= b <= w@.len(),
            forall|m: int| 0 <= m < i ==> s@[m] == w@[a + m],
        decreases n - i,
    {
        if s.get_char(i) != w[a + i] {
            proof {
                assert(w@.subrange(a as int, b as int)[i as int] == w@[a + i]);
            }
            return false;
        }
        i += 1;
    }
    proof {
        assert(s@ =~= w@.subrange(a as int, b as int));
    }
    true
}

/// Facts about an association list scanned up to a failed prefix: the
/// recursive lookup is decided by the remainder.
proof fn lemma_assoc_analysis_skip(
    entries: Seq<(Seq<char>, (i64, Seq<u64>))>,
    key: Seq<char>,
    i: int,
)
    requires
        0 <= i <= entries.len(),
        forall|m: int| 0 <= m < i ==> (#[trigger] entries[m]).0 != key,
    ensures
        assoc_analysis(entries, key) == assoc_analysis(entries.skip(i), key),
    decreases i,
{
    if i == 0 {
        assert(entries.skip(0) =~= entries);
    } else {
        assert(forall|m: int|
            0 <= m < i - 1 ==> (#[trigger] entries.drop_first()[m]).0 == entries[m + 1].0);
        lemma_assoc_analysis_skip(entries.drop_first(), key, i - 1);
        assert(entries.drop_first().skip(i - 1) =~= entries.skip(i));
    }
}

impl BaselineModel {
    /// The stored analysis of `word[a..b]`: its count and whether it has no
    /// recorded interior split point, or nothing when the construction is
    /// not in the model.
    #[verifier::loop_isolation(false)]
    pub fn lookup_analysis(&self, word: &Vec<char>, a: usize, b: usize) -> (r: Option<(i64, bool)>)
        requires
            a <= b <= word@.len(),
        ensures
            match self.analysis_of(word@.subrange(a as int, b as int)) {
                Some((count, splitloc)) => r == Some(
                    (count, splitloc.len() == 0 || splitloc[0] == 0),
                ),
                None => r is None,
            },
    {
        let ghost key = word@.subrange(a as int, b as int);
        let ghost entries = self.analyses_view();
        let n = self.analyses.len();
        let mut i: usize = 0;
        while i < n
            invariant
                0 <= i <= n,
                forall|m: int| 0 <= m < i ==> (#[trigger] entries[m]).0 != key,
            decreases n - i,
        {
            let e = &self.analyses[i];
            if str_eq_chars(e.0.as_str(), word, a, b) {
                proof {
                    lemma_assoc_analysis_skip(entries, key, i as int);
                    assert(entries.skip(i as int)[0] == entries[i as int]);
                    assert(entries.skip(i as int).len() > 0);
                    assert(entries[i as int].0 == key);
                    assert(assoc_analysis(entries.skip(i as int), key) == Some(
                        entries[i as int].1,
                    ));
                }
                let has_no_split = e.1.splitloc.len() == 0 || e.1.splitloc[0] == 0;
                proof {
                    assert(entries[i as int].1.1 == e.1.splitloc@);
                }
                return Some((e.1.count, has_no_split));
            }
            i += 1;
        }
        proof {
            lemma_assoc_analysis_skip(entries, key, n as int);
            assert(entries.skip(n as int) =~= Seq::<(Seq<char>, (i64, Seq<u64>))>::empty());
        }
        None
    }
}

impl LexiconEncoding {
    /// The frequency of `atom` in the lexicon's atom table, defaulting to 1
    /// when the atom is unseen.
    #[verifier::loop_isolation(false)]
    pub fn atom_count(&self, atom: char) -> (r: u64)
        ensures
            r == self.spec_atom_count(atom),
    {
        let ghost key = seq![atom];
        let ghost entries = self.atoms_view();
        let n = self.atoms.len();
        let mut i: usize = 0;
        while i < n
            invariant
                0 <= i <= n,
                forall|m: int| 0 <= m < i ==> (#[trigger] entries[m]).0 != key,
            decreases n - i,
        {
            let e = &self.atoms[i];
            let estr = e.0.as_str();
            let is_key = estr.unicode_len() == 1 && estr.get_char(0) == atom;
            proof {
                if is_key {
                    assert(e.0@ =~= key);
                } else if e.0@ == key {
                    assert(e.0@.len() == 1 && e.0@[0] == atom);
                }
            }
            if is_key {
                proof {
                    lemma_assoc_atom_skip(entries, key, i as int);
                    assert(entries.skip(i as int)[0] == entries[i as int]);
                    assert(entries[i as int].0 == key);
                }
                return e.1;
            }
            i += 1;
        }
        proof {
            lemma_assoc_atom_skip(entries, key, n as int);
            assert(entries.skip(n as int) =~= Seq::<(Seq<char>, u64)>::empty());
        }
        1
    }
}

/// Counterpart of [`lemma_assoc_analysis_skip`] for the atom table.
proof fn lemma_assoc_atom_skip(entries: Seq<(Seq<char>, u64)>, key: Seq<char>, i: int)
    requires
        0 <= i <= entries.len(),
        forall|m: int| 0 <= m < i ==> (#[trigger] entries[m]).0 != key,
    ensures
        assoc_atom_count(entries, key) == assoc_atom_count(entries.skip(i), key),
    decreases i,
{
    if i == 0 {
        assert(entries.skip(0) =~= entries);
    } else {
        assert(forall|m: int|
            0 <= m < i - 1 ==> (#[trigger] entries.drop_first()[m]).0 == entries[m + 1].0);
        lemma_assoc_atom_skip(entries.drop_first(), key, i - 1);
        assert(entries.drop_first().skip(i - 1) =~= entries.skip(i));
    }
}

/// All admissible transitions into boundary position `t`, in increasing
/// order of their start position, each labelled with how it is to be costed.
/// A stored whole lexicon item with a non-positive count is a model defect,
/// reported as [`SegmentError::NegativeCount`].
#[verifier::loop_isolation(false)]
pub fn viterbi_transitions(
    model: &BaselineModel,
    word: &Vec<char>,
    t: usize,
    max_len: usize,
    closed_lexicon: bool,
) -> (r: Result<Vec<Transition>, SegmentError>)
    requires
        1 <= t <= word@.len(),
    ensures
        match r {
            Ok(v) => {
                &&& forall|q: int|
                    0 <= q < v@.len() ==> transition_low(t as int, max_len as int) <= (
                    #[trigger] v@[q]).start < t
                &&& forall|q: int|
                    0 <= q < v@.len() ==> Some((#[trigger] v@[q]).kind) == transition_kind_at(
                        *model,
                        word@,
                        v@[q].start as int,
                        t as int,
                        closed_lexicon,
                    )
                &&& forall|q: int, q2: int| 0 <= q < q2 < v@.len() ==> (#[trigger] v@[q]).start < (
                #[trigger] v@[q2]).start
                &&& forall|pt: int|
                    transition_low(t as int, max_len as int) <= pt < t && (
                    #[trigger] transition_kind_at(
                        *model,
                        word@,
                        pt,
                        t as int,
                        closed_lexicon,
                    )) is Some ==> exists|q: int| 0 <= q < v@.len() && (#[trigger] v@[q]).start == pt
                &&& forall|pt: int|
                    transition_low(t as int, max_len as int) <= pt < t ==> !model.negative_entry(
                        #[trigger] word@.subrange(pt, t as int),
                    )
            },
            Err(e) => e == SegmentError::NegativeCount && exists|pt: int|
                transition_low(t as int, max_len as int) <= pt < t && model.negative_entry(
                    #[trigger] word@.subrange(pt, t as int),
                ),
        },
{
    let lo = if t > max_len {
        t - max_len
    } else {
        0
    };
    proof {
        assert(lo == transition_low(t as int, max_len as int));
    }
    let mut v: Vec<Transition> = Vec::new();
    let mut pt = lo;
    while pt < t
        invariant
            lo <= pt <= t,
            forall|q: int| 0 <= q < v@.len() ==> lo <= (#[trigger] v@[q]).start < pt,
            forall|q: int|
                0 <= q < v@.len() ==> Some((#[trigger] v@[q]).kind) == transition_kind_at(
                    *model,
                    word@,
                    v@[q].start as int,
                    t as int,
                    closed_lexicon,
                ),
            forall|q: int, q2: int| 0 <= q < q2 < v@.len() ==> (#[trigger] v@[q]).start < (
            #[trigger] v@[q2]).start,
            forall|p: int|
                lo <= p < pt && (#[trigger] transition_kind_at(
                    *model,
                    word@,
                    p,
                    t as int,
                    closed_lexicon,
                )) is Some ==> exists|q: int| 0 <= q < v@.len() && (#[trigger] v@[q]).start == p,
            forall|p: int|
                lo <= p < pt ==> !model.negative_entry(#[trigger] word@.subrange(p, t as int)),
        decreases t - pt,
    {
        let ghost v0 = v@;
        let looked = model.lookup_analysis(word, pt, t);
        match looked {
            Some((count, whole)) => {
                if whole {
                    if count <= 0 {
                        proof {
                            assert(model.negative_entry(word@.subrange(pt as int, t as int)));
                        }
                        return Err(SegmentError::NegativeCount);
                    }
                    v.push(Transition { start: pt, kind: TransitionKind::Known(count) });
                } else {
                    if closed_lexicon {
                        if t - pt == 1 {
                            v.push(Transition { start: pt, kind: TransitionKind::UnseenSingle });
                        }
                    } else {
                        v.push(Transition { start: pt, kind: TransitionKind::Novel });
                    }
                }
            },
            None => {
                if closed_lexicon {
                    if t - pt == 1 {
                        v.push(Transition { start: pt, kind: TransitionKind::UnseenSingle });
                    }
                } else {
                    v.push(Transition { start: pt, kind: TransitionKind::Novel });
                }
            },
        }
        proof {
            assert(forall|q: int| 0 <= q < v0.len() ==> v@[q] == v0[q]);
            assert forall|p: int|
                lo <= p < pt + 1 && (#[trigger] transition_kind_at(
                    *model,
                    word@,
                    p,
                    t as int,
                    closed_lexicon,
                )) is Some implies exists|q: int| 0 <= q < v@.len() && (#[trigger] v@[q]).start
                == p by {
                if p == pt {
                    assert(v@[v@.len() - 1].start == p);
                } else {
                    let q = choose|q: int| 0 <= q < v0.len() && (#[trigger] v0[q]).start == p;
                    assert(v@[q].start == p);
                }
            }
        }
        pt += 1;
    }
    Ok(v)
}

/// The spans read off a predecessor grid by backtracking from `t`: from the
/// end, each boundary's stored predecessor is the start of the span ending
/// there.
pub open spec fn pred_chain(preds: Seq<usize>, t: int) -> Seq<(usize, usize)>
    decreases t,
{
    if 0 < t < preds.len() && preds[t] < t {
        pred_chain(preds, preds[t] as int).push((preds[t], t as usize))
    } else {
        Seq::empty()
    }
}

/// A valid predecessor grid yields spans that tile `[0, t)`, none empty.
pub proof fn lemma_pred_chain_tile(preds: Seq<usize>, t: int)
    requires
        0 < t < preds.len(),
        t <= usize::MAX,
        forall|m: int| 1 <= m < preds.len() ==> (#[trigger] preds[m]) < m,
    ensures
        spans_tile(pred_chain(preds, t), t as nat),
        forall|k: int|
            0 <= k < pred_chain(preds, t).len() ==> (#[trigger] pred_chain(preds, t)[k]).0
                < pred_chain(preds, t)[k].1,
    decreases t,
{
    let chain = pred_chain(preds, t);
    let p = preds[t] as int;
    assert(chain == pred_chain(preds, p).push((preds[t], t as usize)));
    if p == 0 {
        assert(pred_chain(preds, 0) =~= Seq::<(usize, usize)>::empty());
        assert(chain.len() == 1);
        assert(chain[0].0 == preds[t] && chain[0].1 == t);
    } else {
        lemma_pred_chain_tile(preds, p);
        let sub = pred_chain(preds, p);
        assert(forall|k: int| 0 <= k < sub.len() ==> #[trigger] chain[k] == sub[k]);
        assert(chain[chain.len() - 1].0 == preds[t] && chain[chain.len() - 1].1 == t);
        assert(sub[sub.len() - 1].1 == p);
        assert(spans_tile(chain, t as nat)) by {
            assert(chain[0].0 == sub[0].0);
        }
    }
}

/// Backtrack a predecessor grid for a word of `n` scalar values into the
/// ordered spans of the chosen segmentation. The grid must have one entry
/// per boundary position, each pointing strictly backwards, and the word
/// must be non-empty; any other grid is an [`SegmentError::InvalidGrid`].
#[verifier::loop_isolation(false)]
pub fn backtrack_spans(preds: &Vec<usize>, n: usize) -> (r: Result<
    Vec<(usize, usize)>,
    SegmentError,
>)
    ensures
        (r is Ok) == (n >= 1 && preds@.len() == n + 1 && forall|m: int|
            1 <= m <= n ==> (#[trigger] preds@[m]) < m),
        r matches Err(e) ==> e == SegmentError::InvalidGrid,
        r matches Ok(v) ==> {
            &&& v@ == pred_chain(preds@, n as int)
            &&& spans_tile(v@, n as nat)
            &&& forall|k: int| 0 <= k < v@.len() ==> (#[trigger] v@[k]).0 < v@[k].1
        },
{
    if n < 1 || preds.len() == 0 || preds.len() - 1 != n {
        return Err(SegmentError::InvalidGrid);
    }
    let mut m: usize = 1;
    while m <= n
        invariant
            1 <= m <= n + 1,
            preds@.len() == n + 1,
            forall|q: int| 1 <= q < m ==> (#[trigger] preds@[q]) < q,
        decreases n + 1 - m,
    {
        if preds[m] >= m {
            return Err(SegmentError::InvalidGrid);
        }
        m += 1;
    }

    let mut rev: Vec<(usize, usize)> = Vec::new();
    let mut tcur = n;
    while tcur > 0
        invariant
            0 <= tcur <= n,
            preds@.len() == n + 1,
            forall|q: int| 1 <= q <= n ==> (#[trigger] preds@[q]) < q,
            pred_chain(preds@, n as int) == pred_chain(preds@, tcur as int) + rev@.reverse(),
        decreases tcur,
    {
        let ghost rev0 = rev@;
        let p = preds[tcur];
        rev.push((p, tcur));
        proof {
            assert(rev@ =~= rev0.push((p, tcur)));
            assert(rev@.reverse() =~= seq![(p, tcur)] + rev0.reverse());
            assert(pred_chain(preds@, tcur as int) == pred_chain(preds@, p as int).push(
                (p, tcur),
            ));
            assert(pred_chain(preds@, p as int) + rev@.reverse() =~= pred_chain(
                preds@,
                tcur as int,
            ) + rev0.reverse());
        }
        tcur = p;
    }
    proof {
        assert(pred_chain(preds@, 0) =~= Seq::<(usize, usize)>::empty());
        assert(pred_chain(preds@, n as int) =~= rev@.reverse());
    }

    let mut spans: Vec<(usize, usize)> = Vec::new();
    let len = rev.len();
    let mut i: usize = 0;
    while i < len
        invariant
            0 <= i <= len,
            len == rev@.len(),
            spans@.len() == i,
            forall|k: int| 0 <= k < i ==> (#[trigger] spans@[k]) == rev@[len - 1 - k],
        decreases len - i,
    {
        spans.push(rev[len - 1 - i]);
        i += 1;
    }
    proof {
        assert(spans@ =~= rev@.reverse());
        lemma_pred_chain_tile(preds@, n as int);
    }
    Ok(spans)
}

/// The strings of a word's spans: element `k` holds the characters of
/// `word[spans[k].0 .. spans[k].1]`.
pub fn construction_strings(word: &Vec<char>, spans: &Vec<(usize, usize)>) -> (r: Vec<String>)
    requires
        forall|k: int| 0 <= k < spans@.len() ==> (#[trigger] spans@[k]).0 <= spans@[k].1
            <= word@.len(),
    ensures
        r.deep_view().len() == spans@.len(),
        forall|k: int|
            0 <= k < spans@.len() ==> #[trigger] r.deep_view()[k] == word@.subrange(
                spans@[k].0 as int,
                spans@[k].1 as int,
            ),
{
    let mut r: Vec<String> = Vec::new();
    let n = spans.len();
    let mut k: usize = 0;
    while k < n
        invariant
            0 <= k <= n,
            n == spans@.len(),
            forall|q: int| 0 <= q < spans@.len() ==> (#[trigger] spans@[q]).0 <= spans@[q].1
                <= word@.len(),
            r.deep_view().len() == k,
            forall|q: int|
                0 <= q < k ==> #[trigger] r.deep_view()[q] == word@.subrange(
                    spans@[q].0 as int,
                    spans@[q].1 as int,
                ),
        decreases n - k,
    {
        let ghost deep0 = r.deep_view();
        let (a, b) = spans[k];
        let mut piece: Vec<char> = Vec::new();
        let mut idx = a;
        while idx < b
            invariant
                a <= idx <= b <= word@.len(),
                piece@ == word@.subrange(a as int, idx as int),
            decreases b - idx,
        {
            piece.push(word[idx]);
            proof {
                assert(word@.subrange(a as int, idx + 1) =~= word@.subrange(
                    a as int,
                    idx as int,
                ).push(word@[idx as int]));
            }
            idx += 1;
        }
        r.push(chars_to_string(&piece));
        proof {
            assert(r.deep_view() =~= deep0.push(word@.subrange(spans@[k as int].0 as int, spans@[
                k as int].1 as int)));
        }
        k += 1;
    }
    r
}

/// Relies on `String`'s `FromIterator<char>`: collecting characters yields
/// the string of exactly those characters.
#[verifier::external_body]
fn chars_to_string(v: &Vec<char>) -> (s: String)
    ensures
        s@ == v@,
{
    v.iter().collect()
}

/// Whether two adjacent segments both hold a single scalar value.
pub open spec fn has_adjacent_single_scalars(segs: Seq<Seq<char>>) -> bool {
    exists|k: int|
        0 <= k < segs.len() - 1 && (#[trigger] segs[k]).len() == 1 && segs[k + 1].len() == 1
}

/// Whether the candidate segmentation contains two adjacent single-scalar
/// segments.
pub fn reject_single_char_pairs(segments: &Vec<String>) -> (r: bool)
    ensures
        r == has_adjacent_single_scalars(segments.deep_view()),
{
    let n = segments.len();
    if n < 2 {
        return false;
    }
    let mut k: usize = 0;
    while k < n - 1
        invariant
            0 <= k <= n - 1,
            n == segments@.len(),
            forall|q: int|
                0 <= q < k ==> !((#[trigger] segments.deep_view()[q]).len() == 1
                    && segments.deep_view()[q + 1].len() == 1),
        decreases n - k,
    {
        if segments[k].as_str().unicode_len() == 1 && segments[k + 1].as_str().unicode_len()
            == 1 {
            proof {
                assert(segments.deep_view()[k as int].len() == 1);
                assert(segments.deep_view()[k + 1].len() == 1);
            }
            return true;
        }
        k += 1;
    }
    false
}

/// Apply the acceptance policy to a candidate segmentation of `message` and
/// produce the final byte spans: a segmentation whose total cost exceeded
/// the rejection threshold, or that contains two adjacent single-scalar
/// segments while those are rejected, is discarded in favor of the whole
/// word unsplit; otherwise the segment boundaries are converted from
/// scalar-value counts to byte offsets.
pub fn finalize_segmentation(
    message: &str,
    segments: &Vec<String>,
    over_threshold: bool,
    reject_single: bool,
) -> (r: Vec<(usize, usize)>)
    requires
        chars_total(segments.deep_view()) == message@.len(),
        segments@.len() > 0,
    ensures
        spans_tile(r@, utf8_len(message@)),
        (over_threshold || (reject_single && has_adjacent_single_scalars(segments.deep_view())))
            ==> r@.len() == 1 && r@[0].0 == 0 && r@[0].1 == utf8_len(message@),
        !(over_threshold || (reject_single && has_adjacent_single_scalars(segments.deep_view())))
            ==> {
            &&& r@.len() == segments@.len()
            &&& forall|k: int|
                0 <= k < r@.len() ==> #[trigger] r@[k] == (
                    utf8_prefix(message@, chars_total(segments.deep_view().take(k)) as int)
                        as usize,
                    utf8_prefix(message@, chars_total(segments.deep_view().take(k + 1)) as int)
                        as usize,
                )
            &&& forall|k: int|
                0 <= k < r@.len() && (#[trigger] segments.deep_view()[k]).len() > 0 ==> r@[k].0
                    < r@[k].1
        },
{
    let byte_len = str_byte_len(message);
    proof {
        crate::offsets::lemma_utf8_len_ge_count(message@);
    }
    if over_threshold {
        let mut whole: Vec<(usize, usize)> = Vec::new();
        whole.push((0, byte_len));
        return whole;
    }
    if reject_single && reject_single_char_pairs(segments) {
        let mut whole: Vec<(usize, usize)> = Vec::new();
        whole.push((0, byte_len));
        return whole;
    }
    let character_offsets = collect_scalar_offsets(clone_strings(segments));
    proof {
        let segs = segments.deep_view();
        let offs = character_offsets@;
        assert(segs.take(segs.len() as int) =~= segs);
        assert(segs.take(0) =~= Seq::<Seq<char>>::empty());
        assert(spans_tile(offs, message@.len())) by {
            assert forall|k: int| 0 <= k < offs.len() implies (#[trigger] offs[k]).0 <= offs[k].1
                <= message@.len() by {
                lemma_chars_total_step(segs, k);
                lemma_chars_total_le(segs, k + 1);
            }
        }
    }
    let byte_spans = scalar_to_byte_offsets(message, character_offsets);
    proof {
        let segs = segments.deep_view();
        let offs = character_offsets@;
        assert forall|k: int|
            0 <= k < byte_spans@.len() && (#[trigger] segs[k]).len() > 0 implies byte_spans@[k].0
            < byte_spans@[k].1 by {
            lemma_chars_total_step(segs, k);
            assert(offs[k].0 < offs[k].1);
            crate::offsets::lemma_utf8_prefix_add(message@, offs[k].0 as int, offs[k].1 as int);
            crate::offsets::lemma_utf8_len_ge_count(
                message@.subrange(offs[k].0 as int, offs[k].1 as int),
            );
        }
    }
    byte_spans
}

/// A fresh copy of a vector of strings.
fn clone_strings(v: &Vec<String>) -> (r: Vec<String>)
    ensures
        r.deep_view() == v.deep_view(),
        r@.len() == v@.len(),
{
    let mut r: Vec<String> = Vec::new();
    let n = v.len();
    let mut i: usize = 0;
    while i < n
        invariant
            0 <= i <= n,
            n == v@.len(),
            r@.len() == i,
            forall|m: int| 0 <= m < i ==> #[trigger] r.deep_view()[m] == v.deep_view()[m],
        decreases n - i,
    {
        let ghost deep0 = r.deep_view();
        r.push(v[i].clone());
        proof {
            assert(r.deep_view() =~= deep0.push(v.deep_view()[i as int]));
        }
        i += 1;
    }
    proof {
        assert(r.deep_view() =~= v.deep_view());
    }
    r
}

} // verus!
