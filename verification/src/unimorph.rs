//! A bidirectional lemma/surface-form inflection dictionary with per-pair
//! grammatical feature tags, built once from a tab-separated lexicon resource
//! of `(lemma, form, features)` rows and immutable thereafter.
//!
//! The mathematical model is the sequence of rows in insertion order; the
//! lookups are specified as predicates over it.

use vstd::prelude::*;

use crate::errors::DictionaryLoadError;

verus! {

/// What csv's reader parses tab-separated text into: the records, each a
/// sequence of fields, or nothing when the text is malformed. The result
/// depends on the text alone.
pub uninterp spec fn tsv_records(text: Seq<char>) -> Option<Seq<Seq<Seq<char>>>>;

/// Relies on csv's `ReaderBuilder`/`Reader`: parsing of tab-separated text
/// (no header row) into its string records.
#[verifier::external_body]
fn parse_tsv(text: &str) -> (r: Option<Vec<Vec<String>>>)
    ensures
        match r {
            Some(v) => tsv_records(text@) == Some(v.deep_view()),
            None => tsv_records(text@) is None,
        },
{
    let mut rdr = csv::ReaderBuilder::new().delimiter(b'\t').has_headers(false).from_reader(
        text.as_bytes(),
    );
    let mut out: Vec<Vec<String>> = Vec::new();
    for result in rdr.records() {
        match result {
            Ok(rec) => out.push(rec.iter().map(|f| f.to_string()).collect()),
            Err(_) => return None,
        }
    }
    Some(out)
}

/// Character-wise string equality.
fn str_eq(a: &str, b: &str) -> (r: bool)
    ensures
        r == (a@ == b@),
{
    let na = a.unicode_len();
    let nb = b.unicode_len();
    if na != nb {
        return false;
    }
    let mut i: usize = 0;
    while i < na
        invariant
            0 <= i <= na,
            na == a@.len() && na == b@.len(),
            forall|m: int| 0 <= m < i ==> a@[m] == b@[m],
        decreases na - i,
    {
        if a.get_char(i) != b.get_char(i) {
            return false;
        }
        i += 1;
    }
    proof {
        assert(a@ =~= b@);
    }
    true
}

/// Whether some element of `v` has the same characters as `x`.
fn contains_str(v: &Vec<String>, x: &str) -> (r: bool)
    ensures
        r == v.deep_view().contains(x@),
{
    let n = v.len();
    let mut i: usize = 0;
    while i < n
        invariant
            0 <= i <= n,
            n == v@.len(),
            forall|m: int| 0 <= m < i ==> v.deep_view()[m] != x@,
        decreases n - i,
    {
        if str_eq(v[i].as_str(), x) {
            proof {
                assert(v.deep_view()[i as int] == x@);
            }
            return true;
        }
        i += 1;
    }
    proof {
        if v.deep_view().contains(x@) {
            let m = choose|m: int| 0 <= m < v.deep_view().len() && v.deep_view()[m] == x@;
        }
    }
    false
}

/// No two elements hold the same characters.
pub open spec fn distinct_views(v: Seq<Seq<char>>) -> bool {
    forall|i: int, j: int| 0 <= i < j < v.len() ==> v[i] != v[j]
}

/// Membership in a sequence extended by one element.
proof fn lemma_push_contains(v: Seq<Seq<char>>, x: Seq<char>, l: Seq<char>)
    ensures
        v.push(x).contains(l) <==> (v.contains(l) || l == x),
{
    if v.contains(l) {
        let idx = choose|idx: int| 0 <= idx < v.len() && v[idx] == l;
        assert(v.push(x)[idx] == l);
    }
    if l == x {
        assert(v.push(x)[v.len() as int] == l);
    }
    if v.push(x).contains(l) {
        let idx = choose|idx: int| 0 <= idx < v.push(x).len() && v.push(x)[idx] == l;
        if idx < v.len() {
            assert(v[idx] == l);
        }
    }
}

/// The inflection dictionary: `(lemma, form, features)` rows in insertion
/// order, indexed by the lookups below.
pub struct Unimorph {
    language: String,
    entries: Vec<(String, String, String)>,
}

impl Unimorph {
    /// The dictionary's rows, each a `(lemma, form, feature tags)` triple, in
    /// insertion order.
    pub closed spec fn rows(self) -> Seq<(Seq<char>, Seq<char>, Seq<char>)> {
        Seq::new(
            self.entries@.len(),
            |i: int| (self.entries@[i].0@, self.entries@[i].1@, self.entries@[i].2@),
        )
    }

    /// Some row maps `lemma` to the surface form `form`.
    pub open spec fn has_row(self, lemma: Seq<char>, form: Seq<char>) -> bool {
        exists|i: int|
            0 <= i < self.rows().len() && (#[trigger] self.rows()[i]).0 == lemma
                && self.rows()[i].1 == form
    }

    /// Some row maps `lemma` to `form` with exactly the feature tags
    /// `features`.
    pub open spec fn has_feature_row(
        self,
        lemma: Seq<char>,
        form: Seq<char>,
        features: Seq<char>,
    ) -> bool {
        exists|i: int|
            0 <= i < self.rows().len() && (#[trigger] self.rows()[i]).0 == lemma
                && self.rows()[i].1 == form && self.rows()[i].2 == features
    }

    /// The lemmas of which `form` is a registered surface form.
    pub open spec fn analyze_set(self, form: Seq<char>) -> Set<Seq<char>> {
        Set::new(|lemma: Seq<char>| self.has_row(lemma, form))
    }

    /// The surface forms of `lemma`: all of them when `features` is empty,
    /// otherwise only those with a feature-tag row exactly matching
    /// `features`.
    pub open spec fn inflect_set(self, lemma: Seq<char>, features: Seq<char>) -> Set<Seq<char>> {
        Set::new(
            |form: Seq<char>|
                self.has_row(lemma, form) && (features.len() == 0 || self.has_feature_row(
                    lemma,
                    form,
                    features,
                )),
        )
    }

    /// The feature-tag strings recorded for the pair `(lemma, form)`, in
    /// insertion order.
    pub open spec fn features_of(self, lemma: Seq<char>, form: Seq<char>) -> Seq<Seq<char>> {
        self.rows().filter(
            |r: (Seq<char>, Seq<char>, Seq<char>)| r.0 == lemma && r.1 == form,
        ).map_values(|r: (Seq<char>, Seq<char>, Seq<char>)| r.2)
    }

    /// An empty dictionary.
    pub fn new() -> (r: Unimorph)
        ensures
            r.rows() == Seq::<(Seq<char>, Seq<char>, Seq<char>)>::empty(),
    {
        let r = Unimorph { language: String::new(), entries: Vec::new() };
        proof {
            assert(r.rows() =~= Seq::<(Seq<char>, Seq<char>, Seq<char>)>::empty());
        }
        r
    }

    /// What [`Unimorph::init`] does, as a relation between the dictionary
    /// before and after the call: text that does not parse, or a parsed row
    /// with fewer than the three required fields, is an error that leaves the
    /// dictionary unchanged; otherwise every row's first three fields are
    /// appended as a `(lemma, form, features)` entry.
    pub open spec fn init_result(
        pre: Unimorph,
        post: Unimorph,
        text: Seq<char>,
        r: Result<(), DictionaryLoadError>,
    ) -> bool {
        match tsv_records(text) {
            None => r == Err::<(), DictionaryLoadError>(DictionaryLoadError::Parse) && post == pre,
            Some(recs) => {
                if exists|k: int| 0 <= k < recs.len() && (#[trigger] recs[k]).len() < 3 {
                    r == Err::<(), DictionaryLoadError>(DictionaryLoadError::MalformedRow) && post
                        == pre
                } else {
                    r == Ok::<(), DictionaryLoadError>(()) && post.rows() == pre.rows()
                        + recs.map_values(|rec: Seq<Seq<char>>| (rec[0], rec[1], rec[2]))
                }
            },
        }
    }

    /// Populate the dictionary from the text of a tab-separated lexicon
    /// resource, one `(lemma, form, features)` row per line, no header. Text
    /// that does not parse, or a row with fewer than three fields, is a
    /// [`DictionaryLoadError`] and leaves the dictionary unchanged.
    #[verifier::loop_isolation(false)]
    pub fn init(&mut self, dict: &str) -> (r: Result<(), DictionaryLoadError>)
        ensures
            Unimorph::init_result(*old(self), *final(self), dict@, r),
    {
        let parsed = parse_tsv(dict);
        match parsed {
            None => Err(DictionaryLoadError::Parse),
            Some(records) => {
                let ghost recs = records.deep_view();
                let n = records.len();
                proof {
                    assert(recs.len() == records@.len());
                }
                let mut k: usize = 0;
                while k < n
                    invariant
                        0 <= k <= n,
                        n == records@.len(),
                        recs == records.deep_view(),
                        forall|m: int| 0 <= m < k ==> (#[trigger] recs[m]).len() >= 3,
                    decreases n - k,
                {
                    if records[k].len() < 3 {
                        proof {
                            let ki = k as int;
                            assert(recs[ki] == records@[ki].deep_view());
                            assert(0 <= ki < recs.len() && recs[ki].len() < 3);
                            assert(exists|kk: int|
                                0 <= kk < recs.len() && (#[trigger] recs[kk]).len() < 3);
                            assert(tsv_records(dict@) == Some(recs));
                            assert(*self == *old(self));
                            let recs_b = tsv_records(dict@)->0;
                            assert(recs_b == recs);
                            assert(0 <= ki < recs_b.len() && recs_b[ki].len() < 3);
                            assert(exists|kk: int|
                                0 <= kk < recs_b.len() && (#[trigger] recs_b[kk]).len() < 3);
                            assert(Unimorph::init_result(
                                *old(self),
                                *self,
                                dict@,
                                Err::<(), DictionaryLoadError>(DictionaryLoadError::MalformedRow),
                            ));
                        }
                        return Err(DictionaryLoadError::MalformedRow);
                    }
                    k += 1;
                }
                let ghost rows0 = self.rows();
                let ghost target = recs.map_values(
                    |rec: Seq<Seq<char>>| (rec[0], rec[1], rec[2]),
                );
                proof {
                    assert(rows0 + target.take(0) =~= rows0);
                }
                let mut k: usize = 0;
                while k < n
                    invariant
                        0 <= k <= n,
                        n == records@.len(),
                        recs == records.deep_view(),
                        forall|m: int| 0 <= m < n ==> (#[trigger] recs[m]).len() >= 3,
                        target == recs.map_values(
                            |rec: Seq<Seq<char>>| (rec[0], rec[1], rec[2]),
                        ),
                        self.rows() == rows0 + target.take(k as int),
                    decreases n - k,
                {
                    let ghost rows_before = self.rows();
                    let rec = &records[k];
                    proof {
                        assert(rec.deep_view() == recs[k as int]);
                        assert(rec@.len() == recs[k as int].len());
                    }
                    let lemma = rec[0].clone();
                    let form = rec[1].clone();
                    let features = rec[2].clone();
                    proof {
                        let ki = k as int;
                        assert(recs[ki][0] == lemma@ && recs[ki][1] == form@ && recs[ki][2]
                            == features@);
                    }
                    self.entries.push((lemma, form, features));
                    proof {
                        assert(self.rows() =~= rows_before.push(
                            (recs[k as int][0], recs[k as int][1], recs[k as int][2]),
                        ));
                        assert(target[k as int] == (
                            recs[k as int][0],
                            recs[k as int][1],
                            recs[k as int][2],
                        ));
                        assert(rows0 + target.take(k + 1) =~= (rows0 + target.take(k as int)).push(
                            target[k as int],
                        ));
                    }
                    k += 1;
                }
                proof {
                    assert(target.take(n as int) =~= target);
                }
                Ok(())
            },
        }
    }

    /// All lemmas of which `form` is a registered surface form, each once, in
    /// first-seen order. An unknown form yields no lemmas, not an error.
    pub fn analyze(&self, form: &str) -> (r: Vec<String>)
        ensures
            r.deep_view().to_set() == self.analyze_set(form@),
            distinct_views(r.deep_view()),
    {
        let mut result: Vec<String> = Vec::new();
        let n = self.entries.len();
        let mut i: usize = 0;
        while i < n
            invariant
                0 <= i <= n,
                n == self.rows().len(),
                distinct_views(result.deep_view()),
                forall|l: Seq<char>|
                    result.deep_view().contains(l) ==> exists|m: int|
                        0 <= m < i && (#[trigger] self.rows()[m]).1 == form@ && self.rows()[m].0
                            == l,
                forall|m: int|
                    0 <= m < i && (#[trigger] self.rows()[m]).1 == form@
                        ==> result.deep_view().contains(self.rows()[m].0),
            decreases n - i,
        {
            let ghost deep0 = result.deep_view();
            let e = &self.entries[i];
            proof {
                assert(self.rows()[i as int].0 == e.0@ && self.rows()[i as int].1 == e.1@
                    && self.rows()[i as int].2 == e.2@);
            }
            if str_eq(e.1.as_str(), form) {
                if !contains_str(&result, e.0.as_str()) {
                    let ghost x = self.rows()[i as int].0;
                    result.push(e.0.clone());
                    proof {
                        assert(result.deep_view() =~= deep0.push(x));
                        assert forall|l: Seq<char>| #[trigger]
                            result.deep_view().contains(l) implies deep0.contains(l) || l == x by {
                            lemma_push_contains(deep0, x, l);
                        }
                        assert forall|l: Seq<char>|
                            deep0.contains(l) || l == x implies #[trigger] result.deep_view()
                            .contains(l) by {
                            lemma_push_contains(deep0, x, l);
                        }
                    }
                }
            }
            i += 1;
        }
        proof {
            assert(result.deep_view().to_set() =~= self.analyze_set(form@));
        }
        result
    }

    /// Whether some row carries exactly these feature tags for the pair.
    fn find_feature_row(&self, lemma: &str, form: &str, features: &str) -> (r: bool)
        ensures
            r == self.has_feature_row(lemma@, form@, features@),
    {
        let n = self.entries.len();
        let mut i: usize = 0;
        while i < n
            invariant
                0 <= i <= n,
                n == self.rows().len(),
                forall|m: int|
                    0 <= m < i ==> !((#[trigger] self.rows()[m]).0 == lemma@ && self.rows()[m].1
                        == form@ && self.rows()[m].2 == features@),
            decreases n - i,
        {
            let e = &self.entries[i];
            if str_eq(e.0.as_str(), lemma) && str_eq(e.1.as_str(), form) && str_eq(
                e.2.as_str(),
                features,
            ) {
                proof {
                    assert((#[trigger] self.rows()[i as int]).0 == lemma@);
                }
                return true;
            }
            i += 1;
        }
        false
    }

    /// All surface forms of `lemma`, each once, in first-seen order: all its
    /// known forms when `features` is empty, otherwise only the forms with a
    /// recorded feature-tag row exactly matching `features`.
    pub fn inflect(&self, lemma: &str, features: &str) -> (r: Vec<String>)
        ensures
            r.deep_view().to_set() == self.inflect_set(lemma@, features@),
            distinct_views(r.deep_view()),
    {
        let mut result: Vec<String> = Vec::new();
        let n = self.entries.len();
        let no_features = features.is_empty();
        proof {
            assert(no_features == (features@.len() == 0));
        }
        let mut i: usize = 0;
        while i < n
            invariant
                0 <= i <= n,
                n == self.rows().len(),
                no_features == (features@.len() == 0),
                distinct_views(result.deep_view()),
                forall|f: Seq<char>|
                    result.deep_view().contains(f) ==> (exists|m: int|
                        0 <= m < i && (#[trigger] self.rows()[m]).0 == lemma@ && self.rows()[m].1
                            == f) && (no_features || self.has_feature_row(lemma@, f, features@)),
                forall|m: int|
                    0 <= m < i && (#[trigger] self.rows()[m]).0 == lemma@ && (no_features
                        || self.has_feature_row(lemma@, self.rows()[m].1, features@))
                        ==> result.deep_view().contains(self.rows()[m].1),
            decreases n - i,
        {
            let ghost deep0 = result.deep_view();
            let e = &self.entries[i];
            proof {
                assert(self.rows()[i as int].0 == e.0@ && self.rows()[i as int].1 == e.1@
                    && self.rows()[i as int].2 == e.2@);
            }
            if str_eq(e.0.as_str(), lemma) {
                if !contains_str(&result, e.1.as_str()) {
                    let matched = no_features || self.find_feature_row(
                        lemma,
                        e.1.as_str(),
                        features,
                    );
                    if matched {
                        let ghost x = self.rows()[i as int].1;
                        result.push(e.1.clone());
                        proof {
                            assert(result.deep_view() =~= deep0.push(x));
                            assert forall|f: Seq<char>| #[trigger]
                                result.deep_view().contains(f) implies deep0.contains(f) || f
                                == x by {
                                lemma_push_contains(deep0, x, f);
                            }
                            assert forall|f: Seq<char>|
                                deep0.contains(f) || f == x implies #[trigger] result.deep_view()
                                .contains(f) by {
                                lemma_push_contains(deep0, x, f);
                            }
                        }
                    }
                }
            }
            i += 1;
        }
        proof {
            assert(result.deep_view().to_set() =~= self.inflect_set(lemma@, features@));
        }
        result
    }

    /// The feature-tag strings recorded for `(lemma, form)`, in insertion
    /// order; empty if the pair is absent.
    pub fn features(&self, lemma: &str, form: &str) -> (r: Vec<String>)
        ensures
            r.deep_view() == self.features_of(lemma@, form@),
    {
        let ghost pred = |r: (Seq<char>, Seq<char>, Seq<char>)| r.0 == lemma@ && r.1 == form@;
        let mut result: Vec<String> = Vec::new();
        let n = self.entries.len();
        proof {
            reveal(Seq::filter);
            assert(self.rows().take(0).filter(pred) =~= Seq::<
                (Seq<char>, Seq<char>, Seq<char>),
            >::empty());
            assert(result.deep_view() =~= self.rows().take(0).filter(pred).map_values(
                |r: (Seq<char>, Seq<char>, Seq<char>)| r.2,
            ));
        }
        let mut i: usize = 0;
        while i < n
            invariant
                0 <= i <= n,
                n == self.rows().len(),
                pred == (|r: (Seq<char>, Seq<char>, Seq<char>)| r.0 == lemma@ && r.1 == form@),
                result.deep_view() == self.rows().take(i as int).filter(pred).map_values(
                    |r: (Seq<char>, Seq<char>, Seq<char>)| r.2,
                ),
            decreases n - i,
        {
            let ghost deep0 = result.deep_view();
            let ghost taken = self.rows().take(i as int);
            let e = &self.entries[i];
            proof {
                reveal(Seq::filter);
                assert(self.rows()[i as int].0 == e.0@ && self.rows()[i as int].1 == e.1@
                    && self.rows()[i as int].2 == e.2@);
                assert(self.rows().take(i + 1).drop_last() =~= taken);
                assert(self.rows().take(i + 1).last() == self.rows()[i as int]);
            }
            if str_eq(e.0.as_str(), lemma) && str_eq(e.1.as_str(), form) {
                result.push(e.2.clone());
                proof {
                    reveal(Seq::filter);
                    assert(pred(self.rows()[i as int]));
                    assert(self.rows().take(i + 1).filter(pred) == taken.filter(pred).push(
                        self.rows()[i as int],
                    ));
                    assert(result.deep_view() =~= deep0.push(self.rows()[i as int].2));
                    assert(result.deep_view() =~= self.rows().take(i + 1).filter(pred).map_values(
                        |r: (Seq<char>, Seq<char>, Seq<char>)| r.2,
                    ));
                }
            } else {
                proof {
                    reveal(Seq::filter);
                    assert(!pred(self.rows()[i as int]));
                    assert(self.rows().take(i + 1).filter(pred) == taken.filter(pred));
                }
            }
            i += 1;
        }
        proof {
            assert(self.rows().take(n as int) =~= self.rows());
        }
        result
    }
}

} // verus!
