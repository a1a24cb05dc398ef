//! The dictionary-driven segmenter: a per-query compressed trie is built
//! from the query word and its paradigm neighbors, and the branch-split walk
//! turns the points where the paradigm members diverge into segment
//! boundaries.

use vstd::prelude::*;

use crate::offsets::{
    lemma_utf8_len_ge_count, scalar_to_byte_offsets, spans_tile, str_byte_len, str_chars,
    utf8_len, utf8_prefix,
};
use crate::segmenter::Segmenter;
use crate::trie::{
    branch_split_walk, cuts_are_branch_points, lemma_contains_has_path, CompressedTrie,
};
use crate::unimorph::Unimorph;

verus! {

/// Whether `a` is a character-wise prefix of `b`.
fn is_char_prefix(a: &Vec<char>, b: &Vec<char>) -> (r: bool)
    ensures
        r == a@.is_prefix_of(b@),
{
    let na = a.len();
    let nb = b.len();
    if na > nb {
        return false;
    }
    let mut i: usize = 0;
    while i < na
        invariant
            0 <= i <= na <= nb,
            na == a@.len() && nb == b@.len(),
            forall|m: int| 0 <= m < i ==> a@[m] == b@[m],
        decreases na - i,
    {
        if a[i] != b[i] {
            proof {
                assert(!a@.is_prefix_of(b@)) by {
                    if a@.is_prefix_of(b@) {
                        assert(b@.subrange(0, na as int)[i as int] == a@[i as int]);
                    }
                }
            }
            return false;
        }
        i += 1;
    }
    proof {
        assert(a@ =~= b@.subrange(0, na as int));
    }
    true
}

/// Whether the two vectors hold the same characters.
fn char_vecs_equal(a: &Vec<char>, b: &Vec<char>) -> (r: bool)
    ensures
        r == (a@ == b@),
{
    if a.len() != b.len() {
        return false;
    }
    let r = is_char_prefix(a, b);
    proof {
        if a@.is_prefix_of(b@) {
            assert(a@ =~= b@);
        }
        if a@ == b@ {
            assert(a@.is_prefix_of(b@)) by {
                assert(a@ =~= b@.subrange(0, a@.len() as int));
            }
        }
    }
    r
}

/// The two sequences are related by prefix: one begins with the other.
pub open spec fn prefix_related(a: Seq<char>, b: Seq<char>) -> bool {
    a.is_prefix_of(b) || b.is_prefix_of(a)
}

/// A paradigm sibling that is informative for segmenting `w`: a surface form
/// of one of `w`'s lemmas, other than `w` itself, related to it by prefix.
/// Only such forms can witness a shared stem or a diverging affix.
pub open spec fn informative_form(u: Unimorph, w: Seq<char>, f: Seq<char>) -> bool {
    &&& exists|l: Seq<char>|
        #[trigger] u.inflect_set(l, Seq::<char>::empty()).contains(f) && u.analyze_set(
            w,
        ).contains(l)
    &&& f != w
    &&& prefix_related(f, w)
}

/// The per-query trie of the paradigm-based segmenter: a well-formed
/// compressed trie holding exactly the query word and its informative
/// paradigm siblings.
pub open spec fn paradigm_trie(u: Unimorph, w: Seq<char>, t: CompressedTrie) -> bool {
    &&& t.wf()
    &&& forall|s: Seq<char>| #[trigger] t.contains(s) <==> (s == w || informative_form(u, w, s))
}

/// The byte spans `r` are the branch-split segmentation of `w` against the
/// trie `t`: there is a boundary list in scalar-value units that tiles the
/// word, cuts exactly at the branch points `w` passes in `t`, and converts
/// position-wise to `r`.
pub open spec fn byte_spans_of_cuts(t: CompressedTrie, w: Seq<char>, r: Seq<(usize, usize)>) -> bool {
    exists|v: Seq<(usize, usize)>|
        {
            &&& #[trigger] spans_tile(v, w.len())
            &&& cuts_are_branch_points(t.children@, w, v)
            &&& r.len() == v.len()
            &&& forall|k: int|
                0 <= k < r.len() ==> (#[trigger] r[k]).0 == utf8_prefix(w, v[k].0 as int)
                    && r[k].1 == utf8_prefix(w, v[k].1 as int)
        }
}

/// A form covered by the first `upto` lemmas of the query's analysis.
spec fn processed_form(u: Unimorph, lemmas_d: Seq<Seq<char>>, upto: int, f: Seq<char>) -> bool {
    exists|j: int|
        0 <= j < upto && u.inflect_set(#[trigger] lemmas_d[j], Seq::<char>::empty()).contains(f)
}

/// The paradigm-based segmenter: splits a word where the known inflected
/// forms of its lemmas diverge from it.
pub struct TreeSplit {
    pub unimorph: Unimorph,
}

impl Segmenter for TreeSplit {
    /// Segment `message` against its paradigm: the word's lemmas are looked
    /// up, every paradigm sibling that is prefix-related to the word is
    /// inserted into a fresh compressed trie beside the word itself, and the
    /// branch-split walk cuts the word at the points of divergence. A word
    /// the dictionary has never seen is returned whole, as the single span
    /// `(0, byte length)`.
    fn segment(&self, message: &str) -> (r: Vec<(usize, usize)>)
        ensures
            self.unimorph.analyze_set(message@).is_empty() ==> r@.len() == 1 && r@[0].0 == 0
                && r@[0].1 == utf8_len(message@),
            !self.unimorph.analyze_set(message@).is_empty() ==> exists|t: CompressedTrie|
                #[trigger] paradigm_trie(self.unimorph, message@, t) && byte_spans_of_cuts(
                    t,
                    message@,
                    r@,
                ),
            forall|k: int| 0 <= k < r@.len() - 1 ==> (#[trigger] r@[k]).0 < r@[k].1,
    {
        let ghost w = message@;
        let ghost u = self.unimorph;
        let chars = str_chars(message);
        let lemmas = self.unimorph.analyze(message);
        let ghost lemmas_d = lemmas.deep_view();
        if lemmas.is_empty() {
            proof {
                assert(u.analyze_set(w) =~= lemmas_d.to_set());
            }
            let blen = str_byte_len(message);
            let mut whole: Vec<(usize, usize)> = Vec::new();
            whole.push((0, blen));
            return whole;
        }
        proof {
            assert(!u.analyze_set(w).is_empty()) by {
                assert(lemmas_d.contains(lemmas_d[0]));
                assert(lemmas_d.to_set().contains(lemmas_d[0]));
            }
        }

        let mut tree = CompressedTrie::new();
        tree.insert(&chars, true);
        proof {
            assert forall|s: Seq<char>| #[trigger] tree.contains(s) <==> (s == w || (s != w
                && prefix_related(s, w) && processed_form(u, lemmas_d, 0, s))) by {}
        }

        let nl = lemmas.len();
        let mut li: usize = 0;
        while li < nl
            invariant
                0 <= li <= nl,
                nl == lemmas@.len(),
                lemmas_d == lemmas.deep_view(),
                u == self.unimorph,
                tree.wf(),
                chars@ == w,
                forall|s: Seq<char>| #[trigger]
                    tree.contains(s) <==> (s == w || (s != w && prefix_related(s, w)
                        && processed_form(u, lemmas_d, li as int, s))),
            decreases nl - li,
        {
            let forms = self.unimorph.inflect(lemmas[li].as_str(), "");
            let ghost forms_d = forms.deep_view();
            proof {
                reveal_strlit("");
                assert(""@ =~= Seq::<char>::empty());
                assert(forms_d.to_set() == u.inflect_set(lemmas_d[li as int], Seq::empty()));
            }
            let nf = forms.len();
            let mut fi: usize = 0;
            while fi < nf
                invariant
                    0 <= fi <= nf,
                    nf == forms@.len(),
                    forms_d == forms.deep_view(),
                    0 <= li < nl,
                    lemmas_d == lemmas.deep_view(),
                    u == self.unimorph,
                    tree.wf(),
                    chars@ == w,
                    forall|s: Seq<char>| #[trigger]
                        tree.contains(s) <==> (s == w || (s != w && prefix_related(s, w) && (
                        processed_form(u, lemmas_d, li as int, s) || exists|j: int|
                            0 <= j < fi && forms_d[j] == s))),
                decreases nf - fi,
            {
                let ghost tree0 = tree;
                let ghost f = forms_d[fi as int];
                let fchars = str_chars(forms[fi].as_str());
                proof {
                    assert(fchars@ == f);
                }
                let mut inserted = false;
                if !char_vecs_equal(&fchars, &chars) {
                    if is_char_prefix(&fchars, &chars) || is_char_prefix(&chars, &fchars) {
                        tree.insert(&fchars, true);
                        inserted = true;
                    }
                }
                proof {
                    assert(inserted == (f != w && prefix_related(f, w)));
                    assert forall|s: Seq<char>| #[trigger]
                        tree.contains(s) <==> (s == w || (s != w && prefix_related(s, w) && (
                        processed_form(u, lemmas_d, li as int, s) || exists|j: int|
                            0 <= j < fi + 1 && forms_d[j] == s))) by {
                        if s == f && inserted {
                            assert(tree.contains(s));
                            assert(forms_d[fi as int] == s);
                        } else {
                            assert(tree.contains(s) == tree0.contains(s));
                            if s != w && prefix_related(s, w) && (exists|j: int|
                                0 <= j < fi + 1 && forms_d[j] == s) && !(exists|j: int|
                                0 <= j < fi && forms_d[j] == s) && !processed_form(
                                u,
                                lemmas_d,
                                li as int,
                                s,
                            ) {
                                let j = choose|j: int| 0 <= j < fi + 1 && forms_d[j] == s;
                                assert(j == fi && s == f);
                                assert(inserted);
                            }
                        }
                    }
                }
                fi += 1;
            }
            proof {
                assert forall|s: Seq<char>| #[trigger]
                    tree.contains(s) <==> (s == w || (s != w && prefix_related(s, w)
                        && processed_form(u, lemmas_d, li + 1, s))) by {
                    if s != w && prefix_related(s, w) {
                        if exists|j: int| 0 <= j < nf && forms_d[j] == s {
                            let j = choose|j: int| 0 <= j < nf && forms_d[j] == s;
                            assert(forms_d.contains(s));
                            assert(forms_d.to_set().contains(s));
                            assert(u.inflect_set(lemmas_d[li as int], Seq::empty()).contains(s));
                        }
                        if processed_form(u, lemmas_d, li + 1, s) && !processed_form(
                            u,
                            lemmas_d,
                            li as int,
                            s,
                        ) {
                            let j = choose|j: int|
                                0 <= j < li + 1 && u.inflect_set(
                                    #[trigger] lemmas_d[j],
                                    Seq::<char>::empty(),
                                ).contains(s);
                            assert(j == li);
                            assert(forms_d.to_set().contains(s));
                            assert(forms_d.contains(s));
                            let jj = choose|jj: int| 0 <= jj < forms_d.len() && forms_d[jj] == s;
                            assert(0 <= jj < nf && forms_d[jj] == s);
                        }
                    }
                }
            }
            li += 1;
        }

        proof {
            assert(u.analyze_set(w) =~= lemmas_d.to_set());
            assert forall|s: Seq<char>| #[trigger] tree.contains(s) <==> (s == w
                || informative_form(u, w, s)) by {
                if s != w && prefix_related(s, w) {
                    if processed_form(u, lemmas_d, nl as int, s) {
                        let j = choose|j: int|
                            0 <= j < nl && u.inflect_set(
                                #[trigger] lemmas_d[j],
                                Seq::<char>::empty(),
                            ).contains(s);
                        assert(lemmas_d.contains(lemmas_d[j]));
                        assert(u.analyze_set(w).contains(lemmas_d[j]));
                    }
                    if informative_form(u, w, s) {
                        let l = choose|l: Seq<char>|
                            #[trigger] u.inflect_set(l, Seq::<char>::empty()).contains(s)
                                && u.analyze_set(w).contains(l);
                        assert(lemmas_d.to_set().contains(l));
                        assert(lemmas_d.contains(l));
                        let j = choose|j: int| 0 <= j < lemmas_d.len() && lemmas_d[j] == l;
                        assert(u.inflect_set(lemmas_d[j], Seq::<char>::empty()).contains(s));
                    }
                }
            }
            assert(paradigm_trie(u, w, tree));
            assert(tree.contains(w));
            lemma_contains_has_path(tree, w);
        }
        let walk = branch_split_walk(&tree, &chars);
        let scalar_spans = match walk {
            Ok(v) => v,
            Err(_) => {
                // The word was inserted into the trie, so it exists as a
                // path of it and the walk cannot fail.
                proof {
                    assert(false);
                }
                Vec::new()
            },
        };
        let byte_spans = scalar_to_byte_offsets(message, scalar_spans);
        proof {
            let sp = scalar_spans@;
            assert forall|k: int| 0 <= k < byte_spans@.len() - 1 implies (
            #[trigger] byte_spans@[k]).0 < byte_spans@[k].1 by {
                assert(sp[k].0 < sp[k].1);
                crate::offsets::lemma_utf8_prefix_add(w, sp[k].0 as int, sp[k].1 as int);
                lemma_utf8_len_ge_count(w.subrange(sp[k].0 as int, sp[k].1 as int));
            }
            assert(byte_spans_of_cuts(tree, w, byte_spans@)) by {
                assert(spans_tile(sp, w.len()));
            }
        }
        byte_spans
    }
}

} // verus!
