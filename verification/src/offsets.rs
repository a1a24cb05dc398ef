//! Conversion of segment boundaries counted in Unicode scalar values into
//! byte offsets of the original encoded string.
//!
//! The mathematical model is `vstd::utf8::encode_utf8`: the byte offset of a
//! scalar-value boundary is the UTF-8 length of the character prefix before
//! it.

use vstd::prelude::*;
use vstd::utf8::{encode_scalar, encode_utf8};

verus! {

/// Total UTF-8 byte length of a character sequence.
pub open spec fn utf8_len(s: Seq<char>) -> nat {
    encode_utf8(s).len()
}

/// UTF-8 byte length of the first `i` characters of `s`.
pub open spec fn utf8_prefix(s: Seq<char>, i: int) -> nat {
    utf8_len(s.take(i))
}

/// A non-empty span list that tiles `[0, n)`: spans are well formed, start
/// at zero, are contiguous, and end exactly at `n`. Used both for boundary
/// lists in scalar-value units and for the byte spans produced from them.
pub open spec fn spans_tile(offs: Seq<(usize, usize)>, n: nat) -> bool {
    &&& offs.len() > 0
    &&& forall|k: int| 0 <= k < offs.len() ==> #[trigger] offs[k].0 <= offs[k].1 <= n
    &&& offs[0].0 == 0
    &&& forall|k: int| 0 < k < offs.len() ==> #[trigger] offs[k].0 == offs[k - 1].1
    &&& offs[offs.len() - 1].1 == n
}

/// Sum of the widths of a span list.
pub open spec fn spans_total(offs: Seq<(usize, usize)>) -> int
    decreases offs.len(),
{
    if offs.len() == 0 {
        0
    } else {
        spans_total(offs.drop_last()) + offs.last().1 - offs.last().0
    }
}

/// Sum of the character counts of a list of segments.
pub open spec fn chars_total(segs: Seq<Seq<char>>) -> nat
    decreases segs.len(),
{
    if segs.len() == 0 {
        0nat
    } else {
        chars_total(segs.drop_last()) + segs.last().len()
    }
}

/// UTF-8 encoding distributes over concatenation.
pub proof fn lemma_encode_utf8_concat(a: Seq<char>, b: Seq<char>)
    ensures
        encode_utf8(a + b) == encode_utf8(a) + encode_utf8(b),
    decreases a.len(),
{
    if a.len() == 0 {
        assert(a + b =~= b);
        assert(encode_utf8(a) + encode_utf8(b) =~= encode_utf8(b));
    } else {
        assert((a + b).drop_first() =~= a.drop_first() + b);
        lemma_encode_utf8_concat(a.drop_first(), b);
        assert(encode_utf8(a + b) =~= encode_utf8(a) + encode_utf8(b));
    }
}

/// The byte length of a middle section is the difference of the prefix
/// lengths around it: `utf8_prefix(s, j) == utf8_prefix(s, i) + utf8_len(s[i..j])`.
pub proof fn lemma_utf8_prefix_add(s: Seq<char>, i: int, j: int)
    requires
        0 <= i <= j <= s.len(),
    ensures
        utf8_prefix(s, j) == utf8_prefix(s, i) + utf8_len(s.subrange(i, j)),
{
    assert(s.take(j) =~= s.take(i) + s.subrange(i, j));
    lemma_encode_utf8_concat(s.take(i), s.subrange(i, j));
}

/// Prefix byte lengths are monotone and bounded by the whole string's length.
pub proof fn lemma_utf8_prefix_le(s: Seq<char>, i: int, j: int)
    requires
        0 <= i <= j <= s.len(),
    ensures
        utf8_prefix(s, i) <= utf8_prefix(s, j),
        utf8_prefix(s, j) <= utf8_len(s),
{
    lemma_utf8_prefix_add(s, i, j);
    lemma_utf8_prefix_add(s, j, s.len() as int);
    assert(s.take(s.len() as int) =~= s);
}

/// UTF-8 byte width of one character, computed from its scalar value.
pub fn char_utf8_len(c: char) -> (n: usize)
    ensures
        n == encode_scalar(c as u32).len(),
        1 <= n <= 4,
{
    broadcast use vstd::utf8::char_is_scalar;

    let u = c as u32;
    if u < 0x80 {
        1
    } else if u < 0x800 {
        2
    } else if u < 0x10000 {
        3
    } else {
        4
    }
}

/// The byte length of a one-character sequence is the width of its scalar.
pub proof fn lemma_utf8_len_single(c: char)
    ensures
        utf8_len(seq![c]) == encode_scalar(c as u32).len(),
{
    let s = seq![c];
    assert(s.len() == 1 && s[0] == c);
    assert(s.drop_first() =~= Seq::<char>::empty());
    assert(encode_utf8(s.drop_first()) =~= Seq::<u8>::empty());
    assert(encode_utf8(s) == encode_scalar(c as u32) + encode_utf8(s.drop_first()));
    assert(encode_scalar(c as u32) + Seq::<u8>::empty() =~= encode_scalar(c as u32));
}

/// Every character takes at least one byte: a sequence's UTF-8 length is at
/// least its character count.
pub proof fn lemma_utf8_len_ge_count(s: Seq<char>)
    ensures
        utf8_len(s) >= s.len(),
    decreases s.len(),
{
    if s.len() > 0 {
        lemma_utf8_len_ge_count(s.drop_first());
    }
}

/// Relies on `str::len`: the length of a string in bytes, which for a Rust
/// string is the length of the UTF-8 encoding of its characters.
#[verifier::external_body]
pub(crate) fn str_byte_len(s: &str) -> (n: usize)
    ensures
        n == utf8_len(s@),
{
    s.len()
}

/// The characters of a string, as an indexable vector.
pub fn str_chars(message: &str) -> (r: Vec<char>)
    ensures
        r@ == message@,
{
    let mut r: Vec<char> = Vec::new();
    for c in it: message.chars()
        invariant
            it.seq() == message@,
            r@ == message@.take(it.index()),
    {
        proof {
            assert(message@.take(it.index() + 1) =~= message@.take(it.index()).push(c));
        }
        r.push(c);
    }
    proof {
        assert(message@.take(message@.len() as int) =~= message@);
    }
    r
}

/// Cumulative byte offsets of the scalar-value boundaries of `message`:
/// element `i` is the byte offset just after character `i`.
pub fn unicode_scalar_bounds(message: &str) -> (r: Vec<usize>)
    ensures
        r@.len() == message@.len(),
        forall|i: int| 0 <= i < r@.len() ==> #[trigger] r@[i] == utf8_prefix(message@, i + 1),
{
    let ghost s = message@;
    let total = str_byte_len(message);
    proof {
        assert(s.take(s.len() as int) =~= s);
    }
    let mut r: Vec<usize> = Vec::new();
    let mut index: usize = 0;
    for c in it: message.chars()
        invariant
            it.seq() == s,
            total == utf8_len(s),
            r@.len() == it.index(),
            index == utf8_prefix(s, it.index()),
            forall|i: int| 0 <= i < r@.len() ==> #[trigger] r@[i] == utf8_prefix(s, i + 1),
    {
        let ghost k = it.index();
        proof {
            assert(s.subrange(k, k + 1) =~= seq![s[k]]);
            lemma_utf8_prefix_add(s, k, k + 1);
            lemma_utf8_len_single(s[k]);
            lemma_utf8_prefix_le(s, k + 1, s.len() as int);
        }
        let length = char_utf8_len(c);
        r.push(index + length);
        index += length;
    }
    r
}

/// A span list that tiles an interval covers it exactly: the widths sum to
/// the interval's length.
pub proof fn lemma_spans_tile_total(r: Seq<(usize, usize)>, n: nat)
    requires
        spans_tile(r, n),
    ensures
        spans_total(r) == n,
{
    lemma_spans_chain_total(r, r.len() as int);
    assert(r.take(r.len() as int) =~= r);
}

/// Telescoping sum: in a contiguous span list starting at zero, the widths of
/// the first `k` spans sum to the end of span `k - 1`.
proof fn lemma_spans_chain_total(r: Seq<(usize, usize)>, k: int)
    requires
        0 < k <= r.len(),
        r[0].0 == 0,
        forall|j: int| 0 < j < r.len() ==> #[trigger] r[j].0 == r[j - 1].1,
    ensures
        spans_total(r.take(k)) == r[k - 1].1,
    decreases k,
{
    let t = r.take(k);
    assert(spans_total(t) == spans_total(t.drop_last()) + t.last().1 - t.last().0);
    assert(t.last() == r[k - 1]);
    if k == 1 {
        assert(t.drop_last() =~= Seq::<(usize, usize)>::empty());
        assert(spans_total(Seq::<(usize, usize)>::empty()) == 0);
    } else {
        lemma_spans_chain_total(r, k - 1);
        assert(t.drop_last() =~= r.take(k - 1));
        assert(r[k - 1].0 == r[k - 2].1);
    }
}

/// One step of a segment-count prefix sum:
/// `chars_total(segs.take(k + 1)) == chars_total(segs.take(k)) + segs[k].len()`.
pub proof fn lemma_chars_total_step(segs: Seq<Seq<char>>, k: int)
    requires
        0 <= k < segs.len(),
    ensures
        chars_total(segs.take(k + 1)) == chars_total(segs.take(k)) + segs[k].len(),
{
    assert(segs.take(k + 1).drop_last() =~= segs.take(k));
    assert(segs.take(k + 1).last() == segs[k]);
}

/// Prefix sums of segment counts are bounded by the total.
pub proof fn lemma_chars_total_le(segs: Seq<Seq<char>>, k: int)
    requires
        0 <= k <= segs.len(),
    ensures
        chars_total(segs.take(k)) <= chars_total(segs),
    decreases segs.len() - k,
{
    if k == segs.len() {
        assert(segs.take(k) =~= segs);
    } else {
        lemma_chars_total_step(segs, k);
        lemma_chars_total_le(segs, k + 1);
    }
}

/// Boundary spans of consecutive segments, counted in Unicode scalar values:
/// segment `k` occupies `[c_0 + .. + c_(k-1), c_0 + .. + c_k)` where `c_i` is
/// the character count of segment `i`.
#[verifier::loop_isolation(false)]
pub fn collect_scalar_offsets(segments: Vec<String>) -> (r: Vec<(usize, usize)>)
    requires
        chars_total(segments.deep_view()) <= usize::MAX,
    ensures
        r@.len() == segments@.len(),
        forall|k: int| 0 <= k < r@.len() ==> {
            &&& (#[trigger] r@[k]).0 == chars_total(segments.deep_view().take(k))
            &&& r@[k].1 == chars_total(segments.deep_view().take(k + 1))
        },
{
    let ghost segs = segments.deep_view();
    let mut character_offsets: Vec<(usize, usize)> = Vec::new();
    let mut index: usize = 0;
    let n = segments.len();
    proof {
        assert(segs.take(0) =~= Seq::<Seq<char>>::empty());
    }
    for i in 0..n
        invariant
            character_offsets@.len() == i,
            index == chars_total(segs.take(i as int)),
            forall|k: int| 0 <= k < i ==> {
                &&& (#[trigger] character_offsets@[k]).0 == chars_total(segs.take(k))
                &&& character_offsets@[k].1 == chars_total(segs.take(k + 1))
            },
    {
        proof {
            lemma_chars_total_step(segs, i as int);
            lemma_chars_total_le(segs, i + 1);
        }
        let length = segments[i].as_str().unicode_len();
        character_offsets.push((index, index + length));
        index += length;
    }
    character_offsets
}

/// Byte-offset spans equivalent to a boundary list counted in Unicode scalar
/// values. The boundary list must tile the word's character range exactly; a
/// final bound short of the character count is a caller defect, never
/// silently truncated.
#[verifier::loop_isolation(false)]
pub fn scalar_to_byte_offsets(message: &str, character_offsets: Vec<(usize, usize)>) -> (r: Vec<
    (usize, usize),
>)
    requires
        spans_tile(character_offsets@, message@.len()),
    ensures
        r@.len() == character_offsets@.len(),
        forall|k: int| 0 <= k < r@.len() ==> {
            &&& (#[trigger] r@[k]).0 == utf8_prefix(message@, character_offsets@[k].0 as int)
            &&& r@[k].1 == utf8_prefix(message@, character_offsets@[k].1 as int)
        },
        spans_tile(r@, utf8_len(message@)),
{
    let ghost s = message@;
    let ghost offs = character_offsets@;
    let chars = str_chars(message);
    let total = str_byte_len(message);
    proof {
        assert(s.take(0) =~= Seq::<char>::empty());
        assert(s.take(s.len() as int) =~= s);
    }
    let mut byte_offsets: Vec<(usize, usize)> = Vec::new();
    let mut index: usize = 0;
    let m = character_offsets.len();
    for k in 0..m
        invariant
            byte_offsets@.len() == k,
            k < m ==> index == utf8_prefix(s, offs[k as int].0 as int),
            forall|j: int| 0 <= j < k ==> {
                &&& (#[trigger] byte_offsets@[j]).0 == utf8_prefix(s, offs[j].0 as int)
                &&& byte_offsets@[j].1 == utf8_prefix(s, offs[j].1 as int)
            },
    {
        let (a, b) = character_offsets[k];
        let mut length: usize = 0;
        let mut idx = a;
        while idx < b
            invariant
                a <= idx <= b,
                utf8_prefix(s, a as int) + length == utf8_prefix(s, idx as int),
            decreases b - idx,
        {
            proof {
                assert(s.subrange(idx as int, idx + 1) =~= seq![s[idx as int]]);
                lemma_utf8_prefix_add(s, idx as int, idx + 1);
                lemma_utf8_len_single(s[idx as int]);
                lemma_utf8_prefix_le(s, idx + 1, s.len() as int);
            }
            length += char_utf8_len(chars[idx]);
            idx += 1;
        }
        proof {
            lemma_utf8_prefix_le(s, b as int, s.len() as int);
        }
        byte_offsets.push((index, index + length));
        index += length;
    }
    proof {
        assert(spans_tile(byte_offsets@, utf8_len(s))) by {
            assert(forall|j: int| 0 <= j < offs.len() ==> (#[trigger] offs[j].0)
                <= offs[j].1 <= s.len());
            assert forall|j: int| 0 <= j < byte_offsets@.len() implies (
            #[trigger] byte_offsets@[j]).0 <= byte_offsets@[j].1 <= utf8_len(s) by {
                lemma_utf8_prefix_le(s, offs[j].0 as int, offs[j].1 as int);
                lemma_utf8_prefix_le(s, offs[j].1 as int, s.len() as int);
            }
        }
    }
    byte_offsets
}

/// Offset-conversion round trip: for any word and any valid scalar-value
/// boundary list whose final bound equals the word's scalar-value count, the
/// byte spans produced by [`scalar_to_byte_offsets`] have a total byte length
/// equal to the byte length of the word.
pub proof fn lemma_offset_round_trip(s: Seq<char>, offs: Seq<(usize, usize)>, r: Seq<
    (usize, usize),
>)
    requires
        spans_tile(offs, s.len()),
        r.len() == offs.len(),
        forall|k: int| 0 <= k < r.len() ==> {
            &&& (#[trigger] r[k]).0 == utf8_prefix(s, offs[k].0 as int)
            &&& r[k].1 == utf8_prefix(s, offs[k].1 as int)
        },
    ensures
        spans_total(r) == utf8_len(s),
{
    assert(s.take(0) =~= Seq::<char>::empty());
    assert(s.take(s.len() as int) =~= s);
    assert(spans_tile(r, utf8_len(s))) by {
        assert forall|j: int| 0 <= j < r.len() implies (#[trigger] r[j]).0 <= r[j].1
            <= utf8_len(s) by {
            lemma_utf8_prefix_le(s, offs[j].0 as int, offs[j].1 as int);
            lemma_utf8_prefix_le(s, offs[j].1 as int, s.len() as int);
        }
    }
    lemma_spans_tile_total(r, utf8_len(s));
}

} // verus!
