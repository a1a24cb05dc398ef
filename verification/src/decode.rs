//! Decoding of a pretrained morphological cost model from its binary
//! serialized resource: a protocol-buffer-style message with corpus coding
//! statistics, lexicon coding statistics (with a nested atom-frequency
//! table), and a map from construction string to its stored analysis.
//!
//! The wire format is stated as spec-level parsers — base-128 varints,
//! little-endian fixed64 values, length-delimited fields, and the field fold
//! of each message — and the decoder is proved to return exactly what they
//! say: the decoded model on well-formed bytes, and the matching
//! [`ModelDecodeError`] otherwise. A decoded model's stored counts are all
//! positive.

use vstd::prelude::*;
use vstd::utf8::{decode_utf8, valid_utf8};

use crate::errors::ModelDecodeError;
use crate::morfessor::{analysis_entries_view, atom_entries_view, Analysis, BaselineModel,
    CorpusEncoding, LexiconEncoding};

verus! {

/// 128 to the power `i`.
pub open spec fn pow128(i: int) -> nat
    decreases i,
{
    if i <= 0 {
        1
    } else {
        128 * pow128(i - 1)
    }
}

/// 256 to the power `i`.
pub open spec fn pow256(i: int) -> nat
    decreases i,
{
    if i <= 0 {
        1
    } else {
        256 * pow256(i - 1)
    }
}

/// The value of a base-128 varint chunk, least significant group first; the
/// high (continuation) bit of each byte does not contribute.
pub open spec fn varint_value(bs: Seq<u8>) -> nat
    decreases bs.len(),
{
    if bs.len() == 0 {
        0
    } else {
        (bs[0] % 128) as nat + 128 * varint_value(bs.drop_first())
    }
}

/// The value of a little-endian byte chunk.
pub open spec fn le_value(bs: Seq<u8>) -> nat
    decreases bs.len(),
{
    if bs.len() == 0 {
        0
    } else {
        bs[0] as nat + 256 * le_value(bs.drop_first())
    }
}

/// Appending one group multiplies its contribution by the chunk's base-128
/// place value.
proof fn lemma_varint_snoc(s: Seq<u8>, b: u8)
    ensures
        varint_value(s.push(b)) == varint_value(s) + pow128(s.len() as int) * ((b % 128) as nat),
    decreases s.len(),
{
    if s.len() == 0 {
        assert(varint_value(Seq::<u8>::empty()) == 0);
        assert(s.push(b).drop_first() =~= Seq::<u8>::empty());
        assert(varint_value(s.push(b)) == (b % 128) as nat);
        assert(varint_value(s) == 0);
        assert(pow128(s.len() as int) == 1);
        assert(varint_value(s.push(b)) == varint_value(s) + pow128(s.len() as int) * ((b % 128)
            as nat));
    } else {
        let d = s.drop_first();
        assert(s.push(b).drop_first() =~= d.push(b));
        lemma_varint_snoc(d, b);
        let p = pow128(d.len() as int);
        let c = (b % 128) as nat;
        assert(s.push(b)[0] == s[0]);
        assert(varint_value(s.push(b)) == (s[0] % 128) as nat + 128 * varint_value(d.push(b)));
        assert(varint_value(s) == (s[0] % 128) as nat + 128 * varint_value(d));
        assert(varint_value(d.push(b)) == varint_value(d) + p * c);
        assert(128 * (varint_value(d) + p * c) == 128 * varint_value(d) + (128 * p) * c)
            by (nonlinear_arith);
        assert(pow128(s.len() as int) == 128 * p);
        assert(varint_value(s.push(b)) == varint_value(s) + (128 * p) * c);
        assert(varint_value(s.push(b)) == varint_value(s) + pow128(s.len() as int) * ((b % 128)
            as nat));
    }
}

/// Powers of 128 grow with the exponent.
proof fn lemma_pow128_mono(a: int, b: int)
    requires
        0 <= a <= b,
    ensures
        pow128(a) <= pow128(b),
    decreases b - a,
{
    if a < b {
        lemma_pow128_mono(a, b - 1);
        assert(pow128(b) == 128 * pow128(b - 1));
    }
}

/// Powers of 256 grow with the exponent.
proof fn lemma_pow256_mono(a: int, b: int)
    requires
        0 <= a <= b,
    ensures
        pow256(a) <= pow256(b),
    decreases b - a,
{
    if a < b {
        lemma_pow256_mono(a, b - 1);
        assert(pow256(b) == 256 * pow256(b - 1));
    }
}

/// Counterpart of [`lemma_varint_snoc`] for little-endian bytes.
proof fn lemma_le_snoc(s: Seq<u8>, b: u8)
    ensures
        le_value(s.push(b)) == le_value(s) + pow256(s.len() as int) * (b as nat),
    decreases s.len(),
{
    if s.len() == 0 {
        assert(le_value(Seq::<u8>::empty()) == 0);
        assert(s.push(b).drop_first() =~= Seq::<u8>::empty());
        assert(le_value(s.push(b)) == b as nat);
        assert(le_value(s) == 0);
        assert(pow256(s.len() as int) == 1);
        assert(le_value(s.push(b)) == le_value(s) + pow256(s.len() as int) * (b as nat));
    } else {
        let d = s.drop_first();
        assert(s.push(b).drop_first() =~= d.push(b));
        lemma_le_snoc(d, b);
        let p = pow256(d.len() as int);
        let c = b as nat;
        assert(s.push(b)[0] == s[0]);
        assert(le_value(s.push(b)) == s[0] as nat + 256 * le_value(d.push(b)));
        assert(le_value(s) == s[0] as nat + 256 * le_value(d));
        assert(le_value(d.push(b)) == le_value(d) + p * c);
        assert(256 * (le_value(d) + p * c) == 256 * le_value(d) + (256 * p) * c)
            by (nonlinear_arith);
        assert(pow256(s.len() as int) == 256 * p);
        assert(le_value(s.push(b)) == le_value(s) + (256 * p) * c);
        assert(le_value(s.push(b)) == le_value(s) + pow256(s.len() as int) * (b as nat));
    }
}

/// Scan of a varint chunk at `pos`, with `i` continuation bytes already
/// consumed: the position after the chunk, or nothing when the input ends
/// first, an eleventh byte would be needed, or the value overflows 64 bits.
pub open spec fn varint_scan(bs: Seq<u8>, pos: int, i: int) -> Option<int>
    decreases 10 - i,
{
    if i < 0 || i >= 10 || pos < 0 || pos + i >= bs.len() {
        None
    } else {
        let b = bs[pos + i];
        if i == 9 && b % 128 > 1 {
            None
        } else if b < 128 {
            Some(pos + i + 1)
        } else {
            varint_scan(bs, pos, i + 1)
        }
    }
}

/// The varint at `pos`: its 64-bit value and the position after it, or
/// nothing when the bytes do not hold one.
pub open spec fn spec_varint(bs: Seq<u8>, pos: int) -> Option<(u64, int)> {
    match varint_scan(bs, pos, 0) {
        Some(end) => Some((varint_value(bs.subrange(pos, end)) as u64, end)),
        None => None,
    }
}

/// Read one varint at `pos`: its 64-bit value and the position after it.
/// The chunk is all the continuation bytes plus the final byte; a varint
/// running past the input or overflowing 64 bits is malformed.
#[verifier::loop_isolation(false)]
fn read_varint(bytes: &Vec<u8>, pos: usize) -> (r: Result<(u64, usize), ModelDecodeError>)
    requires
        pos <= bytes@.len(),
    ensures
        (r is Ok) == (spec_varint(bytes@, pos as int) is Some),
        r matches Ok(p) ==> spec_varint(bytes@, pos as int) == Some((p.0, p.1 as int)),
        r matches Err(e) ==> e == ModelDecodeError::Malformed,
        r matches Ok(p) ==> pos < p.1 <= bytes@.len() && p.1 - pos <= 10,
{
    let n = bytes.len();
    let mut val: u64 = 0;
    let mut mult: u64 = 1;
    let mut i: usize = 0;
    proof {
        reveal_with_fuel(pow128, 11);
        assert(bytes@.subrange(pos as int, pos as int) =~= Seq::<u8>::empty());
        assert(varint_value(Seq::<u8>::empty()) == 0);
        assert(pow128(0) == 1 && pow128(1) == 128 && pow128(2) == 16384);
        assert(pow128(3) == 0x200000 && pow128(4) == 0x10000000);
        assert(pow128(5) == 0x800000000 && pow128(6) == 0x40000000000);
        assert(pow128(7) == 0x2000000000000 && pow128(8) == 0x100000000000000);
        assert(pow128(9) == 0x8000000000000000);
    }
    while i < 10
        invariant
            0 <= i <= 10,
            i <= 9 ==> mult == pow128(i as int) && val < mult,
            val as nat == varint_value(bytes@.subrange(pos as int, pos + i)),
            forall|m: int| pos <= m < pos + i ==> bytes@[m] >= 128,
            pos + i <= bytes@.len(),
            varint_scan(bytes@, pos as int, 0) == varint_scan(bytes@, pos as int, i as int),
        decreases 10 - i,
    {
        if n - pos <= i {
            proof {
                assert(varint_scan(bytes@, pos as int, i as int) is None);
            }
            return Err(ModelDecodeError::Malformed);
        }
        let b = bytes[pos + i];
        let low = b % 128;
        if i == 9 && low > 1 {
            proof {
                assert(varint_scan(bytes@, pos as int, i as int) is None);
            }
            return Err(ModelDecodeError::Malformed);
        }
        proof {
            assert(bytes@.subrange(pos as int, pos + i + 1) =~= bytes@.subrange(
                pos as int,
                pos + i,
            ).push(b));
            lemma_varint_snoc(bytes@.subrange(pos as int, pos + i), b);
            if i == 9 {
                assert(val < 0x8000000000000000);
                assert((low as u64) * mult <= 0x8000000000000000) by (nonlinear_arith)
                    requires
                        low <= 1,
                        mult == 0x8000000000000000,
                ;
            } else {
                assert((low as u64) * mult < 127 * pow128(i as int) + pow128(i as int))
                    by (nonlinear_arith)
                    requires
                        low < 128,
                        mult == pow128(i as int),
                        mult >= 1,
                ;
                assert(128 * pow128(i as int) == pow128(i + 1));
                lemma_pow128_mono(i + 1, 9);
                assert(pow128(i + 1) <= 0x8000000000000000);
            }
        }
        let ghost old_val = val;
        val = val + (low as u64) * mult;
        proof {
            assert(val as nat == old_val as nat + (low as nat) * (mult as nat));
            assert((low as nat) * (mult as nat) == pow128(i as int) * ((b % 128) as nat))
                by (nonlinear_arith)
                requires
                    low == b % 128,
                    mult == pow128(i as int),
            ;
            assert(val as nat == varint_value(bytes@.subrange(pos as int, pos + i + 1)));
        }
        if b < 128 {
            proof {
                assert(varint_scan(bytes@, pos as int, i as int) == Some(pos + i + 1));
                assert(varint_value(bytes@.subrange(pos as int, pos + i + 1))
                    < 0x10000000000000000);
                assert(spec_varint(bytes@, pos as int) == Some((val, pos + i + 1)));
            }
            return Ok((val, pos + i + 1));
        }
        proof {
            assert(varint_scan(bytes@, pos as int, i as int) == varint_scan(
                bytes@,
                pos as int,
                i + 1,
            ));
        }
        if i < 9 {
            proof {
                assert(val < pow128(i + 1)) by {
                    assert(old_val < pow128(i as int));
                    assert(pow128(i as int) * ((b % 128) as nat) <= pow128(i as int) * 127)
                        by (nonlinear_arith)
                        requires
                            b % 128 < 128,
                    ;
                }
                assert(128 * pow128(i as int) == pow128(i + 1));
                lemma_pow128_mono(i + 1, 9);
            }
            mult = mult * 128;
        }
        i += 1;
    }
    proof {
        assert(varint_scan(bytes@, pos as int, 10) is None);
    }
    Err(ModelDecodeError::Malformed)
}

/// The little-endian 64-bit value at `pos` and the position after it, or
/// nothing when fewer than eight bytes remain.
pub open spec fn spec_fixed64(bs: Seq<u8>, pos: int) -> Option<(u64, int)> {
    if 0 <= pos && pos + 8 <= bs.len() {
        Some((le_value(bs.subrange(pos, pos + 8)) as u64, pos + 8))
    } else {
        None
    }
}

/// Read a little-endian fixed 64-bit value at `pos` (the bit pattern of a
/// binary64 field) and the position after it.
#[verifier::loop_isolation(false)]
fn read_fixed64(bytes: &Vec<u8>, pos: usize) -> (r: Result<(u64, usize), ModelDecodeError>)
    requires
        pos <= bytes@.len(),
    ensures
        (r is Ok) == (spec_fixed64(bytes@, pos as int) is Some),
        r matches Ok(p) ==> spec_fixed64(bytes@, pos as int) == Some((p.0, p.1 as int)),
        r matches Err(e) ==> e == ModelDecodeError::Malformed,
        r matches Ok(p) ==> p.1 == pos + 8 <= bytes@.len(),
{
    let n = bytes.len();
    if n - pos < 8 {
        return Err(ModelDecodeError::Malformed);
    }
    let mut val: u64 = 0;
    let mut mult: u64 = 1;
    let mut i: usize = 0;
    proof {
        reveal_with_fuel(pow256, 10);
        assert(bytes@.subrange(pos as int, pos as int) =~= Seq::<u8>::empty());
        assert(le_value(Seq::<u8>::empty()) == 0);
        assert(pow256(0) == 1 && pow256(1) == 0x100 && pow256(2) == 0x10000);
        assert(pow256(3) == 0x1000000 && pow256(4) == 0x100000000);
        assert(pow256(5) == 0x10000000000 && pow256(6) == 0x1000000000000);
        assert(pow256(7) == 0x100000000000000 && pow256(8) == 0x10000000000000000);
    }
    while i < 8
        invariant
            0 <= i <= 8,
            pos + 8 <= bytes@.len(),
            i <= 7 ==> mult == pow256(i as int) && val < mult,
            val as nat == le_value(bytes@.subrange(pos as int, pos + i)),
        decreases 8 - i,
    {
        let b = bytes[pos + i];
        proof {
            assert(bytes@.subrange(pos as int, pos + i + 1) =~= bytes@.subrange(
                pos as int,
                pos + i,
            ).push(b));
            lemma_le_snoc(bytes@.subrange(pos as int, pos + i), b);
            assert(pow256(i + 1) == 256 * pow256(i as int));
            assert((b as u64) * mult + val < pow256(i + 1)) by (nonlinear_arith)
                requires
                    b < 256,
                    val < mult,
                    mult == pow256(i as int),
                    pow256(i + 1) == 256 * pow256(i as int),
            ;
            lemma_pow256_mono(i + 1, 8);
            assert(pow256(i + 1) <= 0x10000000000000000);
        }
        let ghost old_val = val;
        val = val + (b as u64) * mult;
        proof {
            assert(val as nat == old_val as nat + (b as nat) * (mult as nat));
            assert((b as nat) * (mult as nat) == pow256(i as int) * (b as nat))
                by (nonlinear_arith)
                requires
                    mult == pow256(i as int),
            ;
            assert(val as nat == le_value(bytes@.subrange(pos as int, pos + i + 1)));
            assert(val < pow256(i + 1));
        }
        if i < 7 {
            proof {
                lemma_pow256_mono(i + 1, 7);
                assert(256 * pow256(i as int) == pow256(i + 1));
            }
            mult = mult * 256;
        }
        i += 1;
    }
    proof {
        assert(le_value(bytes@.subrange(pos as int, pos + 8)) < 0x10000000000000000);
        assert(spec_fixed64(bytes@, pos as int) == Some((val, pos + 8)));
    }
    Ok((val, pos + 8))
}

/// The bytes of `v` between `a` and `b`, as a fresh vector.
fn bytes_range(v: &Vec<u8>, a: usize, b: usize) -> (r: Vec<u8>)
    requires
        a <= b <= v@.len(),
    ensures
        r@ == v@.subrange(a as int, b as int),
{
    let mut r: Vec<u8> = Vec::new();
    let mut i = a;
    while i < b
        invariant
            a <= i <= b <= v@.len(),
            r@ == v@.subrange(a as int, i as int),
        decreases b - i,
    {
        r.push(v[i]);
        proof {
            assert(v@.subrange(a as int, i + 1) =~= v@.subrange(a as int, i as int).push(
                v@[i as int],
            ));
        }
        i += 1;
    }
    r
}

/// Relies on `String::from_utf8`: it succeeds exactly on valid UTF-8 and
/// yields the characters the bytes encode.
#[verifier::external_body]
fn string_from_utf8(b: Vec<u8>) -> (r: Option<String>)
    ensures
        r is Some <==> valid_utf8(b@),
        r matches Some(s) ==> s@ == decode_utf8(b@),
{
    match String::from_utf8(b) {
        Ok(s) => Some(s),
        Err(_) => None,
    }
}

/// The bounds of the length-delimited chunk at `pos` — its varint length,
/// then that many bytes — or nothing when the chunk runs past the input.
pub open spec fn spec_chunk(bs: Seq<u8>, pos: int) -> Option<(int, int)> {
    match spec_varint(bs, pos) {
        Some((len, body)) => if body + len <= bs.len() {
            Some((body, body + len))
        } else {
            None
        },
        None => None,
    }
}

/// Position after a length-delimited chunk starting at `pos`: the varint
/// length, then that many bytes. Returns the chunk's start and end.
fn read_len_chunk(bytes: &Vec<u8>, pos: usize) -> (r: Result<(usize, usize), ModelDecodeError>)
    requires
        pos <= bytes@.len(),
    ensures
        (r is Ok) == (spec_chunk(bytes@, pos as int) is Some),
        r matches Ok(p) ==> spec_chunk(bytes@, pos as int) == Some((p.0 as int, p.1 as int)),
        r matches Err(e) ==> e == ModelDecodeError::Malformed,
        r matches Ok(p) ==> pos < p.0 <= p.1 <= bytes@.len(),
{
    let (len, body) = match read_varint(bytes, pos) {
        Ok(p) => p,
        Err(e) => {
            return Err(e);
        },
    };
    let n = bytes.len();
    if len > (n - body) as u64 {
        return Err(ModelDecodeError::Malformed);
    }
    let len_us = len as usize;
    Ok((body, body + len_us))
}

/// The position after one field of wire type `wire` at `pos`: a varint, a
/// fixed 64-bit value, a length-delimited chunk or a fixed 32-bit value;
/// other wire types are not accepted.
pub open spec fn spec_skip(bs: Seq<u8>, pos: int, wire: u64) -> Option<int> {
    if wire == 0 {
        match spec_varint(bs, pos) {
            Some((v, p)) => Some(p),
            None => None,
        }
    } else if wire == 1 {
        if 0 <= pos && pos + 8 <= bs.len() {
            Some(pos + 8)
        } else {
            None
        }
    } else if wire == 2 {
        match spec_chunk(bs, pos) {
            Some((a, b)) => Some(b),
            None => None,
        }
    } else if wire == 5 {
        if 0 <= pos && pos + 4 <= bs.len() {
            Some(pos + 4)
        } else {
            None
        }
    } else {
        None
    }
}

/// Position after skipping one field of the given wire type at `pos`.
fn skip_field(bytes: &Vec<u8>, pos: usize, wire: u64) -> (r: Result<usize, ModelDecodeError>)
    requires
        pos <= bytes@.len(),
    ensures
        (r is Ok) == (spec_skip(bytes@, pos as int, wire) is Some),
        r matches Ok(p) ==> spec_skip(bytes@, pos as int, wire) == Some(p as int),
        r matches Err(e) ==> e == ModelDecodeError::Malformed,
        r matches Ok(p) ==> pos < p <= bytes@.len(),
{
    let n = bytes.len();
    if wire == 0 {
        match read_varint(bytes, pos) {
            Ok((_v, p)) => Ok(p),
            Err(e) => Err(e),
        }
    } else if wire == 1 {
        if n - pos < 8 {
            return Err(ModelDecodeError::Malformed);
        }
        Ok(pos + 8)
    } else if wire == 2 {
        match read_len_chunk(bytes, pos) {
            Ok((_a, b)) => Ok(b),
            Err(e) => Err(e),
        }
    } else if wire == 5 {
        if n - pos < 4 {
            return Err(ModelDecodeError::Malformed);
        }
        Ok(pos + 4)
    } else {
        Err(ModelDecodeError::Malformed)
    }
}

/// The coding statistics of the message between `pos` and `b`, folded over
/// its fields from the accumulated `(tokens, boundaries, weight bits)`:
/// tokens is field 1 (varint), boundaries field 2 (varint), the weight's bit
/// pattern field 3 (binary64); later occurrences win, unknown fields are
/// skipped, and a field running past `b` makes the message malformed.
pub open spec fn spec_coding(bs: Seq<u8>, pos: int, b: int, acc: (u64, u64, u64)) -> Option<
    (u64, u64, u64),
>
    decreases b - pos,
{
    if pos >= b {
        Some(acc)
    } else {
        match spec_varint(bs, pos) {
            None => None,
            Some((tag, p1)) => {
                if p1 > b || p1 <= pos {
                    None
                } else {
                    let field = tag / 8;
                    let wire = tag % 8;
                    if field == 1 && wire == 0 {
                        match spec_varint(bs, p1) {
                            None => None,
                            Some((v, p2)) => if p2 > b || p2 <= p1 {
                                None
                            } else {
                                spec_coding(bs, p2, b, (v, acc.1, acc.2))
                            },
                        }
                    } else if field == 2 && wire == 0 {
                        match spec_varint(bs, p1) {
                            None => None,
                            Some((v, p2)) => if p2 > b || p2 <= p1 {
                                None
                            } else {
                                spec_coding(bs, p2, b, (acc.0, v, acc.2))
                            },
                        }
                    } else if field == 3 && wire == 1 {
                        match spec_fixed64(bs, p1) {
                            None => None,
                            Some((v, p2)) => if p2 > b || p2 <= p1 {
                                None
                            } else {
                                spec_coding(bs, p2, b, (acc.0, acc.1, v))
                            },
                        }
                    } else {
                        match spec_skip(bs, p1, wire) {
                            None => None,
                            Some(p2) => if p2 > b || p2 <= p1 {
                                None
                            } else {
                                spec_coding(bs, p2, b, acc)
                            },
                        }
                    }
                }
            },
        }
    }
}

/// Parse coding statistics between `a` and `b`: tokens (field 1, varint),
/// boundaries (field 2, varint), weight (field 3, binary64); unknown fields
/// are skipped, absent fields default to zero.
#[verifier::loop_isolation(false)]
fn parse_coding(bytes: &Vec<u8>, a: usize, b: usize) -> (r: Result<
    (u64, u64, u64),
    ModelDecodeError,
>)
    requires
        a <= b <= bytes@.len(),
    ensures
        (r is Ok) == (spec_coding(bytes@, a as int, b as int, (0u64, 0u64, 0u64)) is Some),
        r matches Ok(p) ==> spec_coding(bytes@, a as int, b as int, (0u64, 0u64, 0u64)) == Some(p),
        r matches Err(e) ==> e == ModelDecodeError::Malformed,
{
    let ghost bs = bytes@;
    let ghost bi = b as int;
    let mut tokens: u64 = 0;
    let mut boundaries: u64 = 0;
    let mut weight_bits: u64 = 0;
    let mut pos = a;
    while pos < b
        invariant
            a <= pos <= b <= bytes@.len(),
            spec_coding(bs, a as int, bi, (0u64, 0u64, 0u64)) == spec_coding(
                bs,
                pos as int,
                bi,
                (tokens, boundaries, weight_bits),
            ),
        decreases b - pos,
    {
        let ghost acc0 = (tokens, boundaries, weight_bits);
        let (tag, p1) = match read_varint(bytes, pos) {
            Ok(p) => p,
            Err(e) => {
                proof {
                    assert(spec_coding(bs, pos as int, bi, acc0) is None);
                }
                return Err(e);
            },
        };
        if p1 > b {
            proof {
                assert(spec_coding(bs, pos as int, bi, acc0) is None);
            }
            return Err(ModelDecodeError::Malformed);
        }
        let field = tag / 8;
        let wire = tag % 8;
        if field == 1 && wire == 0 {
            let (v, p2) = match read_varint(bytes, p1) {
                Ok(p) => p,
                Err(e) => {
                    proof {
                        assert(spec_coding(bs, pos as int, bi, acc0) is None);
                    }
                    return Err(e);
                },
            };
            if p2 > b {
                proof {
                    assert(spec_coding(bs, pos as int, bi, acc0) is None);
                }
                return Err(ModelDecodeError::Malformed);
            }
            proof {
                assert(spec_coding(bs, pos as int, bi, acc0) == spec_coding(
                    bs,
                    p2 as int,
                    bi,
                    (v, acc0.1, acc0.2),
                ));
            }
            tokens = v;
            pos = p2;
        } else if field == 2 && wire == 0 {
            let (v, p2) = match read_varint(bytes, p1) {
                Ok(p) => p,
                Err(e) => {
                    proof {
                        assert(spec_coding(bs, pos as int, bi, acc0) is None);
                    }
                    return Err(e);
                },
            };
            if p2 > b {
                proof {
                    assert(spec_coding(bs, pos as int, bi, acc0) is None);
                }
                return Err(ModelDecodeError::Malformed);
            }
            proof {
                assert(spec_coding(bs, pos as int, bi, acc0) == spec_coding(
                    bs,
                    p2 as int,
                    bi,
                    (acc0.0, v, acc0.2),
                ));
            }
            boundaries = v;
            pos = p2;
        } else if field == 3 && wire == 1 {
            let (v, p2) = match read_fixed64(bytes, p1) {
                Ok(p) => p,
                Err(e) => {
                    proof {
                        assert(spec_coding(bs, pos as int, bi, acc0) is None);
                    }
                    return Err(e);
                },
            };
            if p2 > b {
                proof {
                    assert(spec_coding(bs, pos as int, bi, acc0) is None);
                }
                return Err(ModelDecodeError::Malformed);
            }
            proof {
                assert(spec_coding(bs, pos as int, bi, acc0) == spec_coding(
                    bs,
                    p2 as int,
                    bi,
                    (acc0.0, acc0.1, v),
                ));
            }
            weight_bits = v;
            pos = p2;
        } else {
            let p2 = match skip_field(bytes, p1, wire) {
                Ok(p) => p,
                Err(e) => {
                    proof {
                        assert(spec_coding(bs, pos as int, bi, acc0) is None);
                    }
                    return Err(e);
                },
            };
            if p2 > b {
                proof {
                    assert(spec_coding(bs, pos as int, bi, acc0) is None);
                }
                return Err(ModelDecodeError::Malformed);
            }
            proof {
                assert(spec_coding(bs, pos as int, bi, acc0) == spec_coding(
                    bs,
                    p2 as int,
                    bi,
                    acc0,
                ));
            }
            pos = p2;
        }
    }
    Ok((tokens, boundaries, weight_bits))
}

/// The characters of the string field between `a` and `b`, when its bytes
/// are valid UTF-8.
pub open spec fn spec_string(bs: Seq<u8>, a: int, b: int) -> Option<Seq<char>> {
    if valid_utf8(bs.subrange(a, b)) {
        Some(decode_utf8(bs.subrange(a, b)))
    } else {
        None
    }
}

/// One atom-table entry between `pos` and `b`, folded over its fields from
/// the accumulated `(key, count)`: the atom string is field 1, its count
/// field 2.
pub open spec fn spec_atom_entry(bs: Seq<u8>, pos: int, b: int, acc: (Seq<char>, u64)) -> Option<
    (Seq<char>, u64),
>
    decreases b - pos,
{
    if pos >= b {
        Some(acc)
    } else {
        match spec_varint(bs, pos) {
            None => None,
            Some((tag, p1)) => {
                if p1 > b || p1 <= pos {
                    None
                } else {
                    let field = tag / 8;
                    let wire = tag % 8;
                    if field == 1 && wire == 2 {
                        match spec_chunk(bs, p1) {
                            None => None,
                            Some((ka, kb)) => if kb > b || kb <= p1 {
                                None
                            } else {
                                match spec_string(bs, ka, kb) {
                                    None => None,
                                    Some(key) => spec_atom_entry(bs, kb, b, (key, acc.1)),
                                }
                            },
                        }
                    } else if field == 2 && wire == 0 {
                        match spec_varint(bs, p1) {
                            None => None,
                            Some((v, p2)) => if p2 > b || p2 <= p1 {
                                None
                            } else {
                                spec_atom_entry(bs, p2, b, (acc.0, v))
                            },
                        }
                    } else {
                        match spec_skip(bs, p1, wire) {
                            None => None,
                            Some(p2) => if p2 > b || p2 <= p1 {
                                None
                            } else {
                                spec_atom_entry(bs, p2, b, acc)
                            },
                        }
                    }
                }
            },
        }
    }
}

/// Parse one atom-table entry between `a` and `b`: key (field 1, string) and
/// count (field 2, varint).
#[verifier::loop_isolation(false)]
fn parse_atom_entry(bytes: &Vec<u8>, a: usize, b: usize) -> (r: Result<
    (String, u64),
    ModelDecodeError,
>)
    requires
        a <= b <= bytes@.len(),
    ensures
        (r is Ok) == (spec_atom_entry(bytes@, a as int, b as int, (Seq::<char>::empty(), 0u64))
            is Some),
        r matches Ok(p) ==> spec_atom_entry(bytes@, a as int, b as int, (Seq::<char>::empty(), 0u64))
            == Some((p.0@, p.1)),
        r matches Err(e) ==> e == ModelDecodeError::Malformed,
{
    let ghost bs = bytes@;
    let ghost bi = b as int;
    let mut key = String::new();
    let mut count: u64 = 0;
    let mut pos = a;
    while pos < b
        invariant
            a <= pos <= b <= bytes@.len(),
            spec_atom_entry(bs, a as int, bi, (Seq::<char>::empty(), 0u64)) == spec_atom_entry(
                bs,
                pos as int,
                bi,
                (key@, count),
            ),
        decreases b - pos,
    {
        let ghost acc0 = (key@, count);
        let (tag, p1) = match read_varint(bytes, pos) {
            Ok(p) => p,
            Err(e) => {
                proof {
                    assert(spec_atom_entry(bs, pos as int, bi, acc0) is None);
                }
                return Err(e);
            },
        };
        if p1 > b {
            proof {
                assert(spec_atom_entry(bs, pos as int, bi, acc0) is None);
            }
            return Err(ModelDecodeError::Malformed);
        }
        let field = tag / 8;
        let wire = tag % 8;
        if field == 1 && wire == 2 {
            let (ka, kb) = match read_len_chunk(bytes, p1) {
                Ok(p) => p,
                Err(e) => {
                    proof {
                        assert(spec_atom_entry(bs, pos as int, bi, acc0) is None);
                    }
                    return Err(e);
                },
            };
            if kb > b {
                proof {
                    assert(spec_atom_entry(bs, pos as int, bi, acc0) is None);
                }
                return Err(ModelDecodeError::Malformed);
            }
            key = match string_from_utf8(bytes_range(bytes, ka, kb)) {
                Some(s) => s,
                None => {
                    proof {
                        assert(spec_string(bs, ka as int, kb as int) is None);
                        assert(spec_atom_entry(bs, pos as int, bi, acc0) is None);
                    }
                    return Err(ModelDecodeError::Malformed);
                },
            };
            proof {
                assert(spec_string(bs, ka as int, kb as int) == Some(key@));
                assert(spec_atom_entry(bs, pos as int, bi, acc0) == spec_atom_entry(
                    bs,
                    kb as int,
                    bi,
                    (key@, acc0.1),
                ));
            }
            pos = kb;
        } else if field == 2 && wire == 0 {
            let (v, p2) = match read_varint(bytes, p1) {
                Ok(p) => p,
                Err(e) => {
                    proof {
                        assert(spec_atom_entry(bs, pos as int, bi, acc0) is None);
                    }
                    return Err(e);
                },
            };
            if p2 > b {
                proof {
                    assert(spec_atom_entry(bs, pos as int, bi, acc0) is None);
                }
                return Err(ModelDecodeError::Malformed);
            }
            proof {
                assert(spec_atom_entry(bs, pos as int, bi, acc0) == spec_atom_entry(
                    bs,
                    p2 as int,
                    bi,
                    (acc0.0, v),
                ));
            }
            count = v;
            pos = p2;
        } else {
            let p2 = match skip_field(bytes, p1, wire) {
                Ok(p) => p,
                Err(e) => {
                    proof {
                        assert(spec_atom_entry(bs, pos as int, bi, acc0) is None);
                    }
                    return Err(e);
                },
            };
            if p2 > b {
                proof {
                    assert(spec_atom_entry(bs, pos as int, bi, acc0) is None);
                }
                return Err(ModelDecodeError::Malformed);
            }
            proof {
                assert(spec_atom_entry(bs, pos as int, bi, acc0) == spec_atom_entry(
                    bs,
                    p2 as int,
                    bi,
                    acc0,
                ));
            }
            pos = p2;
        }
    }
    Ok((key, count))
}

/// The atom table between `pos` and `b`: a run of map entries (field 1,
/// length-delimited), appended in order to the accumulated table; unknown
/// fields are skipped.
pub open spec fn spec_atom_table(
    bs: Seq<u8>,
    pos: int,
    b: int,
    acc: Seq<(Seq<char>, u64)>,
) -> Option<Seq<(Seq<char>, u64)>>
    decreases b - pos,
{
    if pos >= b {
        Some(acc)
    } else {
        match spec_varint(bs, pos) {
            None => None,
            Some((tag, p1)) => {
                if p1 > b || p1 <= pos {
                    None
                } else {
                    if tag / 8 == 1 && tag % 8 == 2 {
                        match spec_chunk(bs, p1) {
                            None => None,
                            Some((ea, eb)) => if eb > b || eb <= p1 {
                                None
                            } else {
                                match spec_atom_entry(bs, ea, eb, (Seq::<char>::empty(), 0u64)) {
                                    None => None,
                                    Some(entry) => spec_atom_table(bs, eb, b, acc.push(entry)),
                                }
                            },
                        }
                    } else {
                        match spec_skip(bs, p1, tag % 8) {
                            None => None,
                            Some(p2) => if p2 > b || p2 <= p1 {
                                None
                            } else {
                                spec_atom_table(bs, p2, b, acc)
                            },
                        }
                    }
                }
            },
        }
    }
}

/// Parse the atom table between `a` and `b`, appending its entries to
/// `atoms`.
#[verifier::loop_isolation(false)]
fn parse_atom_table(bytes: &Vec<u8>, a: usize, b: usize, atoms: Vec<(String, u64)>) -> (r: Result<
    Vec<(String, u64)>,
    ModelDecodeError,
>)
    requires
        a <= b <= bytes@.len(),
    ensures
        (r is Ok) == (spec_atom_table(bytes@, a as int, b as int, atom_entries_view(atoms@))
            is Some),
        r matches Ok(v) ==> spec_atom_table(bytes@, a as int, b as int, atom_entries_view(atoms@))
            == Some(atom_entries_view(v@)),
        r matches Err(e) ==> e == ModelDecodeError::Malformed,
{
    let ghost bs = bytes@;
    let ghost bi = b as int;
    let ghost atoms0 = atom_entries_view(atoms@);
    let mut atoms = atoms;
    let mut pos = a;
    while pos < b
        invariant
            a <= pos <= b <= bytes@.len(),
            spec_atom_table(bs, a as int, bi, atoms0) == spec_atom_table(
                bs,
                pos as int,
                bi,
                atom_entries_view(atoms@),
            ),
        decreases b - pos,
    {
        let ghost acc0 = atom_entries_view(atoms@);
        let (tag, p1) = match read_varint(bytes, pos) {
            Ok(p) => p,
            Err(e) => {
                proof {
                    assert(spec_atom_table(bs, pos as int, bi, acc0) is None);
                }
                return Err(e);
            },
        };
        if p1 > b {
            proof {
                assert(spec_atom_table(bs, pos as int, bi, acc0) is None);
            }
            return Err(ModelDecodeError::Malformed);
        }
        if tag / 8 == 1 && tag % 8 == 2 {
            let (ea, eb) = match read_len_chunk(bytes, p1) {
                Ok(p) => p,
                Err(e) => {
                    proof {
                        assert(spec_atom_table(bs, pos as int, bi, acc0) is None);
                    }
                    return Err(e);
                },
            };
            if eb > b {
                proof {
                    assert(spec_atom_table(bs, pos as int, bi, acc0) is None);
                }
                return Err(ModelDecodeError::Malformed);
            }
            let entry = match parse_atom_entry(bytes, ea, eb) {
                Ok(p) => p,
                Err(e) => {
                    proof {
                        assert(spec_atom_table(bs, pos as int, bi, acc0) is None);
                    }
                    return Err(e);
                },
            };
            let ghost entry_v = (entry.0@, entry.1);
            atoms.push(entry);
            proof {
                assert(atom_entries_view(atoms@) =~= acc0.push(entry_v));
                assert(spec_atom_table(bs, pos as int, bi, acc0) == spec_atom_table(
                    bs,
                    eb as int,
                    bi,
                    acc0.push(entry_v),
                ));
            }
            pos = eb;
        } else {
            let p2 = match skip_field(bytes, p1, tag % 8) {
                Ok(p) => p,
                Err(e) => {
                    proof {
                        assert(spec_atom_table(bs, pos as int, bi, acc0) is None);
                    }
                    return Err(e);
                },
            };
            if p2 > b {
                proof {
                    assert(spec_atom_table(bs, pos as int, bi, acc0) is None);
                }
                return Err(ModelDecodeError::Malformed);
            }
            proof {
                assert(spec_atom_table(bs, pos as int, bi, acc0) == spec_atom_table(
                    bs,
                    p2 as int,
                    bi,
                    acc0,
                ));
            }
            pos = p2;
        }
    }
    Ok(atoms)
}

/// The lexicon coding statistics between `pos` and `b`, folded over its
/// fields: tokens, boundaries and the weight's bit pattern as in
/// [`spec_coding`], plus the nested atom table (field 4).
pub open spec fn spec_lexicon(
    bs: Seq<u8>,
    pos: int,
    b: int,
    acc: (u64, u64, u64, Seq<(Seq<char>, u64)>),
) -> Option<(u64, u64, u64, Seq<(Seq<char>, u64)>)>
    decreases b - pos,
{
    if pos >= b {
        Some(acc)
    } else {
        match spec_varint(bs, pos) {
            None => None,
            Some((tag, p1)) => {
                if p1 > b || p1 <= pos {
                    None
                } else {
                    let field = tag / 8;
                    let wire = tag % 8;
                    if field == 1 && wire == 0 {
                        match spec_varint(bs, p1) {
                            None => None,
                            Some((v, p2)) => if p2 > b || p2 <= p1 {
                                None
                            } else {
                                spec_lexicon(bs, p2, b, (v, acc.1, acc.2, acc.3))
                            },
                        }
                    } else if field == 2 && wire == 0 {
                        match spec_varint(bs, p1) {
                            None => None,
                            Some((v, p2)) => if p2 > b || p2 <= p1 {
                                None
                            } else {
                                spec_lexicon(bs, p2, b, (acc.0, v, acc.2, acc.3))
                            },
                        }
                    } else if field == 3 && wire == 1 {
                        match spec_fixed64(bs, p1) {
                            None => None,
                            Some((v, p2)) => if p2 > b || p2 <= p1 {
                                None
                            } else {
                                spec_lexicon(bs, p2, b, (acc.0, acc.1, v, acc.3))
                            },
                        }
                    } else if field == 4 && wire == 2 {
                        match spec_chunk(bs, p1) {
                            None => None,
                            Some((ta, tb)) => if tb > b || tb <= p1 {
                                None
                            } else {
                                match spec_atom_table(bs, ta, tb, acc.3) {
                                    None => None,
                                    Some(atoms) => spec_lexicon(
                                        bs,
                                        tb,
                                        b,
                                        (acc.0, acc.1, acc.2, atoms),
                                    ),
                                }
                            },
                        }
                    } else {
                        match spec_skip(bs, p1, wire) {
                            None => None,
                            Some(p2) => if p2 > b || p2 <= p1 {
                                None
                            } else {
                                spec_lexicon(bs, p2, b, acc)
                            },
                        }
                    }
                }
            },
        }
    }
}

/// Parse the lexicon coding statistics between `a` and `b`: tokens,
/// boundaries and weight as in [`parse_coding`], plus the nested atom table
/// (field 4), whose entries (field 1, repeated) map atom strings to counts.
#[verifier::loop_isolation(false)]
#[verifier::rlimit(60)]
#[verifier::spinoff_prover]
fn parse_lexicon(bytes: &Vec<u8>, a: usize, b: usize) -> (r: Result<
    LexiconEncoding,
    ModelDecodeError,
>)
    requires
        a <= b <= bytes@.len(),
    ensures
        (r is Ok) == (spec_lexicon(
            bytes@,
            a as int,
            b as int,
            (0u64, 0u64, 0u64, Seq::<(Seq<char>, u64)>::empty()),
        ) is Some),
        r matches Ok(l) ==> spec_lexicon(
            bytes@,
            a as int,
            b as int,
            (0u64, 0u64, 0u64, Seq::<(Seq<char>, u64)>::empty()),
        ) == Some((l.tokens, l.boundaries, l.weight_bits, l.atoms_view())),
        r matches Err(e) ==> e == ModelDecodeError::Malformed,
{
    let ghost bs = bytes@;
    let ghost bi = b as int;
    let mut tokens: u64 = 0;
    let mut boundaries: u64 = 0;
    let mut weight_bits: u64 = 0;
    let mut atoms: Vec<(String, u64)> = Vec::new();
    proof {
        assert(atom_entries_view(atoms@) =~= Seq::<(Seq<char>, u64)>::empty());
    }
    let mut pos = a;
    while pos < b
        invariant
            a <= pos <= b <= bytes@.len(),
            spec_lexicon(
                bs,
                a as int,
                bi,
                (0u64, 0u64, 0u64, Seq::<(Seq<char>, u64)>::empty()),
            ) == spec_lexicon(
                bs,
                pos as int,
                bi,
                (tokens, boundaries, weight_bits, atom_entries_view(atoms@)),
            ),
        decreases b - pos,
    {
        let ghost acc0 = (tokens, boundaries, weight_bits, atom_entries_view(atoms@));
        let (tag, p1) = match read_varint(bytes, pos) {
            Ok(p) => p,
            Err(e) => {
                proof {
                    assert(spec_lexicon(bs, pos as int, bi, acc0) is None);
                }
                return Err(e);
            },
        };
        if p1 > b {
            proof {
                assert(spec_lexicon(bs, pos as int, bi, acc0) is None);
            }
            return Err(ModelDecodeError::Malformed);
        }
        let field = tag / 8;
        let wire = tag % 8;
        if field == 1 && wire == 0 {
            let (v, p2) = match read_varint(bytes, p1) {
                Ok(p) => p,
                Err(e) => {
                    proof {
                        assert(spec_lexicon(bs, pos as int, bi, acc0) is None);
                    }
                    return Err(e);
                },
            };
            if p2 > b {
                proof {
                    assert(spec_lexicon(bs, pos as int, bi, acc0) is None);
                }
                return Err(ModelDecodeError::Malformed);
            }
            proof {
                assert(spec_lexicon(bs, pos as int, bi, acc0) == spec_lexicon(
                    bs,
                    p2 as int,
                    bi,
                    (v, acc0.1, acc0.2, acc0.3),
                ));
            }
            tokens = v;
            pos = p2;
        } else if field == 2 && wire == 0 {
            let (v, p2) = match read_varint(bytes, p1) {
                Ok(p) => p,
                Err(e) => {
                    proof {
                        assert(spec_lexicon(bs, pos as int, bi, acc0) is None);
                    }
                    return Err(e);
                },
            };
            if p2 > b {
                proof {
                    assert(spec_lexicon(bs, pos as int, bi, acc0) is None);
                }
                return Err(ModelDecodeError::Malformed);
            }
            proof {
                assert(spec_lexicon(bs, pos as int, bi, acc0) == spec_lexicon(
                    bs,
                    p2 as int,
                    bi,
                    (acc0.0, v, acc0.2, acc0.3),
                ));
            }
            boundaries = v;
            pos = p2;
        } else if field == 3 && wire == 1 {
            let (v, p2) = match read_fixed64(bytes, p1) {
                Ok(p) => p,
                Err(e) => {
                    proof {
                        assert(spec_lexicon(bs, pos as int, bi, acc0) is None);
                    }
                    return Err(e);
                },
            };
            if p2 > b {
                proof {
                    assert(spec_lexicon(bs, pos as int, bi, acc0) is None);
                }
                return Err(ModelDecodeError::Malformed);
            }
            proof {
                assert(spec_lexicon(bs, pos as int, bi, acc0) == spec_lexicon(
                    bs,
                    p2 as int,
                    bi,
                    (acc0.0, acc0.1, v, acc0.3),
                ));
            }
            weight_bits = v;
            pos = p2;
        } else if field == 4 && wire == 2 {
            let (ta, tb) = match read_len_chunk(bytes, p1) {
                Ok(p) => p,
                Err(e) => {
                    proof {
                        assert(spec_lexicon(bs, pos as int, bi, acc0) is None);
                    }
                    return Err(e);
                },
            };
            if tb > b {
                proof {
                    assert(spec_lexicon(bs, pos as int, bi, acc0) is None);
                }
                return Err(ModelDecodeError::Malformed);
            }
            atoms = match parse_atom_table(bytes, ta, tb, atoms) {
                Ok(v) => v,
                Err(e) => {
                    proof {
                        assert(spec_lexicon(bs, pos as int, bi, acc0) is None);
                    }
                    return Err(e);
                },
            };
            proof {
                assert(spec_lexicon(bs, pos as int, bi, acc0) == spec_lexicon(
                    bs,
                    tb as int,
                    bi,
                    (acc0.0, acc0.1, acc0.2, atom_entries_view(atoms@)),
                ));
            }
            pos = tb;
        } else {
            let p2 = match skip_field(bytes, p1, wire) {
                Ok(p) => p,
                Err(e) => {
                    proof {
                        assert(spec_lexicon(bs, pos as int, bi, acc0) is None);
                    }
                    return Err(e);
                },
            };
            if p2 > b {
                proof {
                    assert(spec_lexicon(bs, pos as int, bi, acc0) is None);
                }
                return Err(ModelDecodeError::Malformed);
            }
            proof {
                assert(spec_lexicon(bs, pos as int, bi, acc0) == spec_lexicon(
                    bs,
                    p2 as int,
                    bi,
                    acc0,
                ));
            }
            pos = p2;
        }
    }
    Ok(LexiconEncoding { tokens, boundaries, weight_bits, atoms })
}

/// A packed run of varints between `pos` and `b`, appended in order.
pub open spec fn spec_packed(bs: Seq<u8>, pos: int, b: int, acc: Seq<u64>) -> Option<Seq<u64>>
    decreases b - pos,
{
    if pos >= b {
        Some(acc)
    } else {
        match spec_varint(bs, pos) {
            None => None,
            Some((v, p)) => if p > b || p <= pos {
                None
            } else {
                spec_packed(bs, p, b, acc.push(v))
            },
        }
    }
}

/// One analysis value between `pos` and `b`, folded over its fields from the
/// accumulated `(count, split locations)`: the count is field 1 (a varint
/// read as a signed 64-bit value), the split locations field 2 (repeated
/// varint, packed or not).
pub open spec fn spec_analysis(bs: Seq<u8>, pos: int, b: int, acc: (i64, Seq<u64>)) -> Option<
    (i64, Seq<u64>),
>
    decreases b - pos,
{
    if pos >= b {
        Some(acc)
    } else {
        match spec_varint(bs, pos) {
            None => None,
            Some((tag, p1)) => {
                if p1 > b || p1 <= pos {
                    None
                } else {
                    let field = tag / 8;
                    let wire = tag % 8;
                    if field == 1 && wire == 0 {
                        match spec_varint(bs, p1) {
                            None => None,
                            Some((v, p2)) => if p2 > b || p2 <= p1 {
                                None
                            } else {
                                spec_analysis(bs, p2, b, (v as i64, acc.1))
                            },
                        }
                    } else if field == 2 && wire == 0 {
                        match spec_varint(bs, p1) {
                            None => None,
                            Some((v, p2)) => if p2 > b || p2 <= p1 {
                                None
                            } else {
                                spec_analysis(bs, p2, b, (acc.0, acc.1.push(v)))
                            },
                        }
                    } else if field == 2 && wire == 2 {
                        match spec_chunk(bs, p1) {
                            None => None,
                            Some((sa, sb)) => if sb > b || sb <= p1 {
                                None
                            } else {
                                match spec_packed(bs, sa, sb, acc.1) {
                                    None => None,
                                    Some(locs) => spec_analysis(bs, sb, b, (acc.0, locs)),
                                }
                            },
                        }
                    } else {
                        match spec_skip(bs, p1, wire) {
                            None => None,
                            Some(p2) => if p2 > b || p2 <= p1 {
                                None
                            } else {
                                spec_analysis(bs, p2, b, acc)
                            },
                        }
                    }
                }
            },
        }
    }
}

/// Parse one analysis value between `a` and `b`: the construction's count
/// (field 1, varint read as a signed 64-bit value) and its interior split
/// locations (field 2, repeated varint, packed or not).
#[verifier::loop_isolation(false)]
fn parse_analysis(bytes: &Vec<u8>, a: usize, b: usize) -> (r: Result<Analysis, ModelDecodeError>)
    requires
        a <= b <= bytes@.len(),
    ensures
        (r is Ok) == (spec_analysis(bytes@, a as int, b as int, (0i64, Seq::<u64>::empty()))
            is Some),
        r matches Ok(an) ==> spec_analysis(bytes@, a as int, b as int, (0i64, Seq::<u64>::empty()))
            == Some((an.count, an.splitloc@)),
        r matches Err(e) ==> e == ModelDecodeError::Malformed,
{
    let ghost bs = bytes@;
    let ghost bi = b as int;
    let mut count: i64 = 0;
    let mut splitloc: Vec<u64> = Vec::new();
    proof {
        assert(splitloc@ =~= Seq::<u64>::empty());
    }
    let mut pos = a;
    while pos < b
        invariant
            a <= pos <= b <= bytes@.len(),
            spec_analysis(bs, a as int, bi, (0i64, Seq::<u64>::empty())) == spec_analysis(
                bs,
                pos as int,
                bi,
                (count, splitloc@),
            ),
        decreases b - pos,
    {
        let ghost acc0 = (count, splitloc@);
        let (tag, p1) = match read_varint(bytes, pos) {
            Ok(p) => p,
            Err(e) => {
                proof {
                    assert(spec_analysis(bs, pos as int, bi, acc0) is None);
                }
                return Err(e);
            },
        };
        if p1 > b {
            proof {
                assert(spec_analysis(bs, pos as int, bi, acc0) is None);
            }
            return Err(ModelDecodeError::Malformed);
        }
        let field = tag / 8;
        let wire = tag % 8;
        if field == 1 && wire == 0 {
            let (v, p2) = match read_varint(bytes, p1) {
                Ok(p) => p,
                Err(e) => {
                    proof {
                        assert(spec_analysis(bs, pos as int, bi, acc0) is None);
                    }
                    return Err(e);
                },
            };
            if p2 > b {
                proof {
                    assert(spec_analysis(bs, pos as int, bi, acc0) is None);
                }
                return Err(ModelDecodeError::Malformed);
            }
            proof {
                assert(spec_analysis(bs, pos as int, bi, acc0) == spec_analysis(
                    bs,
                    p2 as int,
                    bi,
                    (v as i64, acc0.1),
                ));
            }
            count = v as i64;
            pos = p2;
        } else if field == 2 && wire == 0 {
            let (v, p2) = match read_varint(bytes, p1) {
                Ok(p) => p,
                Err(e) => {
                    proof {
                        assert(spec_analysis(bs, pos as int, bi, acc0) is None);
                    }
                    return Err(e);
                },
            };
            if p2 > b {
                proof {
                    assert(spec_analysis(bs, pos as int, bi, acc0) is None);
                }
                return Err(ModelDecodeError::Malformed);
            }
            splitloc.push(v);
            proof {
                assert(splitloc@ =~= acc0.1.push(v));
                assert(spec_analysis(bs, pos as int, bi, acc0) == spec_analysis(
                    bs,
                    p2 as int,
                    bi,
                    (acc0.0, acc0.1.push(v)),
                ));
            }
            pos = p2;
        } else if field == 2 && wire == 2 {
            let (sa, sb) = match read_len_chunk(bytes, p1) {
                Ok(p) => p,
                Err(e) => {
                    proof {
                        assert(spec_analysis(bs, pos as int, bi, acc0) is None);
                    }
                    return Err(e);
                },
            };
            if sb > b {
                proof {
                    assert(spec_analysis(bs, pos as int, bi, acc0) is None);
                }
                return Err(ModelDecodeError::Malformed);
            }
            let ghost run0 = splitloc@;
            let mut spos = sa;
            while spos < sb
                invariant
                    sa <= spos <= sb <= bytes@.len(),
                    spec_packed(bs, sa as int, sb as int, run0) == spec_packed(
                        bs,
                        spos as int,
                        sb as int,
                        splitloc@,
                    ),
                decreases sb - spos,
            {
                let ghost run_acc = splitloc@;
                let (v, sp) = match read_varint(bytes, spos) {
                    Ok(p) => p,
                    Err(e) => {
                        proof {
                            assert(spec_packed(bs, spos as int, sb as int, run_acc) is None);
                            assert(spec_packed(bs, sa as int, sb as int, run0) is None);
                            assert(spec_analysis(bs, pos as int, bi, acc0) is None);
                        }
                        return Err(e);
                    },
                };
                if sp > sb {
                    proof {
                        assert(spec_packed(bs, spos as int, sb as int, run_acc) is None);
                        assert(spec_packed(bs, sa as int, sb as int, run0) is None);
                        assert(spec_analysis(bs, pos as int, bi, acc0) is None);
                    }
                    return Err(ModelDecodeError::Malformed);
                }
                splitloc.push(v);
                proof {
                    assert(splitloc@ =~= run_acc.push(v));
                    assert(spec_packed(bs, spos as int, sb as int, run_acc) == spec_packed(
                        bs,
                        sp as int,
                        sb as int,
                        run_acc.push(v),
                    ));
                }
                spos = sp;
            }
            proof {
                assert(spec_packed(bs, sa as int, sb as int, run0) == Some(splitloc@));
                assert(spec_analysis(bs, pos as int, bi, acc0) == spec_analysis(
                    bs,
                    sb as int,
                    bi,
                    (acc0.0, splitloc@),
                ));
            }
            pos = sb;
        } else {
            let p2 = match skip_field(bytes, p1, wire) {
                Ok(p) => p,
                Err(e) => {
                    proof {
                        assert(spec_analysis(bs, pos as int, bi, acc0) is None);
                    }
                    return Err(e);
                },
            };
            if p2 > b {
                proof {
                    assert(spec_analysis(bs, pos as int, bi, acc0) is None);
                }
                return Err(ModelDecodeError::Malformed);
            }
            proof {
                assert(spec_analysis(bs, pos as int, bi, acc0) == spec_analysis(
                    bs,
                    p2 as int,
                    bi,
                    acc0,
                ));
            }
            pos = p2;
        }
    }
    Ok(Analysis { count, splitloc })
}

/// One analyses map entry between `pos` and `b`, folded over its fields from
/// the accumulated `(construction, analysis)`: the construction string is
/// field 1, its analysis message field 2.
pub open spec fn spec_analyses_entry(
    bs: Seq<u8>,
    pos: int,
    b: int,
    acc: (Seq<char>, (i64, Seq<u64>)),
) -> Option<(Seq<char>, (i64, Seq<u64>))>
    decreases b - pos,
{
    if pos >= b {
        Some(acc)
    } else {
        match spec_varint(bs, pos) {
            None => None,
            Some((tag, p1)) => {
                if p1 > b || p1 <= pos {
                    None
                } else {
                    let field = tag / 8;
                    let wire = tag % 8;
                    if field == 1 && wire == 2 {
                        match spec_chunk(bs, p1) {
                            None => None,
                            Some((ka, kb)) => if kb > b || kb <= p1 {
                                None
                            } else {
                                match spec_string(bs, ka, kb) {
                                    None => None,
                                    Some(key) => spec_analyses_entry(bs, kb, b, (key, acc.1)),
                                }
                            },
                        }
                    } else if field == 2 && wire == 2 {
                        match spec_chunk(bs, p1) {
                            None => None,
                            Some((va, vb)) => if vb > b || vb <= p1 {
                                None
                            } else {
                                match spec_analysis(bs, va, vb, (0i64, Seq::<u64>::empty())) {
                                    None => None,
                                    Some(value) => spec_analyses_entry(bs, vb, b, (acc.0, value)),
                                }
                            },
                        }
                    } else {
                        match spec_skip(bs, p1, wire) {
                            None => None,
                            Some(p2) => if p2 > b || p2 <= p1 {
                                None
                            } else {
                                spec_analyses_entry(bs, p2, b, acc)
                            },
                        }
                    }
                }
            },
        }
    }
}

/// Parse one analyses map entry between `a` and `b`: the construction string
/// (field 1) and its analysis (field 2).
#[verifier::loop_isolation(false)]
fn parse_analyses_entry(bytes: &Vec<u8>, a: usize, b: usize) -> (r: Result<
    (String, Analysis),
    ModelDecodeError,
>)
    requires
        a <= b <= bytes@.len(),
    ensures
        (r is Ok) == (spec_analyses_entry(
            bytes@,
            a as int,
            b as int,
            (Seq::<char>::empty(), (0i64, Seq::<u64>::empty())),
        ) is Some),
        r matches Ok(p) ==> spec_analyses_entry(
            bytes@,
            a as int,
            b as int,
            (Seq::<char>::empty(), (0i64, Seq::<u64>::empty())),
        ) == Some((p.0@, (p.1.count, p.1.splitloc@))),
        r matches Err(e) ==> e == ModelDecodeError::Malformed,
{
    let ghost bs = bytes@;
    let ghost bi = b as int;
    let mut key = String::new();
    let mut value = Analysis { count: 0, splitloc: Vec::new() };
    proof {
        assert(value.splitloc@ =~= Seq::<u64>::empty());
    }
    let mut pos = a;
    while pos < b
        invariant
            a <= pos <= b <= bytes@.len(),
            spec_analyses_entry(
                bs,
                a as int,
                bi,
                (Seq::<char>::empty(), (0i64, Seq::<u64>::empty())),
            ) == spec_analyses_entry(bs, pos as int, bi, (key@, (value.count, value.splitloc@))),
        decreases b - pos,
    {
        let ghost acc0 = (key@, (value.count, value.splitloc@));
        let (tag, p1) = match read_varint(bytes, pos) {
            Ok(p) => p,
            Err(e) => {
                proof {
                    assert(spec_analyses_entry(bs, pos as int, bi, acc0) is None);
                }
                return Err(e);
            },
        };
        if p1 > b {
            proof {
                assert(spec_analyses_entry(bs, pos as int, bi, acc0) is None);
            }
            return Err(ModelDecodeError::Malformed);
        }
        let field = tag / 8;
        let wire = tag % 8;
        if field == 1 && wire == 2 {
            let (ka, kb) = match read_len_chunk(bytes, p1) {
                Ok(p) => p,
                Err(e) => {
                    proof {
                        assert(spec_analyses_entry(bs, pos as int, bi, acc0) is None);
                    }
                    return Err(e);
                },
            };
            if kb > b {
                proof {
                    assert(spec_analyses_entry(bs, pos as int, bi, acc0) is None);
                }
                return Err(ModelDecodeError::Malformed);
            }
            key = match string_from_utf8(bytes_range(bytes, ka, kb)) {
                Some(s) => s,
                None => {
                    proof {
                        assert(spec_string(bs, ka as int, kb as int) is None);
                        assert(spec_analyses_entry(bs, pos as int, bi, acc0) is None);
                    }
                    return Err(ModelDecodeError::Malformed);
                },
            };
            proof {
                assert(spec_string(bs, ka as int, kb as int) == Some(key@));
                assert(spec_analyses_entry(bs, pos as int, bi, acc0) == spec_analyses_entry(
                    bs,
                    kb as int,
                    bi,
                    (key@, acc0.1),
                ));
            }
            pos = kb;
        } else if field == 2 && wire == 2 {
            let (va, vb) = match read_len_chunk(bytes, p1) {
                Ok(p) => p,
                Err(e) => {
                    proof {
                        assert(spec_analyses_entry(bs, pos as int, bi, acc0) is None);
                    }
                    return Err(e);
                },
            };
            if vb > b {
                proof {
                    assert(spec_analyses_entry(bs, pos as int, bi, acc0) is None);
                }
                return Err(ModelDecodeError::Malformed);
            }
            value = match parse_analysis(bytes, va, vb) {
                Ok(v) => v,
                Err(e) => {
                    proof {
                        assert(spec_analyses_entry(bs, pos as int, bi, acc0) is None);
                    }
                    return Err(e);
                },
            };
            proof {
                assert(spec_analyses_entry(bs, pos as int, bi, acc0) == spec_analyses_entry(
                    bs,
                    vb as int,
                    bi,
                    (acc0.0, (value.count, value.splitloc@)),
                ));
            }
            pos = vb;
        } else {
            let p2 = match skip_field(bytes, p1, wire) {
                Ok(p) => p,
                Err(e) => {
                    proof {
                        assert(spec_analyses_entry(bs, pos as int, bi, acc0) is None);
                    }
                    return Err(e);
                },
            };
            if p2 > b {
                proof {
                    assert(spec_analyses_entry(bs, pos as int, bi, acc0) is None);
                }
                return Err(ModelDecodeError::Malformed);
            }
            proof {
                assert(spec_analyses_entry(bs, pos as int, bi, acc0) == spec_analyses_entry(
                    bs,
                    p2 as int,
                    bi,
                    acc0,
                ));
            }
            pos = p2;
        }
    }
    Ok((key, value))
}

impl BaselineModel {
    /// Every stored construction's count is positive.
    pub open spec fn wf(self) -> bool {
        forall|k: int|
            0 <= k < self.analyses_view().len() ==> (#[trigger] self.analyses_view()[k]).1.0 > 0
    }
}

/// The accumulated state of the top-level model parse: the corpus coding,
/// the lexicon coding and the analyses entries seen so far.
pub open spec fn spec_model_init() -> (
    Option<(u64, u64, u64)>,
    Option<(u64, u64, u64, Seq<(Seq<char>, u64)>)>,
    Seq<(Seq<char>, (i64, Seq<u64>))>,
) {
    (None, None, Seq::empty())
}

/// The model message from `pos` to the end of the input, folded over its
/// fields: the corpus coding is field 1, the lexicon coding field 2, and
/// each analyses map entry a repetition of field 3, kept in order. Bytes
/// that do not parse are malformed; an entry whose count is not positive is
/// a negative-count defect.
pub open spec fn spec_model(
    bs: Seq<u8>,
    pos: int,
    acc: (
        Option<(u64, u64, u64)>,
        Option<(u64, u64, u64, Seq<(Seq<char>, u64)>)>,
        Seq<(Seq<char>, (i64, Seq<u64>))>,
    ),
) -> Result<
    (
        Option<(u64, u64, u64)>,
        Option<(u64, u64, u64, Seq<(Seq<char>, u64)>)>,
        Seq<(Seq<char>, (i64, Seq<u64>))>,
    ),
    ModelDecodeError,
>
    decreases bs.len() - pos,
{
    if pos >= bs.len() {
        Ok(acc)
    } else {
        match spec_varint(bs, pos) {
            None => Err(ModelDecodeError::Malformed),
            Some((tag, p1)) => {
                if p1 <= pos || p1 > bs.len() {
                    Err(ModelDecodeError::Malformed)
                } else {
                    let field = tag / 8;
                    let wire = tag % 8;
                    if field == 1 && wire == 2 {
                        match spec_chunk(bs, p1) {
                            None => Err(ModelDecodeError::Malformed),
                            Some((ca, cb)) => if cb <= p1 {
                                Err(ModelDecodeError::Malformed)
                            } else {
                                match spec_coding(bs, ca, cb, (0u64, 0u64, 0u64)) {
                                    None => Err(ModelDecodeError::Malformed),
                                    Some(c) => spec_model(bs, cb, (Some(c), acc.1, acc.2)),
                                }
                            },
                        }
                    } else if field == 2 && wire == 2 {
                        match spec_chunk(bs, p1) {
                            None => Err(ModelDecodeError::Malformed),
                            Some((la, lb)) => if lb <= p1 {
                                Err(ModelDecodeError::Malformed)
                            } else {
                                match spec_lexicon(
                                    bs,
                                    la,
                                    lb,
                                    (0u64, 0u64, 0u64, Seq::<(Seq<char>, u64)>::empty()),
                                ) {
                                    None => Err(ModelDecodeError::Malformed),
                                    Some(l) => spec_model(bs, lb, (acc.0, Some(l), acc.2)),
                                }
                            },
                        }
                    } else if field == 3 && wire == 2 {
                        match spec_chunk(bs, p1) {
                            None => Err(ModelDecodeError::Malformed),
                            Some((ea, eb)) => if eb <= p1 {
                                Err(ModelDecodeError::Malformed)
                            } else {
                                match spec_analyses_entry(
                                    bs,
                                    ea,
                                    eb,
                                    (Seq::<char>::empty(), (0i64, Seq::<u64>::empty())),
                                ) {
                                    None => Err(ModelDecodeError::Malformed),
                                    Some(entry) => if entry.1.0 <= 0 {
                                        Err(ModelDecodeError::NegativeCount)
                                    } else {
                                        spec_model(bs, eb, (acc.0, acc.1, acc.2.push(entry)))
                                    },
                                }
                            },
                        }
                    } else {
                        match spec_skip(bs, p1, wire) {
                            None => Err(ModelDecodeError::Malformed),
                            Some(p2) => if p2 <= p1 || p2 > bs.len() {
                                Err(ModelDecodeError::Malformed)
                            } else {
                                spec_model(bs, p2, acc)
                            },
                        }
                    }
                }
            },
        }
    }
}

/// The corpus coding statistics an optional decoded section holds.
spec fn corpus_opt_view(c: Option<CorpusEncoding>) -> Option<(u64, u64, u64)> {
    match c {
        Some(x) => Some((x.tokens, x.boundaries, x.weight_bits)),
        None => None,
    }
}

/// The lexicon coding statistics an optional decoded section holds.
spec fn lexicon_opt_view(l: Option<LexiconEncoding>) -> Option<
    (u64, u64, u64, Seq<(Seq<char>, u64)>),
> {
    match l {
        Some(x) => Some((x.tokens, x.boundaries, x.weight_bits, x.atoms_view())),
        None => None,
    }
}

/// Decode a morphological cost model from its binary serialized resource:
/// corpus coding statistics (field 1), lexicon coding statistics (field 2)
/// and the analyses map (field 3, repeated entries), as [`spec_model`]
/// states field by field. Both coding sections must be present; bytes that
/// do not parse are [`ModelDecodeError::Malformed`], and a stored
/// construction whose count is not positive is
/// [`ModelDecodeError::NegativeCount`] — never a silently usable model.
#[verifier::loop_isolation(false)]
pub fn decode_model(bytes: &Vec<u8>) -> (r: Result<BaselineModel, ModelDecodeError>)
    ensures
        r matches Ok(m) ==> m.wf(),
        ({
            let parsed = spec_model(bytes@, 0, spec_model_init());
            match parsed {
                Err(e) => r == Err::<BaselineModel, ModelDecodeError>(e),
                Ok(st) => match (st.0, st.1) {
                    (Some(c), Some(l)) => r matches Ok(m) && {
                        &&& m.corpus_coding.tokens == c.0
                        &&& m.corpus_coding.boundaries == c.1
                        &&& m.corpus_coding.weight_bits == c.2
                        &&& m.lexicon_coding.tokens == l.0
                        &&& m.lexicon_coding.boundaries == l.1
                        &&& m.lexicon_coding.weight_bits == l.2
                        &&& m.lexicon_coding.atoms_view() == l.3
                        &&& m.analyses_view() == st.2
                    },
                    _ => r == Err::<BaselineModel, ModelDecodeError>(ModelDecodeError::Malformed),
                },
            }
        }),
{
    let ghost bs = bytes@;
    let n = bytes.len();
    let mut corpus: Option<CorpusEncoding> = None;
    let mut lexicon: Option<LexiconEncoding> = None;
    let mut analyses: Vec<(String, Analysis)> = Vec::new();
    proof {
        assert(analysis_entries_view(analyses@) =~= Seq::<(Seq<char>, (i64, Seq<u64>))>::empty());
    }
    let mut pos: usize = 0;
    while pos < n
        invariant
            0 <= pos <= n == bytes@.len(),
            spec_model(bs, 0, spec_model_init()) == spec_model(
                bs,
                pos as int,
                (corpus_opt_view(corpus), lexicon_opt_view(lexicon), analysis_entries_view(
                    analyses@,
                )),
            ),
            forall|k: int| 0 <= k < analyses@.len() ==> (#[trigger] analyses@[k]).1.count > 0,
        decreases n - pos,
    {
        let ghost acc0 = (
            corpus_opt_view(corpus),
            lexicon_opt_view(lexicon),
            analysis_entries_view(analyses@),
        );
        let (tag, p1) = match read_varint(bytes, pos) {
            Ok(p) => p,
            Err(e) => {
                proof {
                    assert(spec_model(bs, pos as int, acc0) == Err::<
                        (
                            Option<(u64, u64, u64)>,
                            Option<(u64, u64, u64, Seq<(Seq<char>, u64)>)>,
                            Seq<(Seq<char>, (i64, Seq<u64>))>,
                        ),
                        ModelDecodeError,
                    >(ModelDecodeError::Malformed));
                }
                return Err(e);
            },
        };
        let field = tag / 8;
        let wire = tag % 8;
        if field == 1 && wire == 2 {
            let (ca, cb) = match read_len_chunk(bytes, p1) {
                Ok(p) => p,
                Err(e) => {
                    proof {
                        assert(spec_model(bs, pos as int, acc0) is Err);
                    }
                    return Err(e);
                },
            };
            let (tokens, boundaries, weight_bits) = match parse_coding(bytes, ca, cb) {
                Ok(p) => p,
                Err(e) => {
                    proof {
                        assert(spec_model(bs, pos as int, acc0) is Err);
                    }
                    return Err(e);
                },
            };
            corpus = Some(CorpusEncoding { tokens, boundaries, weight_bits });
            proof {
                assert(spec_model(bs, pos as int, acc0) == spec_model(
                    bs,
                    cb as int,
                    (corpus_opt_view(corpus), acc0.1, acc0.2),
                ));
            }
            pos = cb;
        } else if field == 2 && wire == 2 {
            let (la, lb) = match read_len_chunk(bytes, p1) {
                Ok(p) => p,
                Err(e) => {
                    proof {
                        assert(spec_model(bs, pos as int, acc0) is Err);
                    }
                    return Err(e);
                },
            };
            let lex = match parse_lexicon(bytes, la, lb) {
                Ok(p) => p,
                Err(e) => {
                    proof {
                        assert(spec_model(bs, pos as int, acc0) is Err);
                    }
                    return Err(e);
                },
            };
            lexicon = Some(lex);
            proof {
                assert(spec_model(bs, pos as int, acc0) == spec_model(
                    bs,
                    lb as int,
                    (acc0.0, lexicon_opt_view(lexicon), acc0.2),
                ));
            }
            pos = lb;
        } else if field == 3 && wire == 2 {
            let (ea, eb) = match read_len_chunk(bytes, p1) {
                Ok(p) => p,
                Err(e) => {
                    proof {
                        assert(spec_model(bs, pos as int, acc0) is Err);
                    }
                    return Err(e);
                },
            };
            let entry = match parse_analyses_entry(bytes, ea, eb) {
                Ok(p) => p,
                Err(e) => {
                    proof {
                        assert(spec_model(bs, pos as int, acc0) is Err);
                    }
                    return Err(e);
                },
            };
            if entry.1.count <= 0 {
                proof {
                    assert(spec_model(bs, pos as int, acc0) == Err::<
                        (
                            Option<(u64, u64, u64)>,
                            Option<(u64, u64, u64, Seq<(Seq<char>, u64)>)>,
                            Seq<(Seq<char>, (i64, Seq<u64>))>,
                        ),
                        ModelDecodeError,
                    >(ModelDecodeError::NegativeCount));
                }
                return Err(ModelDecodeError::NegativeCount);
            }
            let ghost entry_v = (entry.0@, (entry.1.count, entry.1.splitloc@));
            analyses.push(entry);
            proof {
                assert(analysis_entries_view(analyses@) =~= acc0.2.push(entry_v));
                assert(spec_model(bs, pos as int, acc0) == spec_model(
                    bs,
                    eb as int,
                    (acc0.0, acc0.1, acc0.2.push(entry_v)),
                ));
            }
            pos = eb;
        } else {
            let p2 = match skip_field(bytes, p1, wire) {
                Ok(p) => p,
                Err(e) => {
                    proof {
                        assert(spec_model(bs, pos as int, acc0) is Err);
                    }
                    return Err(e);
                },
            };
            proof {
                assert(spec_model(bs, pos as int, acc0) == spec_model(bs, p2 as int, acc0));
            }
            pos = p2;
        }
    }
    let corpus_coding = match corpus {
        Some(c) => c,
        None => {
            return Err(ModelDecodeError::Malformed);
        },
    };
    let lexicon_coding = match lexicon {
        Some(l) => l,
        None => {
            return Err(ModelDecodeError::Malformed);
        },
    };
    let model = BaselineModel { corpus_coding, lexicon_coding, analyses };
    proof {
        assert forall|k: int| 0 <= k < model.analyses_view().len() implies (
        #[trigger] model.analyses_view()[k]).1.0 > 0 by {
            assert(model.analyses_view()[k].1.0 == model.analyses@[k].1.count);
        }
    }
    Ok(model)
}

} // verus!
