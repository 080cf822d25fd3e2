//! The 7z variable-length integer and the shared digest / bitmap helpers.
use crate::error::ParseError;
use vstd::arithmetic::div_mod::{
    lemma_breakdown, lemma_div_denominator, lemma_fundamental_div_mod, lemma_mod_bound,
};
use vstd::arithmetic::mul::lemma_mul_is_associative;
use vstd::prelude::*;
use vstd::slice::slice_subrange;

verus! {

/// `256^n`.
pub open spec fn pow256(n: nat) -> nat
    decreases n,
{
    if n == 0 {
        1
    } else {
        256 * pow256((n - 1) as nat)
    }
}

/// The little-endian value of a byte sequence.
pub open spec fn le_value(s: Seq<u8>) -> nat
    decreases s.len(),
{
    if s.len() == 0 {
        0
    } else {
        s[0] as nat + 256 * le_value(s.drop_first())
    }
}

/// The `n` low-order bytes of `v`, least significant first.
pub open spec fn le_bytes(v: nat, n: nat) -> Seq<u8>
    decreases n,
{
    if n == 0 {
        Seq::empty()
    } else {
        le_bytes(v, (n - 1) as nat).push(((v / pow256((n - 1) as nat)) % 256) as u8)
    }
}

/// Number of value bytes that follow the first byte of a 7z varint: the count
/// of leading one bits of the first byte.
pub open spec fn varint_extra_len(first: u8) -> nat {
    if first < 0x80 {
        0
    } else if first < 0xC0 {
        1
    } else if first < 0xE0 {
        2
    } else if first < 0xF0 {
        3
    } else if first < 0xF8 {
        4
    } else if first < 0xFC {
        5
    } else if first < 0xFE {
        6
    } else if first < 0xFF {
        7
    } else {
        8
    }
}

/// The first byte's marker bits for `n` extra bytes: `n` leading ones.
pub open spec fn varint_prefix(n: nat) -> nat {
    if n == 0 {
        0
    } else if n == 1 {
        0x80
    } else if n == 2 {
        0xC0
    } else if n == 3 {
        0xE0
    } else if n == 4 {
        0xF0
    } else if n == 5 {
        0xF8
    } else if n == 6 {
        0xFC
    } else if n == 7 {
        0xFE
    } else {
        0xFF
    }
}

/// The marker bit that the encoder tests after emitting `n` value bytes.
pub open spec fn varint_mask(n: nat) -> nat {
    if n == 0 {
        0x80
    } else if n == 1 {
        0x40
    } else if n == 2 {
        0x20
    } else if n == 3 {
        0x10
    } else if n == 4 {
        0x8
    } else if n == 5 {
        0x4
    } else if n == 6 {
        0x2
    } else if n == 7 {
        0x1
    } else {
        0
    }
}

/// Decoding of a 7z varint at the start of `s`: the number of bytes it
/// occupies and its value. The first byte's `n` leading one bits announce `n`
/// little-endian value bytes; its remaining low bits are the most significant
/// part of the value.
pub open spec fn spec_varint_decode(s: Seq<u8>) -> Option<(nat, nat)> {
    if s.len() == 0 {
        None
    } else {
        let n = varint_extra_len(s[0]);
        if s.len() < 1 + n {
            None
        } else {
            Some(
                (
                    1 + n,
                    le_value(s.subrange(1, 1 + n as int)) + (s[0] - varint_prefix(n)) as nat * pow256(n),
                ),
            )
        }
    }
}

/// Number of value bytes the encoder emits for `v`: the least `n` with
/// `v < 2^(7 + 7n)`, and 8 when there is none.
pub open spec fn varint_encoded_extra(v: u64) -> nat {
    if v < 0x80 {
        0
    } else if v < 0x4000 {
        1
    } else if v < 0x20_0000 {
        2
    } else if v < 0x1000_0000 {
        3
    } else if v < 0x8_0000_0000 {
        4
    } else if v < 0x400_0000_0000 {
        5
    } else if v < 0x2_0000_0000_0000 {
        6
    } else if v < 0x100_0000_0000_0000 {
        7
    } else {
        8
    }
}

/// The 7z varint encoding of `v`.
pub open spec fn spec_varint_encode(v: u64) -> Seq<u8> {
    let n = varint_encoded_extra(v);
    seq![(varint_prefix(n) + v as nat / pow256(n)) as u8] + le_bytes(v as nat, n)
}

pub proof fn lemma_pow256_values()
    ensures
        pow256(0) == 1,
        pow256(1) == 0x100,
        pow256(2) == 0x1_0000,
        pow256(3) == 0x100_0000,
        pow256(4) == 0x1_0000_0000,
        pow256(5) == 0x100_0000_0000,
        pow256(6) == 0x1_0000_0000_0000,
        pow256(7) == 0x100_0000_0000_0000,
        pow256(8) == 0x1_0000_0000_0000_0000,
{
    reveal_with_fuel(pow256, 9);
}

pub proof fn lemma_pow256_positive(n: nat)
    ensures
        pow256(n) > 0,
    decreases n,
{
    if n > 0 {
        lemma_pow256_positive((n - 1) as nat);
    }
}

pub proof fn lemma_le_value_bound(s: Seq<u8>)
    ensures
        le_value(s) < pow256(s.len()),
    decreases s.len(),
{
    if s.len() > 0 {
        lemma_le_value_bound(s.drop_first());
    }
}

pub proof fn lemma_le_value_push(s: Seq<u8>, b: u8)
    ensures
        le_value(s.push(b)) == le_value(s) + b as nat * pow256(s.len()),
    decreases s.len(),
{
    if s.len() == 0 {
        assert(s.push(b).drop_first() =~= Seq::<u8>::empty());
        assert(s.push(b)[0] == b);
        assert(pow256(0) == 1);
        assert(le_value(Seq::<u8>::empty()) == 0);
    } else {
        assert(s.push(b).drop_first() =~= s.drop_first().push(b));
        assert(s.push(b)[0] == s[0]);
        lemma_le_value_push(s.drop_first(), b);
        let p = pow256((s.len() - 1) as nat);
        assert(pow256(s.len()) == 256 * p);
        assert(256 * (b as nat * p) == b as nat * (256 * p)) by (nonlinear_arith);
        assert(256 * (le_value(s.drop_first()) + b as nat * p) == 256 * le_value(s.drop_first())
            + 256 * (b as nat * p)) by (nonlinear_arith);
    }
}

/// `v / p < m` exactly when `v < m * p`.
pub proof fn lemma_div_lt_iff(v: nat, p: nat, m: nat)
    requires
        p > 0,
    ensures
        (v / p < m) <==> (v < m * p),
{
    lemma_fundamental_div_mod(v as int, p as int);
    let q = v / p;
    let r = v % p;
    assert(v == p * q + r);
    assert(r < p);
    if q < m {
        assert(p * q + r < m * p) by (nonlinear_arith)
            requires
                q < m,
                r < p,
                p > 0,
        ;
    } else {
        assert(p * q + r >= m * p) by (nonlinear_arith)
            requires
                q >= m,
                p > 0,
        ;
    }
}

pub proof fn lemma_le_bytes_len(v: nat, n: nat)
    ensures
        le_bytes(v, n).len() == n,
    decreases n,
{
    if n > 0 {
        lemma_le_bytes_len(v, (n - 1) as nat);
    }
}

pub proof fn lemma_le_value_le_bytes(v: nat, n: nat)
    ensures
        le_value(le_bytes(v, n)) == v % pow256(n),
    decreases n,
{
    if n == 0 {
    } else {
        let m = (n - 1) as nat;
        lemma_le_value_le_bytes(v, m);
        lemma_le_bytes_len(v, m);
        let p = pow256(m);
        lemma_pow256_positive(m);
        let b = ((v / p) % 256) as u8;
        lemma_mod_bound((v / p) as int, 256);
        lemma_le_value_push(le_bytes(v, m), b);
        lemma_breakdown(v as int, p as int, 256);
        assert(p * 256 == pow256(n));
    }
}

/// Saturate a `u64` count down to `usize`, capped at `max` so that
/// preallocation never reserves more than the input actually contains.
#[must_use]
pub fn usize_cap(n: u64, max: usize) -> (r: usize)
    ensures
        r == if n < max { n as nat } else { max as nat },
{
    if n < max as u64 {
        n as usize
    } else {
        max
    }
}

fn varint_prefix_byte(n: usize) -> (r: u8)
    requires
        n <= 8,
    ensures
        r as nat == varint_prefix(n as nat),
{
    if n == 0 {
        0
    } else if n == 1 {
        0x80
    } else if n == 2 {
        0xC0
    } else if n == 3 {
        0xE0
    } else if n == 4 {
        0xF0
    } else if n == 5 {
        0xF8
    } else if n == 6 {
        0xFC
    } else if n == 7 {
        0xFE
    } else {
        0xFF
    }
}

fn varint_extra_len_of(first: u8) -> (r: usize)
    ensures
        r as nat == varint_extra_len(first),
        r <= 8,
{
    if first < 0x80 {
        0
    } else if first < 0xC0 {
        1
    } else if first < 0xE0 {
        2
    } else if first < 0xF0 {
        3
    } else if first < 0xF8 {
        4
    } else if first < 0xFC {
        5
    } else if first < 0xFE {
        6
    } else if first < 0xFF {
        7
    } else {
        8
    }
}

/// Encode a u64 as a 7z variable-length integer (1–9 bytes).
///
/// Bit (7-i) of the first byte is set when byte (i+1) carries value bits
/// [8i .. 8i+7].
#[must_use]
pub fn sevenzip_varuint64_encode(value: u64) -> (r: Vec<u8>)
    ensures
        r@ == spec_varint_encode(value),
        1 <= r.len() <= 9,
{
    let mut result: Vec<u8> = vec![0u8];
    let mut first: u8 = 0;
    let mut rest: u64 = value;
    let mut mask: u8 = 0x80;
    let mut i: usize = 0;
    let ghost v = value as nat;
    proof {
        lemma_pow256_values();
        assert(result@ =~= seq![0u8] + le_bytes(v, 0));
    }
    loop
        invariant_except_break
            i < 8,
            first as nat == varint_prefix(i as nat),
            mask as nat == varint_mask(i as nat),
            rest as nat == v / pow256(i as nat),
            result@ == seq![0u8] + le_bytes(v, i as nat),
            i <= varint_encoded_extra(value),
            v == value as nat,
        ensures
            i <= 8,
            i == varint_encoded_extra(value),
            first as nat == varint_prefix(i as nat),
            rest as nat == v / pow256(i as nat),
            i < 8 ==> rest < mask,
            i < 8 ==> mask as nat == varint_mask(i as nat),
            i == 8 ==> rest == 0,
            result@ == seq![0u8] + le_bytes(v, i as nat),
        decreases 8 - i,
    {
        proof {
            lemma_pow256_values();
            lemma_pow256_positive(i as nat);
        }
        if rest < mask as u64 {
            proof {
                lemma_div_lt_iff(v, pow256(i as nat), mask as nat);
            }
            break;
        }
        proof {
            lemma_div_lt_iff(v, pow256(i as nat), mask as nat);
        }
        first = first + mask;
        let byte: u8 = (rest % 256) as u8;
        result.push(byte);
        rest = rest / 256;
        mask = mask / 2;
        i = i + 1;
        proof {
            lemma_div_denominator(v as int, pow256((i - 1) as nat) as int, 256);
            assert(pow256((i - 1) as nat) * 256 == pow256(i as nat));
            assert(result@ =~= seq![0u8] + le_bytes(v, i as nat));
        }
        if mask == 0 {
            proof {
                assert(v / pow256(8) == 0) by {
                    assert(v < pow256(8));
                }
            }
            break;
        }
    }
    proof {
        assert(first as nat + rest as nat <= 255) by {
            if i < 8 {
                assert(varint_prefix(i as nat) + varint_mask(i as nat) <= 0xFF);
            }
        }
    }
    result.set(0, first + rest as u8);
    proof {
        lemma_pow256_values();
        lemma_le_bytes_len(v, i as nat);
        assert(result@ =~= spec_varint_encode(value));
    }
    result
}

/// Decode a 7z variable-length integer from the start of `input`, returning
/// the bytes that follow it and its value.
pub fn sevenzip_varuint64_decode(input: &[u8]) -> (res: Result<(&[u8], u64), ParseError>)
    ensures
        match spec_varint_decode(input@) {
            None => res is Err,
            Some((c, v)) => res matches Ok((rem, x)) && rem@ == input@.skip(c as int) && x as nat
                == v,
        },
{
    if input.len() == 0 {
        return Err(ParseError);
    }
    let first = input[0];
    let n = varint_extra_len_of(first);
    if input.len() - 1 < n {
        return Err(ParseError);
    }
    let mut value: u64 = 0;
    let mut factor: u64 = 1;
    let mut i: usize = 0;
    proof {
        lemma_pow256_values();
        assert(input@.subrange(1, 1) =~= Seq::<u8>::empty());
    }
    while i < n
        invariant
            n <= 8,
            1 + n <= input.len(),
            i <= n,
            value as nat == le_value(input@.subrange(1, 1 + i as int)),
            factor as nat == pow256(if i < 8 { i as nat } else { 7 }),
        decreases n - i,
    {
        proof {
            lemma_pow256_values();
            lemma_le_value_bound(input@.subrange(1, 1 + i as int));
            assert(input@.subrange(1, 1 + i as int + 1) =~= input@.subrange(1, 1 + i as int).push(
                input@[1 + i as int],
            ));
            lemma_le_value_push(input@.subrange(1, 1 + i as int), input@[1 + i as int]);
            assert(input@[1 + i as int] as nat * pow256(i as nat) <= 255 * pow256(i as nat))
                by (nonlinear_arith);
        }
        let b = input[1 + i];
        value = value + (b as u64) * factor;
        if i < 7 {
            factor = factor * 256;
        }
        i = i + 1;
    }
    let ghost low = le_value(input@.subrange(1, 1 + n as int));
    if n < 8 {
        let high: u64 = (first - varint_prefix_byte(n)) as u64;
        proof {
            lemma_pow256_values();
            lemma_le_value_bound(input@.subrange(1, 1 + n as int));
            assert(high as nat * pow256(n as nat) + pow256(n as nat) <= 0x100_0000_0000_0000)
                by (nonlinear_arith)
                requires
                    n < 8,
                    n == 0 ==> high < 0x80 && pow256(n as nat) == 1,
                    n == 1 ==> high < 0x40 && pow256(n as nat) == 0x100,
                    n == 2 ==> high < 0x20 && pow256(n as nat) == 0x1_0000,
                    n == 3 ==> high < 0x10 && pow256(n as nat) == 0x100_0000,
                    n == 4 ==> high < 0x8 && pow256(n as nat) == 0x1_0000_0000,
                    n == 5 ==> high < 0x4 && pow256(n as nat) == 0x100_0000_0000,
                    n == 6 ==> high < 0x2 && pow256(n as nat) == 0x1_0000_0000_0000,
                    n == 7 ==> high < 0x1 && pow256(n as nat) == 0x100_0000_0000_0000,
            ;
        }
        value = value + high * factor;
    } else {
        proof {
            lemma_pow256_values();
        }
    }
    let rem = slice_subrange(input, 1 + n, input.len());
    Ok((rem, value))
}

/// Roundtrip law of the 7z varint: decoding the encoding of `v`, followed by
/// any bytes at all, gives back `v` and consumes exactly the encoding.
pub proof fn lemma_varint_roundtrip(v: u64, rest: Seq<u8>)
    ensures
        spec_varint_decode(spec_varint_encode(v) + rest) == Some(
            (spec_varint_encode(v).len(), v as nat),
        ),
{
    let n = varint_encoded_extra(v);
    let e = spec_varint_encode(v);
    let s = e + rest;
    lemma_pow256_values();
    lemma_le_bytes_len(v as nat, n);
    lemma_pow256_positive(n);
    let q = v as nat / pow256(n);
    // The quotient fits under the first byte's marker bits.
    lemma_div_lt_iff(v as nat, pow256(n), varint_mask(n));
    assert(n < 8 ==> q < varint_mask(n));
    assert(n == 8 ==> q == 0) by {
        if n == 8 {
            lemma_div_lt_iff(v as nat, pow256(n), 1);
        }
    }
    assert(s[0] as nat == varint_prefix(n) + q);
    assert(varint_extra_len(s[0]) == n);
    assert(s.subrange(1, 1 + n as int) =~= le_bytes(v as nat, n));
    lemma_le_value_le_bytes(v as nat, n);
    lemma_fundamental_div_mod(v as int, pow256(n) as int);
    assert(le_value(le_bytes(v as nat, n)) + q * pow256(n) == v);
}


/// A parser over bytes (as a specification): `Some((consumed, value))` on success.
pub open spec fn bounded_parser<T>(p: spec_fn(Seq<u8>) -> Option<(nat, T)>) -> bool {
    forall|t: Seq<u8>| (#[trigger] p(t)) is Some ==> p(t).unwrap().0 <= t.len()
}

/// Running parser `p` `k` times, each time on the bytes after the previous
/// result: the total number of bytes consumed and the results in order.
pub open spec fn spec_repeat<T>(p: spec_fn(Seq<u8>) -> Option<(nat, T)>, s: Seq<u8>, k: nat) -> Option<
    (nat, Seq<T>),
>
    decreases k,
{
    if k == 0 {
        Some((0, Seq::empty()))
    } else {
        match spec_repeat(p, s, (k - 1) as nat) {
            None => None,
            Some((c, vs)) => match p(s.skip(c as int)) {
                None => None,
                Some((c2, v)) => Some((c + c2, vs.push(v))),
            },
        }
    }
}

pub proof fn lemma_repeat_bounded<T>(p: spec_fn(Seq<u8>) -> Option<(nat, T)>, s: Seq<u8>, k: nat)
    requires
        bounded_parser(p),
    ensures
        spec_repeat(p, s, k) matches Some((c, vs)) ==> c <= s.len() && vs.len() == k,
    decreases k,
{
    if k > 0 {
        lemma_repeat_bounded(p, s, (k - 1) as nat);
        if let Some((c, vs)) = spec_repeat(p, s, (k - 1) as nat) {
            let t = s.skip(c as int);
            assert(p(t) matches Some((c2, _)) ==> c2 <= t.len());
        }
    }
}

pub proof fn lemma_repeat_none_propagates<T>(
    p: spec_fn(Seq<u8>) -> Option<(nat, T)>,
    s: Seq<u8>,
    i: nat,
    k: nat,
)
    requires
        i <= k,
        spec_repeat(p, s, i) is None,
    ensures
        spec_repeat(p, s, k) is None,
    decreases k,
{
    if k > i {
        lemma_repeat_none_propagates(p, s, i, (k - 1) as nat);
    }
}

/// Skipping `a` then `b` elements is skipping `a + b` elements.
pub proof fn lemma_skip_skip<T>(s: Seq<T>, a: nat, b: nat)
    requires
        a + b <= s.len(),
    ensures
        s.skip(a as int).skip(b as int) == s.skip((a + b) as int),
{
    assert(s.skip(a as int).skip(b as int) =~= s.skip((a + b) as int));
}

/// The varint parser as a specification value.
pub open spec fn varint_parser() -> spec_fn(Seq<u8>) -> Option<(nat, u64)> {
    |t: Seq<u8>|
        match spec_varint_decode(t) {
            None => None,
            Some((c, v)) => if v <= u64::MAX {
                Some((c, v as u64))
            } else {
                None
            },
        }
}

pub proof fn lemma_varint_decode_fits(s: Seq<u8>)
    ensures
        spec_varint_decode(s) matches Some((c, v)) ==> v <= u64::MAX && 1 <= c <= s.len(),
{
    if let Some((c, v)) = spec_varint_decode(s) {
        let n = varint_extra_len(s[0]);
        lemma_pow256_values();
        lemma_le_value_bound(s.subrange(1, 1 + n as int));
        let high = (s[0] - varint_prefix(n)) as nat;
        assert(high * pow256(n) + pow256(n) <= 0x1_0000_0000_0000_0000) by (nonlinear_arith)
            requires
                n <= 8,
                n == 0 ==> high < 0x80 && pow256(n) == 1,
                n == 1 ==> high < 0x40 && pow256(n) == 0x100,
                n == 2 ==> high < 0x20 && pow256(n) == 0x1_0000,
                n == 3 ==> high < 0x10 && pow256(n) == 0x100_0000,
                n == 4 ==> high < 0x8 && pow256(n) == 0x1_0000_0000,
                n == 5 ==> high < 0x4 && pow256(n) == 0x100_0000_0000,
                n == 6 ==> high < 0x2 && pow256(n) == 0x1_0000_0000_0000,
                n == 7 ==> high < 0x1 && pow256(n) == 0x100_0000_0000_0000,
                n == 8 ==> high == 0 && pow256(n) == 0x1_0000_0000_0000_0000,
        ;
    }
}

pub proof fn lemma_varint_parser_bounded()
    ensures
        bounded_parser(varint_parser()),
{
    assert forall|t: Seq<u8>| (#[trigger] varint_parser()(t)) is Some implies varint_parser()(t).unwrap().0 <= t.len() by {
        lemma_varint_decode_fits(t);
    }
}

/// Read `k` consecutive varints from the start of `input`.
pub fn parse_varints(input: &[u8], k: u64) -> (res: Result<(&[u8], Vec<u64>), ParseError>)
    ensures
        match spec_repeat(varint_parser(), input@, k as nat) {
            None => res is Err,
            Some((c, vs)) => res matches Ok((rem, xs)) && rem@ == input@.skip(c as int) && xs@
                == vs && c <= input@.len(),
        },
{
    let mut rem = input;
    let mut xs: Vec<u64> = Vec::new();
    let mut i: u64 = 0;
    let ghost mut c: nat = 0;
    proof {
        lemma_varint_parser_bounded();
    }
    while i < k
        invariant
            i <= k,
            bounded_parser(varint_parser()),
            spec_repeat(varint_parser(), input@, i as nat) == Some((c, xs@)),
            c <= input@.len(),
            rem@ == input@.skip(c as int),
        decreases k - i,
    {
        match sevenzip_varuint64_decode(rem) {
            Ok((r, v)) => {
                proof {
                    lemma_varint_decode_fits(rem@);
                    let c2 = spec_varint_decode(rem@).unwrap().0;
                    lemma_skip_skip(input@, c, c2);
                    c = c + c2;
                }
                xs.push(v);
                rem = r;
                i = i + 1;
            },
            Err(e) => {
                proof {
                    lemma_repeat_none_propagates(varint_parser(), input@, (i + 1) as nat, k as nat);
                }
                return Err(e);
            },
        }
    }
    Ok((rem, xs))
}

/// Whether bit `index` of an MSB-first bitmap is set (bits past the end are clear).
pub open spec fn spec_bitmap_is_set(bitmap: Seq<u8>, index: nat) -> bool {
    index / 8 < bitmap.len() && (bitmap[(index / 8) as int] >> ((7 - index % 8) as u8)) & 1u8
        == 1u8
}

/// Whether bit `index` of an MSB-first bitmap is set (bits past the end are clear).
pub fn bitmap_is_set(bitmap: &[u8], index: usize) -> (r: bool)
    ensures
        r == spec_bitmap_is_set(bitmap@, index as nat),
{
    if index / 8 < bitmap.len() {
        let b = bitmap[index / 8];
        let shift: u8 = (7 - index % 8) as u8;
        (b >> shift) & 1 == 1
    } else {
        false
    }
}

/// Number of set bits among the first `num` bits of an MSB-first bitmap.
pub open spec fn spec_count_set(bitmap: Seq<u8>, num: nat) -> nat
    decreases num,
{
    if num == 0 {
        0
    } else {
        spec_count_set(bitmap, (num - 1) as nat) + if spec_bitmap_is_set(bitmap, (num - 1) as nat) {
            1nat
        } else {
            0nat
        }
    }
}

pub proof fn lemma_count_set_bound(bitmap: Seq<u8>, num: nat)
    ensures
        spec_count_set(bitmap, num) <= num,
    decreases num,
{
    if num > 0 {
        lemma_count_set_bound(bitmap, (num - 1) as nat);
    }
}

/// `ceil(num / 8)`: bytes in a bitmap of `num` bits.
pub open spec fn bitmap_bytes(num: nat) -> nat {
    (num + 7) / 8
}

/// The bytes that a digest block for `num` streams occupies at the start of `s`:
/// an `AllAreDefined` byte; when it is zero, a bitmap; then four bytes per
/// defined CRC.
pub open spec fn spec_scan_digests(s: Seq<u8>, num: nat) -> Option<nat> {
    if s.len() == 0 {
        None
    } else if s[0] != 0 {
        if s.len() >= 1 + 4 * num {
            Some(1 + 4 * num)
        } else {
            None
        }
    } else {
        let nb = bitmap_bytes(num);
        if s.len() < 1 + nb {
            None
        } else {
            let d = spec_count_set(s.subrange(1, 1 + nb as int), num);
            if s.len() >= 1 + nb + 4 * d {
                Some(1 + nb + 4 * d)
            } else {
                None
            }
        }
    }
}

/// Walk a digest (CRC32) block without allocating.
pub fn scan_digests(input: &[u8], num: usize) -> (res: Result<(&[u8], ()), ParseError>)
    ensures
        match spec_scan_digests(input@, num as nat) {
            None => res is Err,
            Some(c) => res matches Ok((rem, _)) && rem@ == input@.skip(c as int),
        },
{
    if input.len() == 0 {
        return Err(ParseError);
    }
    let all_defined = input[0];
    let rest = slice_subrange(input, 1, input.len());
    if all_defined != 0 {
        if num > rest.len() / 4 {
            return Err(ParseError);
        }
        let r = slice_subrange(rest, 4 * num, rest.len());
        proof {
            assert(r@ =~= input@.skip(1 + 4 * num));
        }
        return Ok((r, ()));
    }
    let num_bytes = num / 8 + if num % 8 == 0 { 0 } else { 1 };
    if num_bytes > rest.len() {
        return Err(ParseError);
    }
    let bitmap = slice_subrange(rest, 0, num_bytes);
    let mut num_defined: usize = 0;
    let mut i: usize = 0;
    proof {
        assert(bitmap@ =~= input@.subrange(1, 1 + bitmap_bytes(num as nat) as int));
    }
    while i < num
        invariant
            i <= num,
            num_defined as nat == spec_count_set(bitmap@, i as nat),
            num_defined <= i,
        decreases num - i,
    {
        if bitmap_is_set(bitmap, i) {
            num_defined = num_defined + 1;
        }
        i = i + 1;
    }
    let after = slice_subrange(rest, num_bytes, rest.len());
    if num_defined > after.len() / 4 {
        return Err(ParseError);
    }
    let r = slice_subrange(after, 4 * num_defined, after.len());
    proof {
        assert(r@ =~= input@.skip(1 + num_bytes + 4 * num_defined));
    }
    Ok((r, ()))
}

/// The little-endian `u32` made of the four bytes `s[pos..pos + 4]`.
pub fn read_u32_le(s: &[u8], pos: usize) -> (r: u32)
    requires
        pos + 4 <= s@.len(),
    ensures
        r as nat == le_value(s@.subrange(pos as int, pos + 4)),
{
    let ghost t = s@.subrange(pos as int, pos + 4);
    proof {
        reveal_with_fuel(le_value, 5);
        assert(t.drop_first().drop_first().drop_first().drop_first() =~= Seq::<u8>::empty());
    }
    (s[pos] as u32) + (s[pos + 1] as u32) * 0x100 + (s[pos + 2] as u32) * 0x1_0000 + (s[pos
        + 3] as u32) * 0x100_0000
}

/// The little-endian `u64` made of the eight bytes `s[pos..pos + 8]`.
pub fn read_u64_le(s: &[u8], pos: usize) -> (r: u64)
    requires
        pos + 8 <= s@.len(),
    ensures
        r as nat == le_value(s@.subrange(pos as int, pos + 8)),
{
    let n = s.len();
    let lo = read_u32_le(s, pos);
    let hi = read_u32_le(s, pos + 4);
    proof {
        let t = s@.subrange(pos as int, pos + 8);
        reveal_with_fuel(le_value, 9);
        assert(t.subrange(0, 4) =~= s@.subrange(pos as int, pos + 4));
        assert(t.subrange(4, 8) =~= s@.subrange(pos + 4, pos + 8));
        lemma_le_value_split(t, 4);
        lemma_pow256_values();
    }
    (lo as u64) + (hi as u64) * 0x1_0000_0000
}

/// The little-endian value of a concatenation.
pub proof fn lemma_le_value_split(t: Seq<u8>, k: nat)
    requires
        k <= t.len(),
    ensures
        le_value(t) == le_value(t.subrange(0, k as int)) + pow256(k) * le_value(
            t.subrange(k as int, t.len() as int),
        ),
    decreases k,
{
    if k == 0 {
        assert(t.subrange(0, 0) =~= Seq::<u8>::empty());
        assert(t.subrange(0, t.len() as int) =~= t);
        assert(pow256(0) == 1);
        assert(le_value(Seq::<u8>::empty()) == 0);
    } else {
        let td = t.drop_first();
        let head = t.subrange(0, k as int);
        let tail = t.subrange(k as int, t.len() as int);
        lemma_le_value_split(td, (k - 1) as nat);
        assert(td.subrange(0, k - 1) =~= head.drop_first());
        assert(td.subrange(k - 1, td.len() as int) =~= tail);
        assert(head[0] == t[0]);
        let a = le_value(head.drop_first());
        let b = le_value(tail);
        let p = pow256((k - 1) as nat);
        assert(le_value(td) == a + p * b);
        assert(le_value(t) == t[0] as nat + 256 * le_value(td));
        assert(le_value(head) == t[0] as nat + 256 * a);
        assert(pow256(k) == 256 * p);
        assert(256 * (a + p * b) == 256 * a + (256 * p) * b) by (nonlinear_arith);
    }
}

/// Whether bit `index` of an LSB-first bitmap is set (bits past the end are clear).
pub open spec fn spec_bitmap_is_set_lsb(bitmap: Seq<u8>, index: nat) -> bool {
    index / 8 < bitmap.len() && (bitmap[(index / 8) as int] >> ((index % 8) as u8)) & 1u8 == 1u8
}

/// Whether entry `i` is defined, given the `AllAreDefined` flag and the bitmap
/// (MSB-first unless `lsb`).
pub open spec fn spec_entry_defined(all: bool, bitmap: Seq<u8>, lsb: bool, i: nat) -> bool {
    all || if lsb {
        spec_bitmap_is_set_lsb(bitmap, i)
    } else {
        spec_bitmap_is_set(bitmap, i)
    }
}

/// The first `k` entries of a defined-values array stored in `data`: each
/// defined entry takes the next `width` bytes (little-endian), each undefined
/// entry takes none. Gives the bytes used and the values.
pub open spec fn spec_defined_values(
    data: Seq<u8>,
    all: bool,
    bitmap: Seq<u8>,
    lsb: bool,
    k: nat,
    width: nat,
) -> Option<(nat, Seq<Option<nat>>)>
    decreases k,
{
    if k == 0 {
        Some((0, Seq::empty()))
    } else {
        match spec_defined_values(data, all, bitmap, lsb, (k - 1) as nat, width) {
            None => None,
            Some((c, vs)) => if spec_entry_defined(all, bitmap, lsb, (k - 1) as nat) {
                if c + width <= data.len() {
                    Some((c + width, vs.push(Some(le_value(data.subrange(c as int, (c + width) as int))))))
                } else {
                    None
                }
            } else {
                Some((c, vs.push(None)))
            },
        }
    }
}

pub proof fn lemma_defined_values_none_propagates(
    data: Seq<u8>,
    all: bool,
    bitmap: Seq<u8>,
    lsb: bool,
    i: nat,
    k: nat,
    width: nat,
)
    requires
        i <= k,
        spec_defined_values(data, all, bitmap, lsb, i, width) is None,
    ensures
        spec_defined_values(data, all, bitmap, lsb, k, width) is None,
    decreases k,
{
    if k > i {
        lemma_defined_values_none_propagates(data, all, bitmap, lsb, i, (k - 1) as nat, width);
    }
}

/// The view of a sequence of optional `u32` values as optional naturals.
pub open spec fn opt_u32_view(xs: Seq<Option<u32>>) -> Seq<Option<nat>> {
    Seq::new(
        xs.len(),
        |i: int|
            match xs[i] {
                Some(x) => Some(x as nat),
                None => None,
            },
    )
}

/// The view of a sequence of optional `u64` values as optional naturals.
/// Appending to a sequence of optional digests appends to its model.
pub proof fn lemma_opt_u32_view_push(s: Seq<Option<u32>>, x: Option<u32>)
    ensures
        opt_u32_view(s.push(x)) == opt_u32_view(s).push(
            match x {
                Some(v) => Some(v as nat),
                None => None,
            },
        ),
{
    assert(opt_u32_view(s.push(x)) =~= opt_u32_view(s).push(
        match x {
            Some(v) => Some(v as nat),
            None => None,
        },
    ));
}

pub open spec fn opt_u64_view(xs: Seq<Option<u64>>) -> Seq<Option<nat>> {
    Seq::new(
        xs.len(),
        |i: int|
            match xs[i] {
                Some(x) => Some(x as nat),
                None => None,
            },
    )
}

/// Whether entry `i` is defined (exec counterpart of [`spec_entry_defined`]).
pub fn entry_defined(all: bool, bitmap: &[u8], lsb: bool, i: usize) -> (r: bool)
    ensures
        r == spec_entry_defined(all, bitmap@, lsb, i as nat),
{
    if all {
        true
    } else if lsb {
        if i / 8 < bitmap.len() {
            let shift: u8 = (i % 8) as u8;
            (bitmap[i / 8] >> shift) & 1 == 1
        } else {
            false
        }
    } else {
        bitmap_is_set(bitmap, i)
    }
}

/// Read `num` defined-or-absent little-endian `u32` values from `data`.
pub fn parse_defined_u32_values(data: &[u8], all: bool, bitmap: &[u8], lsb: bool, num: usize) -> (res:
    Result<(usize, Vec<Option<u32>>), ParseError>)
    ensures
        match spec_defined_values(data@, all, bitmap@, lsb, num as nat, 4) {
            None => res is Err,
            Some((c, vs)) => res matches Ok((c2, xs)) && c2 == c && opt_u32_view(xs@) == vs,
        },
{
    let mut pos: usize = 0;
    let mut values: Vec<Option<u32>> = Vec::new();
    let mut i: usize = 0;
    while i < num
        invariant
            i <= num,
            pos <= data@.len(),
            spec_defined_values(data@, all, bitmap@, lsb, i as nat, 4) == Some(
                (pos as nat, opt_u32_view(values@)),
            ),
        decreases num - i,
    {
        let ghost old_values = values@;
        if entry_defined(all, bitmap, lsb, i) {
            if data.len() - pos < 4 {
                proof {
                    lemma_defined_values_none_propagates(data@, all, bitmap@, lsb, (i + 1) as nat, num as nat, 4);
                }
                return Err(ParseError);
            }
            let v = read_u32_le(data, pos);
            values.push(Some(v));
            pos = pos + 4;
        } else {
            values.push(None);
        }
        i = i + 1;
        proof {
            assert(opt_u32_view(values@) =~= opt_u32_view(old_values).push(
                match values@.last() {
                    Some(x) => Some(x as nat),
                    None => None,
                },
            ));
        }
    }
    Ok((pos, values))
}

/// Read `num` defined-or-absent little-endian `u64` values from `data`.
pub fn parse_defined_u64_values(data: &[u8], all: bool, bitmap: &[u8], lsb: bool, num: usize) -> (res:
    Result<(usize, Vec<Option<u64>>), ParseError>)
    ensures
        match spec_defined_values(data@, all, bitmap@, lsb, num as nat, 8) {
            None => res is Err,
            Some((c, vs)) => res matches Ok((c2, xs)) && c2 == c && opt_u64_view(xs@) == vs,
        },
{
    let mut pos: usize = 0;
    let mut values: Vec<Option<u64>> = Vec::new();
    let mut i: usize = 0;
    while i < num
        invariant
            i <= num,
            pos <= data@.len(),
            spec_defined_values(data@, all, bitmap@, lsb, i as nat, 8) == Some(
                (pos as nat, opt_u64_view(values@)),
            ),
        decreases num - i,
    {
        let ghost old_values = values@;
        if entry_defined(all, bitmap, lsb, i) {
            if data.len() - pos < 8 {
                proof {
                    lemma_defined_values_none_propagates(data@, all, bitmap@, lsb, (i + 1) as nat, num as nat, 8);
                }
                return Err(ParseError);
            }
            let v = read_u64_le(data, pos);
            values.push(Some(v));
            pos = pos + 8;
        } else {
            values.push(None);
        }
        i = i + 1;
        proof {
            assert(opt_u64_view(values@) =~= opt_u64_view(old_values).push(
                match values@.last() {
                    Some(x) => Some(x as nat),
                    None => None,
                },
            ));
        }
    }
    Ok((pos, values))
}

/// Append the `n` low bytes of `v`, least significant first.
pub fn push_le(buf: &mut Vec<u8>, v: u64, n: usize)
    requires
        n <= 8,
    ensures
        final(buf)@ == old(buf)@ + le_bytes(v as nat, n as nat),
{
    let ghost start = buf@;
    let mut rest: u64 = v;
    let mut i: usize = 0;
    proof {
        lemma_pow256_values();
        assert(buf@ =~= start + le_bytes(v as nat, 0));
    }
    while i < n
        invariant
            i <= n <= 8,
            rest as nat == (v as nat) / pow256(i as nat),
            buf@ == start + le_bytes(v as nat, i as nat),
        decreases n - i,
    {
        proof {
            lemma_pow256_positive(i as nat);
        }
        buf.push((rest % 256) as u8);
        rest = rest / 256;
        i = i + 1;
        proof {
            lemma_div_denominator(v as int, pow256((i - 1) as nat) as int, 256);
            assert(pow256((i - 1) as nat) * 256 == pow256(i as nat));
            assert(buf@ =~= start + le_bytes(v as nat, i as nat));
        }
    }
}

} // verus!
