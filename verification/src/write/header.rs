//! Encoding the main header, the encoded-header descriptor and coder info.
use super::model::{CompletedFolder, EntryKind, EntryMeta, WriteEntry};
use crate::aes::{spec_utf16_encode, units_le_bytes};
use crate::parsers::{bitmap_bytes, le_bytes, push_le, sevenzip_varuint64_encode, spec_bitmap_is_set, spec_varint_encode};
use vstd::prelude::*;

verus! {

/// Append the 7z varint encoding of `v`.
pub fn push_varint(h: &mut Vec<u8>, v: u64)
    ensures
        final(h)@ == old(h)@ + spec_varint_encode(v),
{
    let mut e = sevenzip_varuint64_encode(v);
    h.append(&mut e);
}

/// Append all of `bytes`.
pub fn push_bytes(h: &mut Vec<u8>, bytes: &[u8])
    ensures
        final(h)@ == old(h)@ + bytes@,
{
    let mut i: usize = 0;
    let ghost h0 = h@;
    while i < bytes.len()
        invariant
            i <= bytes@.len(),
            h@ == h0 + bytes@.take(i as int),
        decreases bytes@.len() - i,
    {
        h.push(bytes[i]);
        i = i + 1;
        proof {
            assert(bytes@.take(i as int) =~= bytes@.take(i - 1).push(bytes@[i - 1]));
        }
    }
    proof {
        assert(bytes@.take(bytes@.len() as int) =~= bytes@);
    }
}

/// A bitmap of `values`, most significant bit first: exactly the bits of
/// the true values are set, in `ceil(len / 8)` bytes.
pub open spec fn is_bitmap_of(out: Seq<u8>, values: Seq<bool>) -> bool {
    &&& out.len() == bitmap_bytes(values.len())
    &&& forall|i: nat| i < 8 * out.len() ==> #[trigger] spec_bitmap_is_set(out, i) == (i < values.len()
        && values[i as int])
}

/// Bit `j` of `byte`, counting from the most significant.
pub open spec fn bit_of(byte: u8, j: u8) -> bool {
    (byte >> (7 - j) as u8) & 1u8 == 1u8
}

/// The bitmap of `values` (see [`is_bitmap_of`], which fixes it).
pub open spec fn bitmap_of(values: Seq<bool>) -> Seq<u8> {
    choose|bm: Seq<u8>| is_bitmap_of(bm, values)
}

/// A byte is fixed by its eight bits.
pub proof fn lemma_byte_from_bits(a: u8, b: u8)
    requires
        forall|j: u8| j < 8 ==> #[trigger] bit_of(a, j) == bit_of(b, j),
    ensures
        a == b,
{
    assert(bit_of(a, 0) == bit_of(b, 0));
    assert(bit_of(a, 1) == bit_of(b, 1));
    assert(bit_of(a, 2) == bit_of(b, 2));
    assert(bit_of(a, 3) == bit_of(b, 3));
    assert(bit_of(a, 4) == bit_of(b, 4));
    assert(bit_of(a, 5) == bit_of(b, 5));
    assert(bit_of(a, 6) == bit_of(b, 6));
    assert(bit_of(a, 7) == bit_of(b, 7));
    assert(a == b) by (bit_vector)
        requires
            ((a >> 7u8) & 1u8 == 1u8) == ((b >> 7u8) & 1u8 == 1u8),
            ((a >> 6u8) & 1u8 == 1u8) == ((b >> 6u8) & 1u8 == 1u8),
            ((a >> 5u8) & 1u8 == 1u8) == ((b >> 5u8) & 1u8 == 1u8),
            ((a >> 4u8) & 1u8 == 1u8) == ((b >> 4u8) & 1u8 == 1u8),
            ((a >> 3u8) & 1u8 == 1u8) == ((b >> 3u8) & 1u8 == 1u8),
            ((a >> 2u8) & 1u8 == 1u8) == ((b >> 2u8) & 1u8 == 1u8),
            ((a >> 1u8) & 1u8 == 1u8) == ((b >> 1u8) & 1u8 == 1u8),
            ((a >> 0u8) & 1u8 == 1u8) == ((b >> 0u8) & 1u8 == 1u8),
    ;
}

/// Only one byte string is the bitmap of given values.
pub proof fn lemma_bitmap_unique(x: Seq<u8>, y: Seq<u8>, values: Seq<bool>)
    requires
        is_bitmap_of(x, values),
        is_bitmap_of(y, values),
    ensures
        x == y,
{
    assert forall|b: int| 0 <= b < x.len() implies x[b] == y[b] by {
        assert forall|j: u8| j < 8 implies #[trigger] bit_of(x[b], j) == bit_of(y[b], j) by {
            let i = (8 * b + j) as nat;
            assert(i / 8 == b && i % 8 == j) by (nonlinear_arith)
                requires
                    i == 8 * b + j,
                    0 <= j < 8,
                    b >= 0,
            ;
            assert(i < 8 * x.len());
            assert(spec_bitmap_is_set(x, i) == spec_bitmap_is_set(y, i));
        }
        lemma_byte_from_bits(x[b], y[b]);
    }
    assert(x =~= y);
}

/// Pack booleans into a most-significant-bit-first bitmap.
pub fn bools_to_bytes(values: &[bool]) -> (out: Vec<u8>)
    ensures
        is_bitmap_of(out@, values@),
        out@ == bitmap_of(values@),
{
    let n = values.len();
    let nb = n / 8 + if n % 8 == 0 {
        0
    } else {
        1
    };
    let mut out: Vec<u8> = Vec::new();
    let mut b: usize = 0;
    while b < nb
        invariant
            b <= nb,
            nb == bitmap_bytes(n as nat),
            n == values@.len(),
            out@.len() == b,
            forall|i: nat| i < 8 * b ==> #[trigger] spec_bitmap_is_set(out@, i) == (i < n && values@[i as int]),
        decreases nb - b,
    {
        let mut byte: u8 = 0;
        let mut k: usize = 0;
        assert forall|j: u8| 0 <= j < 8 implies !#[trigger] bit_of(0u8, j) by {
            assert(((0u8 >> (7 - j) as u8) & 1u8) == 0u8) by (bit_vector);
        }
        while k < 8
            invariant
                k <= 8,
                b < nb,
                nb == bitmap_bytes(n as nat),
                n == values@.len(),
                forall|j: u8| j < k ==> #[trigger] bit_of(byte, j) == (8 * b + j < n && values@[8 * b + j]),
                forall|j: u8| k <= j < 8 ==> !#[trigger] bit_of(byte, j),
            decreases 8 - k,
        {
            let idx = 8 * b + k;
            let set = idx < n && values[idx];
            let old_byte = byte;
            let kk = k as u8;
            if set {
                byte = byte | (1u8 << (7 - kk));
            }
            assert forall|j: u8| j < 8 && j != kk implies #[trigger] bit_of(byte, j) == bit_of(old_byte, j) by {
                assert(j < 8 && j != kk && kk < 8 ==> ((((old_byte | (1u8 << (7 - kk) as u8)) >> (7
                    - j) as u8) & 1u8) == ((old_byte >> (7 - j) as u8) & 1u8))) by (bit_vector);
            }
            assert(bit_of(byte, kk) == set) by {
                assert(kk < 8 && ((old_byte >> (7 - kk) as u8) & 1u8) != 1u8 ==> (((old_byte | (1u8
                    << (7 - kk) as u8)) >> (7 - kk) as u8) & 1u8) == 1u8) by (bit_vector);
                assert(!bit_of(old_byte, kk));
            }
            k = k + 1;
        }
        let ghost prev = out@;
        out.push(byte);
        proof {
            assert forall|i: nat| i < 8 * (b + 1) implies #[trigger] spec_bitmap_is_set(out@, i) == (i < n
                && values@[i as int]) by {
                if i < 8 * b {
                    assert(i / 8 < b) by (nonlinear_arith)
                        requires
                            i < 8 * b,
                    ;
                    assert(out@[(i / 8) as int] == prev[(i / 8) as int]);
                    assert(spec_bitmap_is_set(prev, i) == (i < n && values@[i as int]));
                } else {
                    let j = (i - 8 * b) as u8;
                    assert(i / 8 == b && i % 8 == j) by (nonlinear_arith)
                        requires
                            8 * b <= i < 8 * (b + 1),
                            j == i - 8 * b,
                    ;
                    assert(bit_of(byte, j) == (8 * b + j < n && values@[8 * b + j]));
                }
            }
        }
        b = b + 1;
    }
    proof {
        let bm = bitmap_of(values@);
        assert(is_bitmap_of(out@, values@));
        assert(is_bitmap_of(bm, values@));
        lemma_bitmap_unique(out@, bm, values@);
    }
    out
}

/// Coder info of a single Copy coder.
pub open spec fn spec_coder_info_copy() -> Seq<u8> {
    spec_varint_encode(1) + seq![0x01u8, 0x00u8]
}

/// Coder info of a single LZMA coder with its 5 property bytes.
pub open spec fn spec_coder_info_lzma(props: Seq<u8>) -> Seq<u8> {
    spec_varint_encode(1) + seq![0x23u8, 0x03u8, 0x01u8, 0x01u8] + spec_varint_encode(5) + props
}

/// Coder info of a single LZMA2 coder with its property byte.
pub open spec fn spec_coder_info_lzma2(prop: u8) -> Seq<u8> {
    spec_varint_encode(1) + seq![0x21u8, 0x21u8] + spec_varint_encode(1) + seq![prop]
}

/// Coder info of LZMA2 followed by the x86 BCJ filter, bound together.
pub open spec fn spec_coder_info_bcj_lzma2(prop: u8) -> Seq<u8> {
    spec_varint_encode(2) + seq![0x21u8, 0x21u8] + spec_varint_encode(1) + seq![prop] + seq![
        0x04u8,
        0x03u8,
        0x03u8,
        0x01u8,
        0x03u8,
    ] + spec_varint_encode(1) + spec_varint_encode(0)
}

pub(crate) fn encode_coder_info_copy() -> (r: Vec<u8>)
    ensures
        r@ == spec_coder_info_copy(),
{
    let mut bytes: Vec<u8> = Vec::new();
    push_varint(&mut bytes, 1);
    bytes.push(0x01);
    bytes.push(0x00);
    proof {
        assert(bytes@ =~= spec_coder_info_copy());
    }
    bytes
}

pub(crate) fn encode_coder_info_lzma(props: &[u8]) -> (r: Vec<u8>)
    ensures
        r@ == spec_coder_info_lzma(props@),
{
    let mut bytes: Vec<u8> = Vec::new();
    push_varint(&mut bytes, 1);
    bytes.push(0x23);
    bytes.push(0x03);
    bytes.push(0x01);
    bytes.push(0x01);
    push_varint(&mut bytes, 5);
    push_bytes(&mut bytes, props);
    proof {
        assert(bytes@ =~= spec_coder_info_lzma(props@));
    }
    bytes
}

pub(crate) fn encode_coder_info_lzma2(props_byte: u8) -> (r: Vec<u8>)
    ensures
        r@ == spec_coder_info_lzma2(props_byte),
{
    let mut bytes: Vec<u8> = Vec::new();
    push_varint(&mut bytes, 1);
    bytes.push(0x21);
    bytes.push(0x21);
    push_varint(&mut bytes, 1);
    bytes.push(props_byte);
    proof {
        assert(bytes@ =~= spec_coder_info_lzma2(props_byte));
    }
    bytes
}

pub(crate) fn encode_coder_info_bcj_lzma2(props_byte: u8) -> (r: Vec<u8>)
    ensures
        r@ == spec_coder_info_bcj_lzma2(props_byte),
{
    let mut bytes: Vec<u8> = Vec::new();
    push_varint(&mut bytes, 2);
    bytes.push(0x21);
    bytes.push(0x21);
    push_varint(&mut bytes, 1);
    bytes.push(props_byte);
    bytes.push(0x04);
    bytes.push(0x03);
    bytes.push(0x03);
    bytes.push(0x01);
    bytes.push(0x03);
    push_varint(&mut bytes, 1);
    push_varint(&mut bytes, 0);
    proof {
        assert(bytes@ =~= spec_coder_info_bcj_lzma2(props_byte));
    }
    bytes
}

/// An inner coder placed after an AES coder in a folder.
#[derive(Clone, Debug)]
pub enum CoderSpec {
    Copy,
    Lzma(Vec<u8>),
    Lzma2(u8),
    Ppmd(Vec<u8>),
    Bcj,
}

/// The bytes describing one inner coder.
pub open spec fn spec_coder_spec_bytes(c: CoderSpec) -> Seq<u8> {
    match c {
        CoderSpec::Copy => seq![0x01u8, 0x00u8],
        CoderSpec::Lzma(props) => seq![0x23u8, 0x03u8, 0x01u8, 0x01u8] + spec_varint_encode(5) + props@,
        CoderSpec::Lzma2(prop) => seq![0x21u8, 0x21u8] + spec_varint_encode(1) + seq![prop],
        CoderSpec::Ppmd(props) => seq![0x23u8, 0x03u8, 0x04u8, 0x01u8] + spec_varint_encode(5) + props@,
        CoderSpec::Bcj => seq![0x04u8, 0x03u8, 0x03u8, 0x01u8, 0x03u8],
    }
}

/// The inner coders' descriptions, in order.
pub open spec fn spec_inner_coders(inner: Seq<CoderSpec>) -> Seq<u8>
    decreases inner.len(),
{
    if inner.len() == 0 {
        Seq::empty()
    } else {
        spec_inner_coders(inner.drop_last()) + spec_coder_spec_bytes(inner.last())
    }
}

/// Bind pairs chaining coder `k + 1`'s input to coder `k`'s output, for `k < n`.
pub open spec fn spec_chain_pairs(n: nat) -> Seq<u8>
    decreases n,
{
    if n == 0 {
        Seq::empty()
    } else {
        spec_chain_pairs((n - 1) as nat) + spec_varint_encode(n as u64) + spec_varint_encode((n - 1) as u64)
    }
}

/// Coder info of the coders `inner` chained in order: their count, their
/// descriptions, and the bind pairs feeding each coder's output to the next.
pub open spec fn spec_coder_chain(inner: Seq<CoderSpec>) -> Seq<u8> {
    spec_varint_encode(inner.len() as u64) + spec_inner_coders(inner) + spec_chain_pairs(
        if inner.len() == 0 {
            0
        } else {
            (inner.len() - 1) as nat
        },
    )
}

/// Coder info of an AES coder followed by `inner`.
pub open spec fn spec_coder_info_aes_then(inner: Seq<CoderSpec>, aes_props: Seq<u8>) -> Seq<u8> {
    spec_varint_encode((1 + inner.len()) as u64) + seq![0x24u8, 0x06u8, 0xF1u8, 0x07u8, 0x01u8]
        + spec_varint_encode(aes_props.len() as u64) + aes_props + spec_inner_coders(inner)
        + spec_chain_pairs(inner.len())
}

fn push_coder_spec(bytes: &mut Vec<u8>, c: &CoderSpec)
    ensures
        final(bytes)@ == old(bytes)@ + spec_coder_spec_bytes(*c),
{
    let ghost b0 = bytes@;
    match c {
        CoderSpec::Copy => {
            bytes.push(0x01);
            bytes.push(0x00);
        },
        CoderSpec::Lzma(props) => {
            bytes.push(0x23);
            bytes.push(0x03);
            bytes.push(0x01);
            bytes.push(0x01);
            push_varint(bytes, 5);
            push_bytes(bytes, props.as_slice());
        },
        CoderSpec::Lzma2(prop) => {
            bytes.push(0x21);
            bytes.push(0x21);
            push_varint(bytes, 1);
            bytes.push(*prop);
        },
        CoderSpec::Ppmd(props) => {
            bytes.push(0x23);
            bytes.push(0x03);
            bytes.push(0x04);
            bytes.push(0x01);
            push_varint(bytes, 5);
            push_bytes(bytes, props.as_slice());
        },
        CoderSpec::Bcj => {
            bytes.push(0x04);
            bytes.push(0x03);
            bytes.push(0x03);
            bytes.push(0x01);
            bytes.push(0x03);
        },
    }
    proof {
        assert(bytes@ =~= b0 + spec_coder_spec_bytes(*c));
    }
}

pub(crate) fn encode_coder_info_aes_then(inner: &[CoderSpec], aes_props: &[u8]) -> (r: Vec<u8>)
    requires
        inner@.len() < 0xFFFF_FFFF,
    ensures
        r@ == spec_coder_info_aes_then(inner@, aes_props@),
{
    let mut bytes: Vec<u8> = Vec::new();
    push_varint(&mut bytes, 1 + inner.len() as u64);
    bytes.push(0x24);
    bytes.push(0x06);
    bytes.push(0xF1);
    bytes.push(0x07);
    bytes.push(0x01);
    push_varint(&mut bytes, aes_props.len() as u64);
    push_bytes(&mut bytes, aes_props);
    let ghost head = bytes@;
    let mut i: usize = 0;
    proof {
        assert(inner@.take(0) =~= Seq::<CoderSpec>::empty());
        assert(bytes@ =~= head + spec_inner_coders(inner@.take(0)));
    }
    while i < inner.len()
        invariant
            i <= inner@.len(),
            bytes@ == head + spec_inner_coders(inner@.take(i as int)),
        decreases inner@.len() - i,
    {
        push_coder_spec(&mut bytes, &inner[i]);
        proof {
            assert(inner@.take(i + 1).drop_last() =~= inner@.take(i as int));
        }
        i = i + 1;
    }
    proof {
        assert(inner@.take(inner@.len() as int) =~= inner@);
    }
    let ghost mid = bytes@;
    let mut k: usize = 0;
    while k < inner.len()
        invariant
            k <= inner@.len() < 0xFFFF_FFFF,
            bytes@ == mid + spec_chain_pairs(k as nat),
        decreases inner@.len() - k,
    {
        push_varint(&mut bytes, (k + 1) as u64);
        push_varint(&mut bytes, k as u64);
        k = k + 1;
        proof {
            assert(bytes@ =~= mid + spec_chain_pairs(k as nat));
        }
    }
    proof {
        assert(bytes@ =~= spec_coder_info_aes_then(inner@, aes_props@));
    }
    bytes
}

/// Whether any value is given.
pub open spec fn any_defined(vs: Seq<Option<nat>>) -> bool {
    exists|i: int| 0 <= i < vs.len() && #[trigger] vs[i] is Some
}

/// Whether every value is given.
pub open spec fn all_defined(vs: Seq<Option<nat>>) -> bool {
    forall|i: int| 0 <= i < vs.len() ==> #[trigger] vs[i] is Some
}

/// Which values are given.
pub open spec fn defined_flags(vs: Seq<Option<nat>>) -> Seq<bool> {
    Seq::new(vs.len(), |i: int| vs[i] is Some)
}

/// The given values, `width` little-endian bytes each, in order.
pub open spec fn defined_data(vs: Seq<Option<nat>>, width: nat) -> Seq<u8>
    decreases vs.len(),
{
    if vs.len() == 0 {
        Seq::empty()
    } else {
        defined_data(vs.drop_last(), width) + match vs.last() {
            Some(v) => le_bytes(v, width),
            None => Seq::empty(),
        }
    }
}

/// A per-entry property block with tag `tag`: nothing when no value is
/// given; else the size, the `AllAreDefined` flag, a bitmap of the given
/// entries unless all are, an external byte of zero, and the values.
#[verifier::opaque]
pub open spec fn spec_values_block(tag: u8, vs: Seq<Option<nat>>, width: nat) -> Seq<u8> {
    if !any_defined(vs) {
        Seq::empty()
    } else {
        let all = all_defined(vs);
        let bm = if all {
            Seq::empty()
        } else {
            bitmap_of(defined_flags(vs))
        };
        let data = defined_data(vs, width);
        let size = 1 + bm.len() + 1 + data.len();
        seq![tag] + spec_varint_encode(size as u64) + seq![if all {
            1u8
        } else {
            0u8
        }] + bm + seq![0u8] + data
    }
}

/// Model of 64-bit optional values.
pub open spec fn opt64(vs: Seq<Option<u64>>) -> Seq<Option<nat>> {
    crate::parsers::opt_u64_view(vs)
}

/// Append a per-entry property block of `width`-byte values (4 or 8).
pub fn write_values_property(h: &mut Vec<u8>, tag: u8, values: &Vec<Option<u64>>, width: usize)
    requires
        width == 4 || width == 8,
        forall|i: int| 0 <= i < values@.len() ==> (#[trigger] values@[i] matches Some(v) ==> (width == 4
            ==> v <= u32::MAX)),
        values@.len() * 16 + 64 < usize::MAX,
    ensures
        final(h)@ == old(h)@ + spec_values_block(tag, opt64(values@), width as nat),
{
    let ghost vs = opt64(values@);
    let mut any = false;
    let mut all = true;
    let mut flags: Vec<bool> = Vec::new();
    let mut data: Vec<u8> = Vec::new();
    let mut i: usize = 0;
    proof {
        assert(vs.take(0) =~= Seq::<Option<nat>>::empty());
    }
    while i < values.len()
        invariant
            i <= values@.len(),
            vs == opt64(values@),
            width == 4 || width == 8,
            forall|q: int| 0 <= q < values@.len() ==> (#[trigger] values@[q] matches Some(v) ==> (width
                == 4 ==> v <= u32::MAX)),
            any == any_defined(vs.take(i as int)),
            all == all_defined(vs.take(i as int)),
            flags@ == defined_flags(vs.take(i as int)),
            data@ == defined_data(vs.take(i as int), width as nat),
            data@.len() <= i * 8,
            flags@.len() == i,
            values@.len() * 16 + 64 < usize::MAX,
        decreases values@.len() - i,
    {
        let ghost t = vs.take(i as int);
        let ghost t1 = vs.take(i + 1);
        proof {
            assert(t1.drop_last() =~= t);
            assert(t1.last() == vs[i as int]);
        }
        match values[i] {
            Some(v) => {
                any = true;
                flags.push(true);
                push_le(&mut data, v, width);
                proof {
                    crate::parsers::lemma_le_bytes_len(v as nat, width as nat);
                    assert(vs[i as int] == Some(v as nat));
                    assert(t1[i as int] is Some);
                    assert(all_defined(t1) == all_defined(t));
                    assert(flags@ =~= defined_flags(t1));
                }
            },
            None => {
                all = false;
                flags.push(false);
                proof {
                    assert(vs[i as int] is None);
                    assert(!all_defined(t1));
                    assert(any_defined(t1) == any_defined(t));
                    assert(flags@ =~= defined_flags(t1));
                    assert(data@ =~= defined_data(t1, width as nat));
                }
            },
        }
        i = i + 1;
    }
    proof {
        assert(vs.take(values@.len() as int) =~= vs);
    }
    if !any {
        proof {
            reveal(spec_values_block);
            assert(h@ =~= old(h)@ + spec_values_block(tag, vs, width as nat));
        }
        return;
    }
    let bitmap: Vec<u8> = if all {
        Vec::new()
    } else {
        bools_to_bytes(flags.as_slice())
    };
    assert(bitmap@.len() <= values@.len() + 1);
    assert(data@.len() <= values@.len() * 8);
    assert(1 + bitmap@.len() + 1 + data@.len() < usize::MAX);
    let size = 1 + bitmap.len() + 1 + data.len();
    let ghost h0 = h@;
    h.push(tag);
    push_varint(h, size as u64);
    h.push(if all {
        1u8
    } else {
        0u8
    });
    push_bytes(h, bitmap.as_slice());
    h.push(0x00);
    push_bytes(h, data.as_slice());
    proof {
        reveal(spec_values_block);
        assert(h@ =~= h0 + spec_values_block(tag, vs, width as nat));
    }
}

/// Whether any flag is set.
pub open spec fn any_true(bs: Seq<bool>) -> bool {
    exists|i: int| 0 <= i < bs.len() && #[trigger] bs[i]
}

/// A bitmap property: its tag, size and bitmap, when some flag is set.
#[verifier::opaque]
pub open spec fn spec_bitmap_block(tag: u8, bs: Seq<bool>) -> Seq<u8> {
    if !any_true(bs) {
        Seq::empty()
    } else {
        seq![tag] + spec_varint_encode(bitmap_of(bs).len() as u64) + bitmap_of(bs)
    }
}

/// Entries without a data stream.
pub open spec fn empty_flags(es: Seq<WriteEntry>) -> Seq<bool> {
    Seq::new(es.len(), |i: int| !es[i].has_stream)
}

/// The kinds of the entries without a data stream, in order.
pub open spec fn streamless_kinds(es: Seq<WriteEntry>) -> Seq<EntryKind>
    decreases es.len(),
{
    if es.len() == 0 {
        Seq::empty()
    } else if es.last().has_stream {
        streamless_kinds(es.drop_last())
    } else {
        streamless_kinds(es.drop_last()).push(es.last().kind)
    }
}

/// Which of `kinds` are `k`.
pub open spec fn kind_flags(kinds: Seq<EntryKind>, k: EntryKind) -> Seq<bool> {
    Seq::new(kinds.len(), |i: int| kinds[i] == k)
}

/// The empty-stream, empty-file and anti-item properties.
#[verifier::opaque]
pub open spec fn spec_empty_properties(es: Seq<WriteEntry>) -> Seq<u8> {
    if !any_true(empty_flags(es)) {
        Seq::empty()
    } else {
        spec_bitmap_block(0x0e, empty_flags(es)) + spec_bitmap_block(
            0x0f,
            kind_flags(streamless_kinds(es), EntryKind::File),
        ) + spec_bitmap_block(0x10, kind_flags(streamless_kinds(es), EntryKind::Anti))
    }
}

/// Append a bitmap property when some flag is set.
fn write_bitmap_property(h: &mut Vec<u8>, tag: u8, bs: &Vec<bool>)
    ensures
        final(h)@ == old(h)@ + spec_bitmap_block(tag, bs@),
{
    let mut any = false;
    let mut i: usize = 0;
    while i < bs.len()
        invariant
            i <= bs@.len(),
            any == exists|q: int| 0 <= q < i && #[trigger] bs@[q],
        decreases bs@.len() - i,
    {
        if bs[i] {
            any = true;
        }
        i = i + 1;
    }
    if !any {
        proof {
            reveal(spec_bitmap_block);
            assert(h@ =~= old(h)@ + spec_bitmap_block(tag, bs@));
        }
        return;
    }
    let bytes = bools_to_bytes(bs.as_slice());
    let ghost h0 = h@;
    h.push(tag);
    push_varint(h, bytes.len() as u64);
    push_bytes(h, bytes.as_slice());
    proof {
        reveal(spec_bitmap_block);
        assert(h@ =~= h0 + spec_bitmap_block(tag, bs@));
    }
}

fn write_empty_properties(h: &mut Vec<u8>, entries: &[WriteEntry])
    ensures
        final(h)@ == old(h)@ + spec_empty_properties(entries@),
{
    let mut empty: Vec<bool> = Vec::new();
    let mut files: Vec<bool> = Vec::new();
    let mut anti: Vec<bool> = Vec::new();
    let ghost mut kinds: Seq<EntryKind> = Seq::empty();
    let mut i: usize = 0;
    while i < entries.len()
        invariant
            i <= entries@.len(),
            empty@ == empty_flags(entries@.take(i as int)),
            kinds == streamless_kinds(entries@.take(i as int)),
            files@ == kind_flags(kinds, EntryKind::File),
            anti@ == kind_flags(kinds, EntryKind::Anti),
        decreases entries@.len() - i,
    {
        let e = &entries[i];
        proof {
            assert(entries@.take(i + 1).drop_last() =~= entries@.take(i as int));
        }
        empty.push(!e.has_stream);
        if !e.has_stream {
            files.push(e.kind == EntryKind::File);
            anti.push(e.kind == EntryKind::Anti);
            proof {
                kinds = kinds.push(e.kind);
            }
        }
        proof {
            assert(empty@ =~= empty_flags(entries@.take(i + 1)));
            assert(files@ =~= kind_flags(kinds, EntryKind::File));
            assert(anti@ =~= kind_flags(kinds, EntryKind::Anti));
        }
        i = i + 1;
    }
    proof {
        assert(entries@.take(entries@.len() as int) =~= entries@);
    }
    let mut any = false;
    let mut k: usize = 0;
    while k < empty.len()
        invariant
            k <= empty@.len(),
            any == exists|q: int| 0 <= q < k && #[trigger] empty@[q],
        decreases empty@.len() - k,
    {
        if empty[k] {
            any = true;
        }
        k = k + 1;
    }
    if !any {
        proof {
            reveal(spec_empty_properties);
            assert(h@ =~= old(h)@ + spec_empty_properties(entries@));
        }
        return;
    }
    let ghost h0 = h@;
    write_bitmap_property(h, 0x0e, &empty);
    write_bitmap_property(h, 0x0f, &files);
    write_bitmap_property(h, 0x10, &anti);
    proof {
        reveal(spec_empty_properties);
        assert(h@ =~= h0 + spec_empty_properties(entries@));
    }
}

/// Names as UTF-16LE, each ended by a zero unit.
pub open spec fn spec_name_data(es: Seq<WriteEntry>) -> Seq<u8>
    decreases es.len(),
{
    if es.len() == 0 {
        Seq::empty()
    } else {
        spec_name_data(es.drop_last()) + units_le_bytes(spec_utf16_encode(es.last().name@)) + seq![0u8, 0u8]
    }
}

/// The names property.
#[verifier::opaque]
pub open spec fn spec_names_block(es: Seq<WriteEntry>) -> Seq<u8> {
    seq![0x11u8] + spec_varint_encode((1 + spec_name_data(es).len()) as u64) + seq![0u8] + spec_name_data(es)
}

fn write_names(h: &mut Vec<u8>, entries: &[WriteEntry])
    ensures
        spec_name_data(entries@).len() < u64::MAX ==> final(h)@ == old(h)@ + spec_names_block(entries@),
{
    let mut name_data: Vec<u8> = Vec::new();
    let mut i: usize = 0;
    while i < entries.len()
        invariant
            i <= entries@.len(),
            name_data@ == spec_name_data(entries@.take(i as int)),
        decreases entries@.len() - i,
    {
        proof {
            assert(entries@.take(i + 1).drop_last() =~= entries@.take(i as int));
        }
        let unit_bytes = crate::aes::utf16le_bytes_of(entries[i].name.as_str());
        push_bytes(&mut name_data, unit_bytes.as_slice());
        name_data.push(0);
        name_data.push(0);
        proof {
            assert(name_data@ =~= spec_name_data(entries@.take(i + 1)));
        }
        i = i + 1;
    }
    proof {
        assert(entries@.take(entries@.len() as int) =~= entries@);
    }
    let ghost h0 = h@;
    h.push(0x11);
    if name_data.len() as u64 == u64::MAX {
        return;
    }
    push_varint(h, 1 + name_data.len() as u64);
    h.push(0x00);
    push_bytes(h, name_data.as_slice());
    proof {
        reveal(spec_names_block);
        assert(h@ =~= h0 + spec_names_block(entries@));
    }
}

/// One metadata field of an entry: creation, access, modification time,
/// start position, or attributes (fields 0 to 4).
pub open spec fn meta_raw(m: EntryMeta, field: nat) -> Option<u64> {
    if field == 0 {
        m.ctime
    } else if field == 1 {
        m.atime
    } else if field == 2 {
        m.mtime
    } else if field == 3 {
        m.start_pos
    } else {
        match m.attributes {
            Some(a) => Some(a as u64),
            None => None,
        }
    }
}

/// One metadata field of every entry.
pub open spec fn meta_values(es: Seq<WriteEntry>, field: nat) -> Seq<Option<nat>> {
    Seq::new(
        es.len(),
        |i: int|
            match meta_raw(es[i].meta, field) {
                Some(x) => Some(x as nat),
                None => None,
            },
    )
}

/// The `FilesInfo` block for `es`.
pub open spec fn spec_files_info_bytes(es: Seq<WriteEntry>) -> Seq<u8> {
    seq![0x05u8] + spec_varint_encode(es.len() as u64) + spec_empty_properties(es) + spec_names_block(es)
        + spec_values_block(0x12, meta_values(es, 0), 8) + spec_values_block(0x13, meta_values(es, 1), 8)
        + spec_values_block(0x14, meta_values(es, 2), 8) + spec_values_block(0x18, meta_values(es, 3), 8)
        + spec_values_block(0x15, meta_values(es, 4), 4) + seq![0x00u8]
}

/// The values of one metadata field of every entry (see [`meta_values`]).
fn collect_meta(entries: &[WriteEntry], field: u8) -> (r: Vec<Option<u64>>)
    requires
        field <= 4,
    ensures
        opt64(r@) == meta_values(entries@, field as nat),
        forall|i: int| 0 <= i < r@.len() ==> (#[trigger] r@[i] matches Some(v) ==> (field == 4 ==> v <= u32::MAX)),
        r@.len() == entries@.len(),
{
    let mut r: Vec<Option<u64>> = Vec::new();
    let mut i: usize = 0;
    while i < entries.len()
        invariant
            i <= entries@.len(),
            field <= 4,
            r@.len() == i,
            forall|q: int| 0 <= q < i ==> #[trigger] r@[q] == meta_raw(entries@[q].meta, field as nat),
            forall|q: int| 0 <= q < r@.len() ==> (#[trigger] r@[q] matches Some(v) ==> (field == 4 ==> v <= u32::MAX)),
        decreases entries@.len() - i,
    {
        let m = entries[i].meta;
        let v: Option<u64> = if field == 0 {
            m.ctime
        } else if field == 1 {
            m.atime
        } else if field == 2 {
            m.mtime
        } else if field == 3 {
            m.start_pos
        } else {
            match m.attributes {
                Some(a) => Some(a as u64),
                None => None,
            }
        };
        r.push(v);
        i = i + 1;
    }
    proof {
        assert(opt64(r@) =~= meta_values(entries@, field as nat));
    }
    r
}

fn write_files_info(h: &mut Vec<u8>, entries: &[WriteEntry])
    requires
        entries@.len() * 16 + 64 < usize::MAX,
    ensures
        spec_name_data(entries@).len() < u64::MAX ==> final(h)@ == old(h)@ + spec_files_info_bytes(entries@),
{
    let ghost h0 = h@;
    h.push(0x05);
    push_varint(h, entries.len() as u64);
    write_empty_properties(h, entries);
    write_names(h, entries);
    let ctimes = collect_meta(entries, 0);
    write_values_property(h, 0x12, &ctimes, 8);
    let atimes = collect_meta(entries, 1);
    write_values_property(h, 0x13, &atimes, 8);
    let mtimes = collect_meta(entries, 2);
    write_values_property(h, 0x14, &mtimes, 8);
    let starts = collect_meta(entries, 3);
    write_values_property(h, 0x18, &starts, 8);
    let attrs = collect_meta(entries, 4);
    write_values_property(h, 0x15, &attrs, 4);
    h.push(0x00);
    proof {
        if spec_name_data(entries@).len() < u64::MAX {
            assert(h@ =~= h0 + spec_files_info_bytes(entries@));
        }
    }
}

/// Varints of `vs`, in order.
pub open spec fn spec_varints(vs: Seq<u64>) -> Seq<u8>
    decreases vs.len(),
{
    if vs.len() == 0 {
        Seq::empty()
    } else {
        spec_varints(vs.drop_last()) + spec_varint_encode(vs.last())
    }
}

fn push_varints(h: &mut Vec<u8>, vs: &[u64])
    ensures
        final(h)@ == old(h)@ + spec_varints(vs@),
{
    let ghost h0 = h@;
    let mut i: usize = 0;
    proof {
        assert(vs@.take(0) =~= Seq::<u64>::empty());
        assert(h@ =~= h0 + spec_varints(vs@.take(0)));
    }
    while i < vs.len()
        invariant
            i <= vs@.len(),
            h@ == h0 + spec_varints(vs@.take(i as int)),
        decreases vs@.len() - i,
    {
        push_varint(h, vs[i]);
        proof {
            assert(vs@.take(i + 1).drop_last() =~= vs@.take(i as int));
            assert(h@ =~= h0 + spec_varints(vs@.take(i + 1)));
        }
        i = i + 1;
    }
    proof {
        assert(vs@.take(vs@.len() as int) =~= vs@);
    }
}

/// All pack sizes of the folders, in order.
pub open spec fn all_pack_sizes(fs: Seq<CompletedFolder>) -> Seq<u64>
    decreases fs.len(),
{
    if fs.len() == 0 {
        Seq::empty()
    } else {
        all_pack_sizes(fs.drop_last()) + fs.last().pack_sizes@
    }
}

/// The `PackInfo` block: packed streams from offset zero, with their sizes.
pub open spec fn spec_pack_info_bytes(fs: Seq<CompletedFolder>) -> Seq<u8> {
    seq![0x06u8] + spec_varint_encode(0) + spec_varint_encode(all_pack_sizes(fs).len() as u64) + seq![0x09u8]
        + spec_varints(all_pack_sizes(fs)) + seq![0x00u8]
}

fn write_pack_info(h: &mut Vec<u8>, folders: &[CompletedFolder])
    ensures
        final(h)@ == old(h)@ + spec_pack_info_bytes(folders@),
{
    let mut sizes: Vec<u64> = Vec::new();
    let mut i: usize = 0;
    while i < folders.len()
        invariant
            i <= folders@.len(),
            sizes@ == all_pack_sizes(folders@.take(i as int)),
        decreases folders@.len() - i,
    {
        proof {
            assert(folders@.take(i + 1).drop_last() =~= folders@.take(i as int));
        }
        let mut k: usize = 0;
        let ghost s0 = sizes@;
        while k < folders[i].pack_sizes.len()
            invariant
                k <= folders@[i as int].pack_sizes@.len(),
                i < folders@.len(),
                sizes@ == s0 + folders@[i as int].pack_sizes@.take(k as int),
            decreases folders@[i as int].pack_sizes@.len() - k,
        {
            sizes.push(folders[i].pack_sizes[k]);
            k = k + 1;
            proof {
                assert(folders@[i as int].pack_sizes@.take(k as int) =~= folders@[i as int].pack_sizes@.take(
                    k - 1,
                ).push(folders@[i as int].pack_sizes@[k - 1]));
            }
        }
        proof {
            assert(folders@[i as int].pack_sizes@.take(folders@[i as int].pack_sizes@.len() as int)
                =~= folders@[i as int].pack_sizes@);
        }
        i = i + 1;
    }
    proof {
        assert(folders@.take(folders@.len() as int) =~= folders@);
    }
    let ghost h0 = h@;
    h.push(0x06);
    push_varint(h, 0);
    push_varint(h, sizes.len() as u64);
    h.push(0x09);
    push_varints(h, sizes.as_slice());
    h.push(0x00);
    proof {
        assert(h@ =~= h0 + spec_pack_info_bytes(folders@));
    }
}

/// The folders' coder descriptions, in order.
pub open spec fn all_coder_info(fs: Seq<CompletedFolder>) -> Seq<u8>
    decreases fs.len(),
{
    if fs.len() == 0 {
        Seq::empty()
    } else {
        all_coder_info(fs.drop_last()) + fs.last().coder_info@
    }
}

/// The folders' coder output sizes, in order.
pub open spec fn all_unpack_sizes(fs: Seq<CompletedFolder>) -> Seq<u64>
    decreases fs.len(),
{
    if fs.len() == 0 {
        Seq::empty()
    } else {
        all_unpack_sizes(fs.drop_last()) + fs.last().coder_unpack_sizes@
    }
}

/// The `UnpackInfo` block: folder count, coder descriptions, output sizes.
pub open spec fn spec_unpack_info_bytes(fs: Seq<CompletedFolder>) -> Seq<u8> {
    seq![0x07u8, 0x0bu8] + spec_varint_encode(fs.len() as u64) + seq![0x00u8] + all_coder_info(fs)
        + seq![0x0cu8] + spec_varints(all_unpack_sizes(fs)) + seq![0x00u8]
}

fn write_unpack_info(h: &mut Vec<u8>, folders: &[CompletedFolder])
    ensures
        final(h)@ == old(h)@ + spec_unpack_info_bytes(folders@),
{
    let ghost h0 = h@;
    h.push(0x07);
    h.push(0x0b);
    push_varint(h, folders.len() as u64);
    h.push(0x00);
    let ghost a = h@;
    let mut i: usize = 0;
    while i < folders.len()
        invariant
            i <= folders@.len(),
            h@ == a + all_coder_info(folders@.take(i as int)),
        decreases folders@.len() - i,
    {
        proof {
            assert(folders@.take(i + 1).drop_last() =~= folders@.take(i as int));
        }
        push_bytes(h, folders[i].coder_info.as_slice());
        proof {
            assert(h@ =~= a + all_coder_info(folders@.take(i + 1)));
        }
        i = i + 1;
    }
    h.push(0x0c);
    let ghost b = h@;
    let mut j: usize = 0;
    proof {
        assert(folders@.take(folders@.len() as int) =~= folders@);
        assert(h@ =~= b + spec_varints(all_unpack_sizes(folders@.take(0))));
    }
    while j < folders.len()
        invariant
            j <= folders@.len(),
            h@ == b + spec_varints(all_unpack_sizes(folders@.take(j as int))),
        decreases folders@.len() - j,
    {
        proof {
            assert(folders@.take(j + 1).drop_last() =~= folders@.take(j as int));
            lemma_varints_append(all_unpack_sizes(folders@.take(j as int)), folders@[j as int].coder_unpack_sizes@);
        }
        push_varints(h, folders[j].coder_unpack_sizes.as_slice());
        proof {
            assert(h@ =~= b + spec_varints(all_unpack_sizes(folders@.take(j + 1))));
        }
        j = j + 1;
    }
    h.push(0x00);
    proof {
        assert(h@ =~= h0 + spec_unpack_info_bytes(folders@));
    }
}

/// Varints of a concatenation are the concatenation of varints.
pub proof fn lemma_varints_append(a: Seq<u64>, b: Seq<u64>)
    ensures
        spec_varints(a + b) == spec_varints(a) + spec_varints(b),
    decreases b.len(),
{
    if b.len() == 0 {
        assert(a + b =~= a);
        assert(spec_varints(a) + spec_varints(b) =~= spec_varints(a));
    } else {
        lemma_varints_append(a, b.drop_last());
        assert((a + b).drop_last() =~= a + b.drop_last());
        assert(spec_varints(a + b) =~= spec_varints(a) + spec_varints(b));
    }
}

/// Per folder: the number of files it holds.
pub open spec fn folder_file_counts(fs: Seq<CompletedFolder>) -> Seq<u64> {
    Seq::new(fs.len(), |i: int| fs[i].file_indices@.len() as u64)
}

/// The explicit file sizes: all but the last of each folder.
pub open spec fn explicit_sizes(fs: Seq<CompletedFolder>) -> Seq<u64>
    decreases fs.len(),
{
    if fs.len() == 0 {
        Seq::empty()
    } else {
        let sz = fs.last().file_sizes@;
        explicit_sizes(fs.drop_last()) + if sz.len() == 0 {
            Seq::empty()
        } else {
            sz.drop_last()
        }
    }
}

/// All file digests, in folder order.
pub open spec fn all_file_crcs(fs: Seq<CompletedFolder>) -> Seq<Option<u32>>
    decreases fs.len(),
{
    if fs.len() == 0 {
        Seq::empty()
    } else {
        all_file_crcs(fs.drop_last()) + fs.last().file_crcs@
    }
}

/// Little-endian digests, in order.
pub open spec fn crc_bytes(cs: Seq<Option<u32>>) -> Seq<u8>
    decreases cs.len(),
{
    if cs.len() == 0 {
        Seq::empty()
    } else {
        crc_bytes(cs.drop_last()) + match cs.last() {
            Some(c) => le_bytes(c as nat, 4),
            None => Seq::empty(),
        }
    }
}

/// The `SubStreamsInfo` block: file counts when some folder does not hold
/// exactly one file, explicit sizes when some folder holds several, the
/// digests when every file has one.
pub open spec fn spec_substreams_bytes(fs: Seq<CompletedFolder>) -> Seq<u8> {
    let counts = folder_file_counts(fs);
    let cs = all_file_crcs(fs);
    seq![0x08u8] + (if exists|i: int| 0 <= i < fs.len() && #[trigger] counts[i] != 1 {
        seq![0x0du8] + spec_varints(counts)
    } else {
        Seq::empty()
    }) + (if exists|i: int| 0 <= i < fs.len() && #[trigger] counts[i] > 1 {
        seq![0x09u8] + spec_varints(explicit_sizes(fs))
    } else {
        Seq::empty()
    }) + (if forall|i: int| 0 <= i < cs.len() ==> #[trigger] cs[i] is Some {
        seq![0x0au8, 0x01u8] + crc_bytes(cs)
    } else {
        Seq::empty()
    }) + seq![0x00u8]
}

#[verifier::rlimit(40)]
fn write_substreams_info(h: &mut Vec<u8>, folders: &[CompletedFolder])
    ensures
        final(h)@ == old(h)@ + spec_substreams_bytes(folders@),
{
    let ghost h0 = h@;
    let ghost fs = folders@;
    let mut counts: Vec<u64> = Vec::new();
    let mut sizes: Vec<u64> = Vec::new();
    let mut crcs: Vec<u8> = Vec::new();
    let mut some_not_one = false;
    let mut some_many = false;
    let mut all_crcs = true;
    let ghost mut cs: Seq<Option<u32>> = Seq::empty();
    let mut i: usize = 0;
    while i < folders.len()
        invariant
            i <= fs.len(),
            fs == folders@,
            counts@ == folder_file_counts(fs.take(i as int)),
            sizes@ == explicit_sizes(fs.take(i as int)),
            cs == all_file_crcs(fs.take(i as int)),
            crcs@ == crc_bytes(cs),
            all_crcs == forall|q: int| 0 <= q < cs.len() ==> #[trigger] cs[q] is Some,
            some_not_one == exists|q: int| 0 <= q < i && #[trigger] folder_file_counts(fs)[q] != 1,
            some_many == exists|q: int| 0 <= q < i && #[trigger] folder_file_counts(fs)[q] > 1,
        decreases fs.len() - i,
    {
        let f = &folders[i];
        proof {
            assert(fs.take(i + 1).drop_last() =~= fs.take(i as int));
            assert(folder_file_counts(fs)[i as int] == f.file_indices@.len() as u64);
        }
        let n = f.file_indices.len() as u64;
        counts.push(n);
        if n != 1 {
            some_not_one = true;
        }
        if n > 1 {
            some_many = true;
        }
        if f.file_sizes.len() > 0 {
            let mut k: usize = 0;
            let ghost s0 = sizes@;
            while k < f.file_sizes.len() - 1
                invariant
                    k + 1 <= f.file_sizes@.len(),
                    sizes@ == s0 + f.file_sizes@.take(k as int),
                decreases f.file_sizes@.len() - k,
            {
                sizes.push(f.file_sizes[k]);
                k = k + 1;
                proof {
                    assert(f.file_sizes@.take(k as int) =~= f.file_sizes@.take(k - 1).push(f.file_sizes@[k - 1]));
                }
            }
            proof {
                assert(f.file_sizes@.take(k as int) =~= f.file_sizes@.drop_last());
            }
        }
        let mut c: usize = 0;
        let ghost cs0 = cs;
        while c < f.file_crcs.len()
            invariant
                c <= f.file_crcs@.len(),
                cs == cs0 + f.file_crcs@.take(c as int),
                crcs@ == crc_bytes(cs),
                all_crcs == forall|q: int| 0 <= q < cs.len() ==> #[trigger] cs[q] is Some,
            decreases f.file_crcs@.len() - c,
        {
            let ghost prev = cs;
            match f.file_crcs[c] {
                Some(v) => {
                    push_le(&mut crcs, v as u64, 4);
                },
                None => {
                    all_crcs = false;
                },
            }
            proof {
                cs = cs0 + f.file_crcs@.take(c + 1);
                assert(cs.drop_last() =~= prev);
                assert(cs.last() == f.file_crcs@[c as int]);
                assert forall|q: int| 0 <= q < prev.len() implies #[trigger] cs[q] == prev[q] by {
                    assert(cs.drop_last()[q] == cs[q]);
                }
                if f.file_crcs@[c as int] is Some {
                    assert((forall|q: int| 0 <= q < cs.len() ==> #[trigger] cs[q] is Some) == (forall|
                        q: int,
                    | 0 <= q < prev.len() ==> #[trigger] prev[q] is Some));
                } else {
                    assert(!(cs[cs.len() - 1] is Some));
                }
            }
            c = c + 1;
        }
        proof {
            assert(f.file_crcs@.take(f.file_crcs@.len() as int) =~= f.file_crcs@);
            assert(counts@ =~= folder_file_counts(fs.take(i + 1)));
        }
        i = i + 1;
    }
    proof {
        assert(fs.take(fs.len() as int) =~= fs);
    }
    h.push(0x08);
    if some_not_one {
        h.push(0x0d);
        push_varints(h, counts.as_slice());
    }
    if some_many {
        h.push(0x09);
        push_varints(h, sizes.as_slice());
    }
    if all_crcs {
        h.push(0x0a);
        h.push(0x01);
        push_bytes(h, crcs.as_slice());
    }
    h.push(0x00);
    proof {
        assert(h@ =~= h0 + spec_substreams_bytes(folders@));
    }
}

/// The main header: its tag, the streams block when there are folders, the
/// files block, the end tag.
pub open spec fn spec_header_bytes(es: Seq<WriteEntry>, fs: Seq<CompletedFolder>) -> Seq<u8> {
    seq![0x01u8] + (if fs.len() > 0 {
        seq![0x04u8] + spec_pack_info_bytes(fs) + spec_unpack_info_bytes(fs) + spec_substreams_bytes(fs)
            + seq![0x00u8]
    } else {
        Seq::empty()
    }) + spec_files_info_bytes(es) + seq![0x00u8]
}

/// Encode the main header for `entries` stored in `folders`.
pub fn build_header(entries: &[WriteEntry], folders: &[CompletedFolder]) -> (h: Vec<u8>)
    requires
        entries@.len() * 16 + 64 < usize::MAX,
    ensures
        spec_name_data(entries@).len() < u64::MAX ==> h@ == spec_header_bytes(entries@, folders@),
{
    let mut h: Vec<u8> = Vec::new();
    h.push(0x01);
    if folders.len() > 0 {
        h.push(0x04);
        write_pack_info(&mut h, folders);
        write_unpack_info(&mut h, folders);
        write_substreams_info(&mut h, folders);
        h.push(0x00);
    }
    write_files_info(&mut h, entries);
    h.push(0x00);
    proof {
        if spec_name_data(entries@).len() < u64::MAX {
            assert(h@ =~= spec_header_bytes(entries@, folders@));
        }
    }
    h
}

/// The descriptor of an encoded header: one packed stream at `pack_pos` of
/// `pack_size` bytes, one folder with `coder_info`, its output sizes.
pub open spec fn spec_encoded_header_descriptor(
    pack_pos: u64,
    pack_size: u64,
    coder_info: Seq<u8>,
    sizes: Seq<u64>,
) -> Seq<u8> {
    seq![0x17u8, 0x06u8] + spec_varint_encode(pack_pos) + spec_varint_encode(1) + seq![0x09u8]
        + spec_varint_encode(pack_size) + seq![0x00u8, 0x07u8, 0x0bu8] + spec_varint_encode(1) + seq![0x00u8]
        + coder_info + seq![0x0cu8] + spec_varints(sizes) + seq![0x00u8, 0x00u8]
}

/// Encode the descriptor of an encoded header.
pub fn build_encoded_header_descriptor(
    pack_pos: u64,
    pack_size: u64,
    coder_info: &[u8],
    coder_unpack_sizes: &[u64],
) -> (h: Vec<u8>)
    ensures
        h@ == spec_encoded_header_descriptor(pack_pos, pack_size, coder_info@, coder_unpack_sizes@),
{
    let mut h: Vec<u8> = Vec::new();
    h.push(0x17);
    h.push(0x06);
    push_varint(&mut h, pack_pos);
    push_varint(&mut h, 1);
    h.push(0x09);
    push_varint(&mut h, pack_size);
    h.push(0x00);
    h.push(0x07);
    h.push(0x0b);
    push_varint(&mut h, 1);
    h.push(0x00);
    push_bytes(&mut h, coder_info);
    h.push(0x0c);
    push_varints(&mut h, coder_unpack_sizes);
    h.push(0x00);
    h.push(0x00);
    proof {
        assert(h@ =~= spec_encoded_header_descriptor(pack_pos, pack_size, coder_info@, coder_unpack_sizes@));
    }
    h
}

} // verus!
