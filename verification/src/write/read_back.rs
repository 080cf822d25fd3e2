//! What the reader makes of what the writer writes: the names block, the
//! entry kinds and the plain header of archives whose entries carry no data.
use crate::aes::{spec_utf16_encode, units_le_bytes};
use crate::files_info::{
    empty_listing, entry_end, spec_apply_property, spec_files_tail, spec_is_anti, spec_is_directory, spec_is_empty_file,
    spec_is_empty_stream, spec_name, spec_name_range, spec_ordinal, spec_parse_files_info, spec_scan_files_info,
    spec_scan_files_tail, spec_units, spec_utf16_lossy, FilesInfoView,
};
use crate::write::header::{
    all_defined, any_defined, any_true, bitmap_of, defined_data, defined_flags, meta_raw, is_bitmap_of, meta_values, spec_bitmap_block, spec_name_data, spec_values_block,
    streamless_kinds, spec_names_block, spec_empty_properties, empty_flags, kind_flags, spec_files_info_bytes,
};
use crate::write::model::EntryKind;
use crate::write::encode::{
    archive_layout, built_archive, concat_streams, is_stream_folder, lemma_plain_archive_opens, no_streams,
    spec_should_encode, spec_signature_bytes,
};
use crate::write::model::{ArchiveOptions, CompletedFolder};
use crate::write::header::spec_header_bytes;
use crate::headers::{spec_header_files, spec_header_streams, spec_header_tail, spec_parse_header, HeaderView};
use crate::archive::{entry_value, spec_extract, spec_open, OpenOutcome};
use crate::codec::DecodeResult;
use crate::error::R7zError;
use crate::parsers::{
    bitmap_bytes, le_bytes, lemma_varint_roundtrip, pow256, spec_bitmap_is_set, spec_count_set, spec_defined_values,
    spec_entry_defined, spec_varint_encode,
};
use crate::pack_info::spec_sized_block;
use crate::property::{spec_parse_property, Property};
use crate::write::model::WriteEntry;
use vstd::arithmetic::div_mod::lemma_fundamental_div_mod;
use vstd::prelude::*;

verus! {

/// Decoding the UTF-16 encoding of a string gives the string back.
pub proof fn lemma_utf16_decode_encode(s: Seq<char>)
    ensures
        spec_utf16_lossy(spec_utf16_encode(s)) == s,
    decreases s.len(),
{
    if s.len() > 0 {
        let c = s[0];
        let v = c as nat;
        let u = spec_utf16_encode(s);
        let rest = spec_utf16_encode(s.skip(1));
        lemma_utf16_decode_encode(s.skip(1));
        vstd::utf8::char_is_scalar(c);
        vstd::utf8::char_u32_cast(c, c as u32);
        assert((c as u32) <= 0x10FFFF && !(0xD800 <= c as u32 <= 0xDFFF));
        if v < 0x10000 {
            assert(u == seq![v as u16] + rest);
            assert(u[0] == v as u16);
            assert(u.skip(1) =~= rest);
            assert(u[0] as u32 == c as u32);
            assert((u[0] as char) == c);
            assert(seq![c] + s.skip(1) =~= s);
        } else {
            let w = (v - 0x10000) as nat;
            let hi = (0xD800 + w / 0x400) as u16;
            let lo = (0xDC00 + w % 0x400) as u16;
            lemma_fundamental_div_mod(w as int, 0x400);
            assert(w < 0x100000);
            assert(w / 0x400 < 0x400);
            assert(u == seq![hi, lo] + rest);
            assert(u[0] == hi && u[1] == lo);
            assert(u.skip(2) =~= rest);
            assert(0x10000 + (hi - 0xD800) * 0x400 + (lo - 0xDC00) == v);
            assert((0x10000 + (u[0] - 0xD800) * 0x400 + (u[1] - 0xDC00)) as u32 == c as u32);
            assert(((0x10000 + (u[0] - 0xD800) * 0x400 + (u[1] - 0xDC00)) as char) == c);
            assert(seq![c] + s.skip(1) =~= s);
        }
    }
}

/// A string without NUL characters has no zero unit in its UTF-16 encoding.
pub proof fn lemma_utf16_units_nonzero(s: Seq<char>)
    requires
        forall|k: int| 0 <= k < s.len() ==> s[k] != '\0',
    ensures
        forall|k: int| 0 <= k < spec_utf16_encode(s).len() ==> spec_utf16_encode(s)[k] != 0,
    decreases s.len(),
{
    if s.len() > 0 {
        let c = s[0];
        let v = c as nat;
        assert(s[0] != '\0');
        vstd::utf8::char_is_scalar(c);
        vstd::utf8::char_u32_cast(c, c as u32);
        vstd::utf8::char_u32_cast('\0', 0u32);
        assert forall|k: int| 0 <= k < s.skip(1).len() implies s.skip(1)[k] != '\0' by {
            assert(s.skip(1)[k] == s[k + 1]);
        }
        lemma_utf16_units_nonzero(s.skip(1));
        let rest = spec_utf16_encode(s.skip(1));
        let u = spec_utf16_encode(s);
        if v < 0x10000 {
            assert(v != 0);
            assert(u == seq![v as u16] + rest);
            assert forall|k: int| 0 <= k < u.len() implies u[k] != 0 by {
                if k > 0 {
                    assert(u[k] == rest[k - 1]);
                }
            }
        } else {
            let w = (v - 0x10000) as nat;
            assert(w < 0x100000);
            assert(u == seq![(0xD800 + w / 0x400) as u16, (0xDC00 + w % 0x400) as u16] + rest);
            assert forall|k: int| 0 <= k < u.len() implies u[k] != 0 by {
                if k > 1 {
                    assert(u[k] == rest[k - 2]);
                }
            }
        }
    }
}

proof fn lemma_units_le_bytes_len(u: Seq<u16>)
    ensures
        units_le_bytes(u).len() == 2 * u.len(),
    decreases u.len(),
{
    if u.len() > 0 {
        lemma_units_le_bytes_len(u.drop_last());
    }
}

proof fn lemma_units_le_bytes_at(u: Seq<u16>, k: int)
    requires
        0 <= k < u.len(),
    ensures
        units_le_bytes(u)[2 * k] == (u[k] % 256) as u8,
        units_le_bytes(u)[2 * k + 1] == (u[k] / 256) as u8,
    decreases u.len(),
{
    let p = units_le_bytes(u.drop_last());
    let b = units_le_bytes(u);
    lemma_units_le_bytes_len(u.drop_last());
    assert(b == p + seq![(u.last() % 256) as u8, (u.last() / 256) as u8]);
    if k < u.len() - 1 {
        lemma_units_le_bytes_at(u.drop_last(), k);
        assert(u.drop_last()[k] == u[k]);
        assert(b[2 * k] == p[2 * k]);
        assert(b[2 * k + 1] == p[2 * k + 1]);
    } else {
        assert(u.last() == u[k]);
        assert(b[2 * k] == (u.last() % 256) as u8);
        assert(b[2 * k + 1] == (u.last() / 256) as u8);
    }
}

/// The little-endian bytes of units: two per unit, low byte first.
pub proof fn lemma_units_le_bytes(u: Seq<u16>)
    ensures
        units_le_bytes(u).len() == 2 * u.len(),
        forall|k: int|
            0 <= k < u.len() ==> #[trigger] units_le_bytes(u)[2 * k] == (u[k] % 256) as u8 && units_le_bytes(u)[2 * k
                + 1] == (u[k] / 256) as u8,
{
    lemma_units_le_bytes_len(u);
    assert forall|k: int| 0 <= k < u.len() implies #[trigger] units_le_bytes(u)[2 * k] == (u[k] % 256) as u8
        && units_le_bytes(u)[2 * k + 1] == (u[k] / 256) as u8 by {
        lemma_units_le_bytes_at(u, k);
    }
}

/// Reading little-endian units back from their bytes gives the units.
pub proof fn lemma_units_of_le_bytes(u: Seq<u16>)
    ensures
        spec_units(units_le_bytes(u)) == u,
{
    lemma_units_le_bytes(u);
    let b = units_le_bytes(u);
    assert forall|k: int| 0 <= k < u.len() implies #[trigger] spec_units(b)[k] == u[k] by {
        assert(b[2 * k] == (u[k] % 256) as u8);
        assert(b[2 * k + 1] == (u[k] / 256) as u8);
        assert(b[2 * k] as int + 256 * b[2 * k + 1] as int == u[k] as int);
    }
    assert(spec_units(b) =~= u);
}

/// The names block of the first `j` entries is the start of the names
/// block of all of them.
proof fn lemma_name_data_prefix(es: Seq<WriteEntry>, j: int)
    requires
        0 <= j <= es.len(),
    ensures
        spec_name_data(es.take(j)).len() <= spec_name_data(es).len(),
        spec_name_data(es).subrange(0, spec_name_data(es.take(j)).len() as int) == spec_name_data(es.take(j)),
    decreases es.len(),
{
    if j == es.len() {
        assert(es.take(j) =~= es);
        assert(spec_name_data(es).subrange(0, spec_name_data(es).len() as int) =~= spec_name_data(es));
    } else {
        let p = es.drop_last();
        lemma_name_data_prefix(p, j);
        assert(p.take(j) =~= es.take(j));
        let a = spec_name_data(p);
        let b = spec_name_data(es);
        assert(b == a + units_le_bytes(spec_utf16_encode(es.last().name@)) + seq![0u8, 0u8]);
        let l = spec_name_data(es.take(j)).len();
        assert(b.subrange(0, l as int) =~= a.subrange(0, l as int));
    }
}

/// One more entry adds its name's units and a zero unit.
proof fn lemma_name_data_step(es: Seq<WriteEntry>, j: int)
    requires
        0 <= j < es.len(),
    ensures
        spec_name_data(es.take(j + 1)) == spec_name_data(es.take(j)) + units_le_bytes(spec_utf16_encode(es[j].name@))
            + seq![0u8, 0u8],
{
    assert(es.take(j + 1).drop_last() =~= es.take(j));
    assert(es.take(j + 1).last() == es[j]);
}

/// The scan for the end of a name that starts at `pos` and is ended by a
/// zero unit stops right after that unit.
proof fn lemma_entry_end_at(d: Seq<u8>, pos: int, u: Seq<u16>, k: int)
    requires
        0 <= pos,
        0 <= k <= u.len(),
        forall|q: int| 0 <= q < u.len() ==> u[q] != 0,
        pos + 2 * u.len() + 2 <= d.len(),
        d.subrange(pos, pos + 2 * u.len() + 2) == units_le_bytes(u) + seq![0u8, 0u8],
    ensures
        entry_end(d, (pos + 2 * k) as nat) == pos + 2 * u.len() + 2,
    decreases u.len() - k,
{
    lemma_units_le_bytes(u);
    let w = units_le_bytes(u) + seq![0u8, 0u8];
    assert(d[pos + 2 * k] == d.subrange(pos, pos + 2 * u.len() + 2)[2 * k]);
    assert(d[pos + 2 * k + 1] == d.subrange(pos, pos + 2 * u.len() + 2)[2 * k + 1]);
    if k < u.len() {
        assert(w[2 * k] == (u[k] % 256) as u8);
        assert(w[2 * k + 1] == (u[k] / 256) as u8);
        assert(u[k] != 0);
        lemma_entry_end_at(d, pos, u, k + 1);
        assert(pos + 2 * k + 2 == pos + 2 * (k + 1));
    } else {
        assert(w[2 * k] == 0u8);
        assert(w[2 * k + 1] == 0u8);
    }
}

/// Where the name of entry `j` starts in the names block of `es`.
pub open spec fn name_start(es: Seq<WriteEntry>, j: int) -> nat {
    spec_name_data(es.take(j)).len()
}

/// No name of `es` holds a NUL character.
pub open spec fn names_without_nul(es: Seq<WriteEntry>) -> bool {
    forall|j: int, k: int| 0 <= j < es.len() && 0 <= k < es[j].name@.len() ==> #[trigger] es[j].name@[k] != '\0'
}

proof fn lemma_name_range_from(es: Seq<WriteEntry>, j: int, i: int)
    requires
        0 <= j <= i < es.len(),
        names_without_nul(es),
    ensures
        spec_name_range(spec_name_data(es), name_start(es, j), j as nat, i as nat) == Some(
            (name_start(es, i), name_start(es, i) + 2 * spec_utf16_encode(es[i].name@).len()),
        ),
    decreases i - j,
{
    let d = spec_name_data(es);
    let u = spec_utf16_encode(es[j].name@);
    let pos = name_start(es, j);
    lemma_name_data_prefix(es, j + 1);
    lemma_name_data_step(es, j);
    lemma_units_le_bytes(u);
    assert forall|k: int| 0 <= k < es[j].name@.len() implies es[j].name@[k] != '\0' by {
        assert(es[j].name@[k] != '\0');
    }
    lemma_utf16_units_nonzero(es[j].name@);
    let next = spec_name_data(es.take(j + 1)).len();
    assert(next == pos + 2 * u.len() + 2);
    assert(d.subrange(pos as int, next as int) =~= units_le_bytes(u) + seq![0u8, 0u8]) by {
        assert(d.subrange(0, next as int) == spec_name_data(es.take(j + 1)));
        assert forall|t: int| 0 <= t < next - pos implies #[trigger] d.subrange(pos as int, next as int)[t] == (
        units_le_bytes(u) + seq![0u8, 0u8])[t] by {
            assert(d.subrange(pos as int, next as int)[t] == d.subrange(0, next as int)[pos + t]);
        }
    }
    lemma_entry_end_at(d, pos as int, u, 0);
    assert(entry_end(d, pos) == next);
    if j < i {
        lemma_name_range_from(es, j + 1, i);
        assert(name_start(es, j + 1) == next);
    }
}

/// The names block the writer writes for `es` reads back: the name of each
/// entry, decoded from its range of the block, is the entry's name, when
/// no name holds a NUL character.
pub proof fn lemma_names_read_back(es: Seq<WriteEntry>, v: FilesInfoView, i: int)
    requires
        0 <= i < es.len(),
        names_without_nul(es),
        v.name_data == spec_name_data(es),
    ensures
        spec_name(v, i as nat) == Some(es[i].name@),
{
    let d = spec_name_data(es);
    assert(es.take(0) =~= Seq::<WriteEntry>::empty());
    assert(name_start(es, 0) == 0);
    lemma_name_range_from(es, 0, i);
    let u = spec_utf16_encode(es[i].name@);
    let st = name_start(es, i) as int;
    lemma_name_data_prefix(es, i + 1);
    lemma_name_data_step(es, i);
    lemma_units_le_bytes(u);
    let next = spec_name_data(es.take(i + 1)).len();
    assert(d.subrange(st, st + 2 * u.len()) =~= units_le_bytes(u)) by {
        assert(d.subrange(0, next as int) == spec_name_data(es.take(i + 1)));
        assert forall|t: int| 0 <= t < 2 * u.len() implies #[trigger] d.subrange(st, st + 2 * u.len())[t]
            == units_le_bytes(u)[t] by {
            assert(d.subrange(st, st + 2 * u.len())[t] == d.subrange(0, next as int)[st + t]);
        }
    }
    lemma_units_of_le_bytes(u);
    lemma_utf16_decode_encode(es[i].name@);
}

/// Flag `i` of `values` as a bit (flags past the end are clear).
pub open spec fn flag_bit(values: Seq<bool>, i: int) -> u8 {
    if 0 <= i < values.len() && values[i] {
        1
    } else {
        0
    }
}

/// Byte `b` of the most-significant-bit-first bitmap of `values`.
pub open spec fn bitmap_byte(values: Seq<bool>, b: int) -> u8 {
    ((flag_bit(values, 8 * b) << 7u8) | (flag_bit(values, 8 * b + 1) << 6u8) | (flag_bit(values, 8 * b + 2) << 5u8)
        | (flag_bit(values, 8 * b + 3) << 4u8) | (flag_bit(values, 8 * b + 4) << 3u8) | (flag_bit(values, 8 * b + 5)
        << 2u8) | (flag_bit(values, 8 * b + 6) << 1u8) | flag_bit(values, 8 * b + 7)) as u8
}

proof fn lemma_bitmap_byte_bits(a0: u8, a1: u8, a2: u8, a3: u8, a4: u8, a5: u8, a6: u8, a7: u8)
    requires
        a0 <= 1 && a1 <= 1 && a2 <= 1 && a3 <= 1 && a4 <= 1 && a5 <= 1 && a6 <= 1 && a7 <= 1,
    ensures
        ({
            let x = (a0 << 7u8) | (a1 << 6u8) | (a2 << 5u8) | (a3 << 4u8) | (a4 << 3u8) | (a5 << 2u8) | (a6 << 1u8) | a7;
            &&& ((x >> 7u8) & 1u8 == 1u8) == (a0 == 1)
            &&& ((x >> 6u8) & 1u8 == 1u8) == (a1 == 1)
            &&& ((x >> 5u8) & 1u8 == 1u8) == (a2 == 1)
            &&& ((x >> 4u8) & 1u8 == 1u8) == (a3 == 1)
            &&& ((x >> 3u8) & 1u8 == 1u8) == (a4 == 1)
            &&& ((x >> 2u8) & 1u8 == 1u8) == (a5 == 1)
            &&& ((x >> 1u8) & 1u8 == 1u8) == (a6 == 1)
            &&& ((x >> 0u8) & 1u8 == 1u8) == (a7 == 1)
        }),
{
    assert({
        let x = (a0 << 7u8) | (a1 << 6u8) | (a2 << 5u8) | (a3 << 4u8) | (a4 << 3u8) | (a5 << 2u8) | (a6 << 1u8) | a7;
        &&& ((x >> 7u8) & 1u8 == 1u8) == (a0 == 1)
        &&& ((x >> 6u8) & 1u8 == 1u8) == (a1 == 1)
        &&& ((x >> 5u8) & 1u8 == 1u8) == (a2 == 1)
        &&& ((x >> 4u8) & 1u8 == 1u8) == (a3 == 1)
        &&& ((x >> 3u8) & 1u8 == 1u8) == (a4 == 1)
        &&& ((x >> 2u8) & 1u8 == 1u8) == (a5 == 1)
        &&& ((x >> 1u8) & 1u8 == 1u8) == (a6 == 1)
        &&& ((x >> 0u8) & 1u8 == 1u8) == (a7 == 1)
    }) by (bit_vector)
        requires
            a0 <= 1 && a1 <= 1 && a2 <= 1 && a3 <= 1 && a4 <= 1 && a5 <= 1 && a6 <= 1 && a7 <= 1,
    ;
}

/// Every list of flags has a bitmap.
pub proof fn lemma_bitmap_exists(values: Seq<bool>)
    ensures
        is_bitmap_of(bitmap_of(values), values),
{
    let bm = Seq::new(bitmap_bytes(values.len()), |b: int| bitmap_byte(values, b));
    assert forall|i: nat| i < 8 * bm.len() implies #[trigger] spec_bitmap_is_set(bm, i) == (i < values.len()
        && values[i as int]) by {
        let b = (i / 8) as int;
        let j = i % 8;
        assert(8 * b + j == i);
        assert(b < bm.len()) by (nonlinear_arith)
            requires
                i < 8 * bm.len(),
                b == i / 8,
        ;
        lemma_bitmap_byte_bits(
            flag_bit(values, 8 * b),
            flag_bit(values, 8 * b + 1),
            flag_bit(values, 8 * b + 2),
            flag_bit(values, 8 * b + 3),
            flag_bit(values, 8 * b + 4),
            flag_bit(values, 8 * b + 5),
            flag_bit(values, 8 * b + 6),
            flag_bit(values, 8 * b + 7),
        );
        assert(bm[b] == bitmap_byte(values, b));
        assert(flag_bit(values, i as int) == 1 <==> (i < values.len() && values[i as int]));
    }
    assert(is_bitmap_of(bm, values));
}

/// A size-prefixed property block: its tag, the size of `b`, then `b`.
pub open spec fn property_block(tag: u8, b: Seq<u8>) -> Seq<u8> {
    seq![tag] + spec_varint_encode(b.len() as u64) + b
}

proof fn lemma_block_reads(tag: u8, b: Seq<u8>, rest: Seq<u8>)
    requires
        b.len() <= u64::MAX,
    ensures
        spec_parse_property(property_block(tag, b) + rest) == Property::spec_from_u8(tag),
        spec_sized_block((property_block(tag, b) + rest).skip(1)) == Some(
            ((property_block(tag, b).len() - 1) as nat, b),
        ),
        (property_block(tag, b) + rest).skip(property_block(tag, b).len() as int) == rest,
{
    let v = spec_varint_encode(b.len() as u64);
    let t = property_block(tag, b) + rest;
    assert(t.skip(1) =~= v + (b + rest));
    lemma_varint_roundtrip(b.len() as u64, b + rest);
    assert((v + (b + rest)).subrange(v.len() as int, (v.len() + b.len()) as int) =~= b);
    assert(t.skip(property_block(tag, b).len() as int) =~= rest);
}

/// Walking over a property block then goes on after it.
proof fn lemma_scan_block(tag: u8, b: Seq<u8>, rest: Seq<u8>)
    requires
        b.len() <= u64::MAX,
        Property::spec_from_u8(tag) is Some,
        tag != 0,
    ensures
        spec_scan_files_tail(property_block(tag, b) + rest) == match spec_scan_files_tail(rest) {
            None => None,
            Some(c) => Some(property_block(tag, b).len() + c),
        },
{
    lemma_block_reads(tag, b, rest);
    assert(Property::spec_from_u8(tag) != Some(Property::END));
}

/// Reading a property block applies it, then goes on after it.
proof fn lemma_files_tail_block(tag: u8, b: Seq<u8>, rest: Seq<u8>, n: nat, st: FilesInfoView)
    requires
        b.len() <= u64::MAX,
        Property::spec_from_u8(tag) is Some,
        tag != 0,
    ensures
        spec_files_tail(property_block(tag, b) + rest, n, st) == match spec_apply_property(
            st,
            Property::spec_from_u8(tag)->Some_0,
            b,
            n,
        ) {
            None => None,
            Some(st2) => match spec_files_tail(rest, n, st2) {
                None => None,
                Some((c, v)) => Some((property_block(tag, b).len() + c, v)),
            },
        },
{
    lemma_block_reads(tag, b, rest);
    assert(Property::spec_from_u8(tag) != Some(Property::END));
}

/// The end tag ends a property list.
proof fn lemma_tail_end(rest: Seq<u8>, n: nat, st: FilesInfoView)
    ensures
        spec_files_tail(seq![0u8] + rest, n, st) == Some((1nat, st)),
        spec_scan_files_tail(seq![0u8] + rest) == Some(1nat),
{
    assert((seq![0u8] + rest)[0] == 0u8);
}

/// The listing a property list gives, without the bytes it used.
pub open spec fn tail_view(t: Seq<u8>, n: nat, st: FilesInfoView) -> Option<FilesInfoView> {
    match spec_files_tail(t, n, st) {
        None => None,
        Some((_, v)) => Some(v),
    }
}

/// `k` more bytes walked, when the walk succeeds.
pub open spec fn add_opt(k: nat, o: Option<nat>) -> Option<nat> {
    match o {
        None => None,
        Some(c) => Some(k + c),
    }
}

/// The listing `st` with the bitmap `bm` of the property `tag` (empty
/// streams, empty files or anti-items).
pub open spec fn with_bitmap(st: FilesInfoView, tag: u8, bm: Seq<u8>) -> FilesInfoView {
    if tag == 0x0e {
        FilesInfoView { empty_streams: bm, ..st }
    } else if tag == 0x0f {
        FilesInfoView { empty_files: bm, ..st }
    } else {
        FilesInfoView { anti_items: bm, ..st }
    }
}

proof fn lemma_bitmap_block_reads(tag: u8, flags: Seq<bool>, rest: Seq<u8>, n: nat, st: FilesInfoView)
    requires
        tag == 0x0e || tag == 0x0f || tag == 0x10,
        flags.len() <= u64::MAX,
    ensures
        spec_scan_files_tail(spec_bitmap_block(tag, flags) + rest) == add_opt(
            spec_bitmap_block(tag, flags).len(),
            spec_scan_files_tail(rest),
        ),
        tail_view(spec_bitmap_block(tag, flags) + rest, n, st) == (if any_true(flags) {
            tail_view(rest, n, with_bitmap(st, tag, bitmap_of(flags)))
        } else {
            tail_view(rest, n, st)
        }),
{
    reveal(spec_bitmap_block);
    if any_true(flags) {
        let bm = bitmap_of(flags);
        lemma_bitmap_exists(flags);
        assert(bm.len() <= u64::MAX);
        assert(spec_bitmap_block(tag, flags) == property_block(tag, bm));
        lemma_scan_block(tag, bm, rest);
        lemma_files_tail_block(tag, bm, rest, n, st);
    } else {
        assert(spec_bitmap_block(tag, flags) + rest =~= rest);
    }
}

proof fn lemma_streamless_kinds_all(es: Seq<WriteEntry>)
    requires
        no_streams(es),
    ensures
        streamless_kinds(es) == Seq::new(es.len(), |i: int| es[i].kind),
    decreases es.len(),
{
    if es.len() > 0 {
        let p = es.drop_last();
        assert(no_streams(p)) by {
            assert forall|i: int| 0 <= i < p.len() implies !(#[trigger] p[i]).has_stream by {
                assert(p[i] == es[i]);
            }
        }
        lemma_streamless_kinds_all(p);
        assert(!es[es.len() - 1].has_stream);
        assert(streamless_kinds(es) =~= Seq::new(es.len(), |i: int| es[i].kind));
    }
}

/// The count of set bits before `i` in a bitmap whose first `i` bits are set.
proof fn lemma_count_all_set(bm: Seq<u8>, i: nat)
    requires
        forall|k: nat| k < i ==> #[trigger] spec_bitmap_is_set(bm, k),
    ensures
        spec_count_set(bm, i) == i,
    decreases i,
{
    if i > 0 {
        lemma_count_all_set(bm, (i - 1) as nat);
        assert(spec_bitmap_is_set(bm, (i - 1) as nat));
    }
}

/// A metadata field as the reader models it.
pub open spec fn meta_nat(x: Option<u64>) -> Option<nat> {
    match x {
        Some(v) => Some(v as nat),
        None => None,
    }
}

/// Entry `i` of the listing `v` is the entry `e`: its name, its times,
/// start position and attributes, a data stream as `e` has one, and, when
/// it has none, a directory, an anti-item or an empty file as `e` is.
pub open spec fn entry_listed(v: FilesInfoView, e: WriteEntry, i: nat) -> bool {
    &&& spec_name(v, i) == Some(e.name@)
    &&& entry_value(v.ctimes, i) == meta_nat(e.meta.ctime)
    &&& entry_value(v.atimes, i) == meta_nat(e.meta.atime)
    &&& entry_value(v.mtimes, i) == meta_nat(e.meta.mtime)
    &&& entry_value(v.start_positions, i) == meta_nat(e.meta.start_pos)
    &&& entry_value(v.attributes, i) == meta_nat(meta_raw(e.meta, 4))
    &&& spec_is_empty_stream(v, i) == !e.has_stream
    &&& spec_is_directory(v, i) == (!e.has_stream && e.kind == EntryKind::Directory)
    &&& spec_is_anti(v, i) == (!e.has_stream && e.kind == EntryKind::Anti)
    &&& spec_is_empty_file(v, i) == (!e.has_stream && e.kind == EntryKind::File)
}

/// The listing `v` holds the entries `es`, in order (see [`entry_listed`]).
pub open spec fn lists_entries(v: FilesInfoView, es: Seq<WriteEntry>) -> bool {
    &&& v.num_files == es.len()
    &&& forall|i: int| 0 <= i < es.len() ==> #[trigger] entry_listed(v, es[i], i as nat)
}

/// The `FilesInfo` block of `es` can be read back: no name holds a NUL,
/// and the blocks fit their size fields.
pub open spec fn files_info_fits(es: Seq<WriteEntry>) -> bool {
    &&& names_without_nul(es)
    &&& es.len() <= usize::MAX
    &&& es.len() * 16 + 64 < u64::MAX
    &&& spec_name_data(es).len() + 1 < u64::MAX
}

/// Entries without data whose `FilesInfo` block can be read back.
pub open spec fn dataless_entries(es: Seq<WriteEntry>) -> bool {
    &&& no_streams(es)
    &&& files_info_fits(es)
}

/// The values of one metadata field as the writer stores them: absent when
/// no entry has one.
pub open spec fn values_or_empty(vs: Seq<Option<nat>>) -> Seq<Option<nat>> {
    if any_defined(vs) {
        vs
    } else {
        Seq::empty()
    }
}

/// The listing `st` with the metadata of `es`.
pub open spec fn with_meta(st: FilesInfoView, es: Seq<WriteEntry>) -> FilesInfoView {
    FilesInfoView {
        ctimes: values_or_empty(meta_values(es, 0)),
        atimes: values_or_empty(meta_values(es, 1)),
        mtimes: values_or_empty(meta_values(es, 2)),
        start_positions: values_or_empty(meta_values(es, 3)),
        attributes: values_or_empty(meta_values(es, 4)),
        ..st
    }
}

/// The metadata blocks of `es`, in the writer's order.
pub open spec fn meta_blocks(es: Seq<WriteEntry>) -> Seq<u8> {
    spec_values_block(0x12, meta_values(es, 0), 8) + spec_values_block(0x13, meta_values(es, 1), 8) + spec_values_block(
        0x14,
        meta_values(es, 2),
        8,
    ) + spec_values_block(0x18, meta_values(es, 3), 8) + spec_values_block(0x15, meta_values(es, 4), 4)
}

proof fn lemma_defined_data_len(vs: Seq<Option<nat>>, width: nat)
    ensures
        defined_data(vs, width).len() <= width * vs.len(),
    decreases vs.len(),
{
    if vs.len() > 0 {
        lemma_defined_data_len(vs.drop_last(), width);
        match vs.last() {
            Some(v) => crate::parsers::lemma_le_bytes_len(v, width),
            None => {},
        }
        assert(width * vs.drop_last().len() + width == width * vs.len()) by (nonlinear_arith)
            requires
                vs.drop_last().len() + 1 == vs.len(),
        ;
    }
}

proof fn lemma_meta_field_reads(es: Seq<WriteEntry>, field: nat, tag: u8, width: nat, rest: Seq<u8>, st: FilesInfoView)
    requires
        values_tag_ok(tag, width),
        field < 5,
        field == 4 <==> width == 4,
        es.len() * 16 + 64 < u64::MAX,
        with_values(st, tag, Seq::empty()) == st,
    ensures
        spec_scan_files_tail(spec_values_block(tag, meta_values(es, field), width) + rest) == add_opt(
            spec_values_block(tag, meta_values(es, field), width).len(),
            spec_scan_files_tail(rest),
        ),
        tail_view(spec_values_block(tag, meta_values(es, field), width) + rest, es.len(), st) == tail_view(
            rest,
            es.len(),
            with_values(st, tag, values_or_empty(meta_values(es, field))),
        ),
{
    let vs = meta_values(es, field);
    crate::parsers::lemma_pow256_values();
    assert forall|i: int| 0 <= i < vs.len() implies (#[trigger] vs[i] matches Some(v) ==> v < pow256(width)) by {}
    lemma_defined_data_len(vs, width);
    assert(bitmap_bytes(es.len()) <= es.len() + 1);
    assert(width * vs.len() <= 8 * es.len()) by (nonlinear_arith)
        requires
            width <= 8,
            vs.len() == es.len(),
    ;
    lemma_values_block_reads(tag, vs, width, rest, es.len(), st);
}

#[verifier::rlimit(100)]
#[verifier::spinoff_prover]
proof fn lemma_meta_blocks_read(es: Seq<WriteEntry>, rest: Seq<u8>, st: FilesInfoView)
    requires
        es.len() * 16 + 64 < u64::MAX,
        st.ctimes == Seq::<Option<nat>>::empty(),
        st.atimes == Seq::<Option<nat>>::empty(),
        st.mtimes == Seq::<Option<nat>>::empty(),
        st.start_positions == Seq::<Option<nat>>::empty(),
        st.attributes == Seq::<Option<nat>>::empty(),
    ensures
        spec_scan_files_tail(meta_blocks(es) + rest) == add_opt(meta_blocks(es).len(), spec_scan_files_tail(rest)),
        tail_view(meta_blocks(es) + rest, es.len(), st) == tail_view(rest, es.len(), with_meta(st, es)),
{
    let n = es.len();
    let v0 = spec_values_block(0x12, meta_values(es, 0), 8);
    let v1 = spec_values_block(0x13, meta_values(es, 1), 8);
    let v2 = spec_values_block(0x14, meta_values(es, 2), 8);
    let v3 = spec_values_block(0x18, meta_values(es, 3), 8);
    let v4 = spec_values_block(0x15, meta_values(es, 4), 4);
    let r4 = v4 + rest;
    let r3 = v3 + r4;
    let r2 = v2 + r3;
    let r1 = v1 + r2;
    let s0 = st;
    let s1 = with_values(s0, 0x12, values_or_empty(meta_values(es, 0)));
    let s2 = with_values(s1, 0x13, values_or_empty(meta_values(es, 1)));
    let s3 = with_values(s2, 0x14, values_or_empty(meta_values(es, 2)));
    let s4 = with_values(s3, 0x18, values_or_empty(meta_values(es, 3)));
    let s5 = with_values(s4, 0x15, values_or_empty(meta_values(es, 4)));
    lemma_meta_field_reads(es, 4, 0x15, 4, rest, s4);
    lemma_meta_field_reads(es, 3, 0x18, 8, r4, s3);
    lemma_meta_field_reads(es, 2, 0x14, 8, r3, s2);
    lemma_meta_field_reads(es, 1, 0x13, 8, r2, s1);
    lemma_meta_field_reads(es, 0, 0x12, 8, r1, s0);
    assert(meta_blocks(es) + rest =~= v0 + r1);
    assert(meta_blocks(es).len() == v0.len() + v1.len() + v2.len() + v3.len() + v4.len());
    assert(s5 == with_meta(st, es));
}

proof fn lemma_flag_bitmap(flags: Seq<bool>, i: nat)
    requires
        i < flags.len(),
    ensures
        spec_bitmap_is_set(if any_true(flags) { bitmap_of(flags) } else { Seq::<u8>::empty() }, i) == flags[i as int],
{
    if any_true(flags) {
        lemma_bitmap_exists(flags);
        let bm = bitmap_of(flags);
        assert(i < 8 * bm.len()) by (nonlinear_arith)
            requires
                bm.len() == (flags.len() + 7) / 8,
                i < flags.len(),
        ;
    } else {
        assert(!(0 <= i < flags.len() && flags[i as int]));
    }
}

/// The bitmap of `flags` as the writer stores it: absent when no flag is set.
pub open spec fn bitmap_or_empty(flags: Seq<bool>) -> Seq<u8> {
    if any_true(flags) {
        bitmap_of(flags)
    } else {
        Seq::empty()
    }
}

/// The listing the reader makes of the `FilesInfo` block of entries
/// without data, before it numbers the entries without a stream.
pub open spec fn written_view(es: Seq<WriteEntry>) -> FilesInfoView {
    let kinds = streamless_kinds(es);
    FilesInfoView {
        name_data: spec_name_data(es),
        empty_streams: bitmap_or_empty(empty_flags(es)),
        empty_files: bitmap_or_empty(kind_flags(kinds, EntryKind::File)),
        anti_items: bitmap_or_empty(kind_flags(kinds, EntryKind::Anti)),
        ..with_meta(empty_listing(es.len() as u64), es)
    }
}

/// The bytes after the entry count of the `FilesInfo` block the writer
/// writes for entries without data.
pub open spec fn written_tail(es: Seq<WriteEntry>) -> Seq<u8> {
    spec_empty_properties(es) + spec_names_block(es) + meta_blocks(es) + seq![0x00u8]
}

proof fn lemma_written_bytes(es: Seq<WriteEntry>)
    requires
        files_info_fits(es),
    ensures
        spec_files_info_bytes(es) == seq![0x05u8] + spec_varint_encode(es.len() as u64) + written_tail(es),
{
    assert(spec_files_info_bytes(es) =~= seq![0x05u8] + spec_varint_encode(es.len() as u64) + written_tail(es));
}

/// The listing `st` with the empty-stream, empty-file and anti-item
/// bitmaps that the writer stores for `es`.
pub open spec fn with_empties(st: FilesInfoView, es: Seq<WriteEntry>) -> FilesInfoView {
    let kinds = streamless_kinds(es);
    FilesInfoView {
        empty_streams: bitmap_or_empty(empty_flags(es)),
        empty_files: bitmap_or_empty(kind_flags(kinds, EntryKind::File)),
        anti_items: bitmap_or_empty(kind_flags(kinds, EntryKind::Anti)),
        ..st
    }
}

proof fn lemma_streamless_before_bound(es: Seq<WriteEntry>, i: int)
    requires
        0 <= i,
    ensures
        streamless_before(es, i) <= i,
    decreases i,
{
    if i > 0 {
        lemma_streamless_before_bound(es, i - 1);
    }
}

#[verifier::rlimit(60)]
proof fn lemma_empty_properties_read(es: Seq<WriteEntry>, rest: Seq<u8>, st: FilesInfoView)
    requires
        es.len() <= u64::MAX,
        st.empty_streams == Seq::<u8>::empty(),
        st.empty_files == Seq::<u8>::empty(),
        st.anti_items == Seq::<u8>::empty(),
    ensures
        spec_scan_files_tail(spec_empty_properties(es) + rest) == add_opt(
            spec_empty_properties(es).len(),
            spec_scan_files_tail(rest),
        ),
        tail_view(spec_empty_properties(es) + rest, es.len(), st) == tail_view(rest, es.len(), with_empties(st, es)),
{
    let n = es.len();
    reveal(spec_empty_properties);
    let fl = empty_flags(es);
    let kinds = streamless_kinds(es);
    lemma_streamless_kinds_len(es);
    lemma_streamless_before_bound(es, n as int);
    let kf = kind_flags(kinds, EntryKind::File);
    let ka = kind_flags(kinds, EntryKind::Anti);
    let e = spec_empty_properties(es);
    let st1 = if any_true(fl) { with_bitmap(st, 0x0e, bitmap_of(fl)) } else { st };
    let st2 = if any_true(kf) { with_bitmap(st1, 0x0f, bitmap_of(kf)) } else { st1 };
    let st3 = if any_true(ka) { with_bitmap(st2, 0x10, bitmap_of(ka)) } else { st2 };
    if any_true(fl) {
        let b1 = spec_bitmap_block(0x0e, fl);
        let b2 = spec_bitmap_block(0x0f, kf);
        let b3 = spec_bitmap_block(0x10, ka);
        assert(e == b1 + b2 + b3);
        lemma_bitmap_block_reads(0x10, ka, rest, n, st2);
        lemma_bitmap_block_reads(0x0f, kf, b3 + rest, n, st1);
        lemma_bitmap_block_reads(0x0e, fl, b2 + b3 + rest, n, st);
        assert(b1 + (b2 + b3 + rest) =~= e + rest);
        assert(b2 + (b3 + rest) =~= b2 + b3 + rest);
    } else {
        assert(e == Seq::<u8>::empty());
        assert(e + rest =~= rest);
        assert(kinds.len() == 0) by {
            lemma_no_streamless(es, n as int);
        }
        assert(!any_true(kf));
        assert(!any_true(ka));
    }
    assert(st3 == with_empties(st, es));
}

#[verifier::rlimit(60)]
proof fn lemma_written_tail(es: Seq<WriteEntry>, more: Seq<u8>)
    requires
        files_info_fits(es),
    ensures
        spec_scan_files_tail(written_tail(es) + more) == Some(written_tail(es).len()),
        tail_view(written_tail(es) + more, es.len(), empty_listing(es.len() as u64)) == Some(written_view(es)),
{
    let n = es.len();
    let nd = spec_name_data(es);
    let names = spec_names_block(es);
    reveal(spec_names_block);
    let nb = seq![0u8] + nd;
    assert(names =~= property_block(0x11, nb));
    let e = spec_empty_properties(es);
    let end0 = seq![0x00u8] + more;
    let end = meta_blocks(es) + end0;
    let after_names = names + end;
    let st0 = empty_listing(n as u64);
    let st3 = with_empties(st0, es);
    let stn = FilesInfoView { name_data: nb.skip(1), ..st3 };
    lemma_tail_end(more, n, with_meta(stn, es));
    lemma_meta_blocks_read(es, end0, stn);
    assert(tail_view(end, n, stn) == Some(with_meta(stn, es)));
    lemma_scan_block(0x11, nb, end);
    lemma_files_tail_block(0x11, nb, end, n, st3);
    assert(tail_view(after_names, n, st3) == Some(with_meta(stn, es)));
    assert(nb.skip(1) =~= nd);
    assert(written_tail(es) + more =~= e + after_names);
    lemma_empty_properties_read(es, after_names, st0);
    assert(with_meta(stn, es) == written_view(es));
}

/// The listing of entries without data, with its ordinals.
pub open spec fn written_listing(es: Seq<WriteEntry>) -> FilesInfoView {
    FilesInfoView {
        empty_stream_ordinals: crate::files_info::spec_ordinals(written_view(es).empty_streams, es.len()),
        ..written_view(es)
    }
}

proof fn lemma_meta_value(es: Seq<WriteEntry>, field: nat, i: int)
    requires
        0 <= i < es.len(),
    ensures
        entry_value(values_or_empty(meta_values(es, field)), i as nat) == meta_nat(meta_raw(es[i].meta, field)),
{
    let vs = meta_values(es, field);
    if !any_defined(vs) {
        assert(!(vs[i] is Some));
    }
}

proof fn lemma_written_entry(es: Seq<WriteEntry>, i: int)
    requires
        files_info_fits(es),
        0 <= i < es.len(),
    ensures
        entry_listed(written_listing(es), es[i], i as nat),
{
    let v = written_listing(es);
    lemma_meta_value(es, 0, i);
    lemma_meta_value(es, 1, i);
    lemma_meta_value(es, 2, i);
    lemma_meta_value(es, 3, i);
    lemma_meta_value(es, 4, i);
    let fl = empty_flags(es);
    let kinds = streamless_kinds(es);
    let kf = kind_flags(kinds, EntryKind::File);
    let ka = kind_flags(kinds, EntryKind::Anti);
    lemma_names_read_back(es, v, i);
    lemma_flag_bitmap(fl, i as nat);
    assert(fl[i] == !es[i].has_stream);
    if !es[i].has_stream {
        lemma_count_streamless(es, i);
        lemma_streamless_kind_at(es, i);
        let o = streamless_before(es, i);
        assert(spec_ordinal(v, i as nat) == Some(o));
        lemma_flag_bitmap(kf, o);
        lemma_flag_bitmap(ka, o);
        assert(kf[o as int] == (es[i].kind == EntryKind::File));
        assert(ka[o as int] == (es[i].kind == EntryKind::Anti));
    } else {
        assert(spec_ordinal(v, i as nat) == None::<nat>);
    }
}

proof fn lemma_written_lists(es: Seq<WriteEntry>)
    requires
        files_info_fits(es),
    ensures
        lists_entries(written_listing(es), es),
{
    let v = written_listing(es);
    assert(es.len() <= u64::MAX);
    assert(v.num_files == es.len() as u64);
    assert forall|i: int| 0 <= i < es.len() implies #[trigger] entry_listed(v, es[i], i as nat) by {
        lemma_written_entry(es, i);
    }
}

/// The `FilesInfo` block the writer writes for `es` reads back: the walk
/// over it uses exactly its bytes and finds the entry count, and its parse
/// lists the entries (see [`lists_entries`]).
pub proof fn lemma_files_info_reads_back(es: Seq<WriteEntry>, more: Seq<u8>)
    requires
        files_info_fits(es),
    ensures
        spec_scan_files_info(spec_files_info_bytes(es) + more) == Some(
            (spec_files_info_bytes(es).len(), es.len() as u64),
        ),
        spec_parse_files_info(spec_files_info_bytes(es) + more) matches Some((_, v)) && lists_entries(v, es),
{
    let n = es.len();
    let vn = spec_varint_encode(n as u64);
    let tail = written_tail(es) + more;
    lemma_written_bytes(es);
    lemma_written_tail(es, more);
    lemma_written_lists(es);
    let s = spec_files_info_bytes(es) + more;
    assert(s[0] == 0x05u8);
    lemma_varint_roundtrip(n as u64, tail);
    assert(s.skip(1) =~= vn + tail);
    assert(s.skip(1 + vn.len() as int) =~= tail);
}

/// The plain header the writer writes for entries without data parses: no
/// streams block, and a file listing that lists the entries.
pub proof fn lemma_dataless_header_reads_back(es: Seq<WriteEntry>)
    requires
        dataless_entries(es),
    ensures
        spec_parse_header(spec_header_bytes(es, Seq::<CompletedFolder>::empty())) matches Some((_, hv)) && (hv.num_files
            == es.len() && spec_header_streams(hv) is None && (spec_header_files(hv) matches Some(v) && lists_entries(
            v,
            es,
        ))),
{
    let h = spec_header_bytes(es, Seq::<CompletedFolder>::empty());
    let fib = spec_files_info_bytes(es);
    assert(h =~= seq![0x01u8] + fib + seq![0x00u8]);
    lemma_files_info_reads_back(es, seq![0x00u8]);
    lemma_written_bytes(es);
    assert(h.skip(1) =~= fib + seq![0x00u8]);
    assert(h.skip(1)[0] == 0x05u8);
    assert(h.skip((1 + fib.len()) as int) =~= seq![0x00u8]);
    assert(spec_header_tail(h, 1 + fib.len(), None, Some(1), es.len() as u64) == Some(
        ((2 + fib.len()) as nat, None::<nat>, Some(1nat), es.len() as u64),
    ));
    assert(spec_header_tail(h, 1, None, None, 0) == Some(
        ((2 + fib.len()) as nat, None::<nat>, Some(1nat), es.len() as u64),
    ));
}

/// What the writer writes for entries without data, with a plain header,
/// reads back: the archive opens at offset 0 on that header (when it is
/// within `max` bytes), which lists the entries (see [`lists_entries`]);
/// extracting an empty file gives no bytes, and a directory or an anti-item
/// is refused as a directory.
pub proof fn lemma_dataless_archive_reads_back(
    a: Seq<u8>,
    es: Seq<WriteEntry>,
    o: ArchiveOptions,
    password: Option<Seq<char>>,
    max: u64,
)
    requires
        built_archive(a, es, o),
        !spec_should_encode(o, es.len()),
        dataless_entries(es),
        spec_header_bytes(es, Seq::<CompletedFolder>::empty()).len() <= max,
        a.len() <= u64::MAX,
    ensures
        ({
            let h = spec_header_bytes(es, Seq::<CompletedFolder>::empty());
            &&& a == spec_signature_bytes(0, h) + h
            &&& spec_open(a, password, max) == OpenOutcome::Located(0, h)
            &&& spec_parse_header(h) matches Some((_, hv)) && (hv.num_files == es.len() && (spec_header_files(hv) matches Some(
                v,
            ) && lists_entries(v, es)) && forall|i: int|
                0 <= i < es.len() ==> #[trigger] spec_extract(a, 0, hv, i as nat, password) == (if es[i].kind
                    == EntryKind::File {
                    DecodeResult::Data(Seq::empty())
                } else {
                    DecodeResult::Failure(R7zError::Directory)
                }))
        }),
{
    lemma_dataless_layout(a, es, o);
    crate::write::encode::lemma_signature_len(0, spec_header_bytes(es, Seq::<CompletedFolder>::empty()));
    lemma_dataless_opens(es, password, max);
    lemma_dataless_header_reads_back(es);
    lemma_dataless_extracts(a, es, password);
}

proof fn lemma_dataless_opens(es: Seq<WriteEntry>, password: Option<Seq<char>>, max: u64)
    requires
        dataless_entries(es),
        spec_header_bytes(es, Seq::<CompletedFolder>::empty()).len() <= max,
        32 + spec_header_bytes(es, Seq::<CompletedFolder>::empty()).len() <= u64::MAX,
    ensures
        spec_open(
            spec_signature_bytes(0, spec_header_bytes(es, Seq::<CompletedFolder>::empty())) + spec_header_bytes(
                es,
                Seq::<CompletedFolder>::empty(),
            ),
            password,
            max,
        ) == OpenOutcome::Located(0, spec_header_bytes(es, Seq::<CompletedFolder>::empty())),
{
    let h = spec_header_bytes(es, Seq::<CompletedFolder>::empty());
    assert(h[0] == 0x01u8);
    lemma_plain_archive_opens(Seq::<u8>::empty(), h, password, max);
    assert(spec_signature_bytes(0, h) + Seq::<u8>::empty() + h =~= spec_signature_bytes(0, h) + h);
}

proof fn lemma_dataless_extracts(a: Seq<u8>, es: Seq<WriteEntry>, password: Option<Seq<char>>)
    requires
        dataless_entries(es),
    ensures
        spec_parse_header(spec_header_bytes(es, Seq::<CompletedFolder>::empty())) matches Some((_, hv)) && forall|i: int|
            0 <= i < es.len() ==> #[trigger] spec_extract(a, 0, hv, i as nat, password) == (if es[i].kind
                == EntryKind::File {
                DecodeResult::Data(Seq::empty())
            } else {
                DecodeResult::Failure(R7zError::Directory)
            }),
{
    let h = spec_header_bytes(es, Seq::<CompletedFolder>::empty());
    lemma_dataless_header_reads_back(es);
    let hv = spec_parse_header(h)->Some_0.1;
    assert forall|i: int| 0 <= i < es.len() implies #[trigger] spec_extract(a, 0, hv, i as nat, password) == (if es[i].kind
        == EntryKind::File {
        DecodeResult::Data(Seq::empty())
    } else {
        DecodeResult::Failure(R7zError::Directory)
    }) by {
        assert(!es[i].has_stream);
        lemma_dataless_extract(a, es, hv, password, i);
    }
}

proof fn lemma_dataless_layout(a: Seq<u8>, es: Seq<WriteEntry>, o: ArchiveOptions)
    requires
        built_archive(a, es, o),
        !spec_should_encode(o, es.len()),
        dataless_entries(es),
    ensures
        a == spec_signature_bytes(0, spec_header_bytes(es, Seq::<CompletedFolder>::empty())) + spec_header_bytes(
            es,
            Seq::<CompletedFolder>::empty(),
        ),
{
    let h = spec_header_bytes(es, Seq::<CompletedFolder>::empty());
    let (ids, ms, ps) = choose|ids: Seq<usize>, ms: Seq<CompletedFolder>, ps: Seq<Vec<u8>>|
        #[trigger] archive_layout(a, es, o, ids, ms, ps);
    assert(ids.len() == 0) by {
        if ids.len() > 0 {
            assert(is_stream_folder(es, ids[0]));
        }
    }
    assert(ms =~= Seq::<CompletedFolder>::empty());
    assert(ps =~= Seq::<Vec<u8>>::empty());
    assert(concat_streams(ps) =~= Seq::<u8>::empty());
    lemma_written_bytes(es);
    assert(a == spec_signature_bytes(0, h) + Seq::<u8>::empty() + h);
    assert(a =~= spec_signature_bytes(0, h) + h);
}

#[verifier::rlimit(80)]
proof fn lemma_dataless_extract(a: Seq<u8>, es: Seq<WriteEntry>, hv: HeaderView, password: Option<Seq<char>>, i: int)
    requires
        0 <= i < es.len(),
        !es[i].has_stream,
        hv.num_files == es.len(),
        es.len() <= usize::MAX,
        spec_header_files(hv) matches Some(v) && lists_entries(v, es),
    ensures
        spec_extract(a, 0, hv, i as nat, password) == (if es[i].kind == EntryKind::File {
            DecodeResult::Data(Seq::empty())
        } else {
            DecodeResult::Failure(R7zError::Directory)
        }),
{
    let v = spec_header_files(hv)->Some_0;
    assert(entry_listed(v, es[i], i as nat));
}

/// The values of the first `j` entries are stored at the start of the
/// values of all of them.
proof fn lemma_defined_data_prefix(vs: Seq<Option<nat>>, width: nat, j: int)
    requires
        0 <= j <= vs.len(),
    ensures
        defined_data(vs.take(j), width).len() <= defined_data(vs, width).len(),
        defined_data(vs, width).subrange(0, defined_data(vs.take(j), width).len() as int) == defined_data(
            vs.take(j),
            width,
        ),
    decreases vs.len(),
{
    if j == vs.len() {
        assert(vs.take(j) =~= vs);
        assert(defined_data(vs, width).subrange(0, defined_data(vs, width).len() as int) =~= defined_data(vs, width));
    } else {
        let p = vs.drop_last();
        lemma_defined_data_prefix(p, width, j);
        assert(p.take(j) =~= vs.take(j));
        let l = defined_data(vs.take(j), width).len();
        let a = defined_data(p, width);
        let b = defined_data(vs, width);
        assert(b.subrange(0, l as int) =~= a.subrange(0, l as int));
    }
}

proof fn lemma_defined_data_step(vs: Seq<Option<nat>>, width: nat, j: int)
    requires
        0 <= j < vs.len(),
    ensures
        defined_data(vs.take(j + 1), width) == defined_data(vs.take(j), width) + match vs[j] {
            Some(v) => le_bytes(v, width),
            None => Seq::empty(),
        },
{
    assert(vs.take(j + 1).drop_last() =~= vs.take(j));
    assert(vs.take(j + 1).last() == vs[j]);
}

/// The reader takes back the values the writer stored: `data` starts with
/// the stored values of `vs`, and the flags (all, or the bitmap) say which
/// are given.
proof fn lemma_defined_values_read(
    vs: Seq<Option<nat>>,
    width: nat,
    all: bool,
    bitmap: Seq<u8>,
    data: Seq<u8>,
    k: nat,
)
    requires
        k <= vs.len(),
        forall|i: nat| i < vs.len() ==> #[trigger] spec_entry_defined(all, bitmap, false, i) == (vs[i as int] is Some),
        forall|i: int| 0 <= i < vs.len() ==> (#[trigger] vs[i] matches Some(v) ==> v < pow256(width)),
        defined_data(vs, width).len() <= data.len(),
        data.subrange(0, defined_data(vs, width).len() as int) == defined_data(vs, width),
    ensures
        spec_defined_values(data, all, bitmap, false, k, width) == Some(
            (defined_data(vs.take(k as int), width).len(), vs.take(k as int)),
        ),
    decreases k,
{
    if k == 0 {
        assert(vs.take(0) =~= Seq::<Option<nat>>::empty());
    } else {
        let j = (k - 1) as int;
        lemma_defined_values_read(vs, width, all, bitmap, data, (k - 1) as nat);
        lemma_defined_data_step(vs, width, j);
        lemma_defined_data_prefix(vs, width, j + 1);
        let c = defined_data(vs.take(j), width).len();
        assert(vs.take(j + 1) =~= vs.take(j).push(vs[j]));
        assert(spec_entry_defined(all, bitmap, false, j as nat) == (vs[j] is Some));
        match vs[j] {
            Some(v) => {
                crate::parsers::lemma_le_bytes_len(v, width);
                assert(data.subrange(c as int, (c + width) as int) =~= le_bytes(v, width)) by {
                    assert forall|t: int| 0 <= t < width implies #[trigger] data.subrange(c as int, (c + width) as int)[t]
                        == le_bytes(v, width)[t] by {
                        assert(data[c + t] == defined_data(vs, width)[c + t]);
                        assert(defined_data(vs, width)[c + t] == defined_data(vs.take(j + 1), width)[c + t]);
                    }
                }
                crate::parsers::lemma_le_value_le_bytes(v, width);
                assert(v < pow256(width));
                vstd::arithmetic::div_mod::lemma_small_mod(v, pow256(width));
            },
            None => {},
        }
    }
}

/// The property of a per-entry value block's tag: the three times, the
/// start positions, the attributes.
pub open spec fn values_tag_ok(tag: u8, width: nat) -> bool {
    ((tag == 0x12 || tag == 0x13 || tag == 0x14 || tag == 0x18) && width == 8) || (tag == 0x15 && width == 4)
}

/// The listing `st` with the values `vs` of the property `tag`.
pub open spec fn with_values(st: FilesInfoView, tag: u8, vs: Seq<Option<nat>>) -> FilesInfoView {
    if tag == 0x12 {
        FilesInfoView { ctimes: vs, ..st }
    } else if tag == 0x13 {
        FilesInfoView { atimes: vs, ..st }
    } else if tag == 0x14 {
        FilesInfoView { mtimes: vs, ..st }
    } else if tag == 0x18 {
        FilesInfoView { start_positions: vs, ..st }
    } else {
        FilesInfoView { attributes: vs, ..st }
    }
}

#[verifier::rlimit(60)]
proof fn lemma_values_block_reads(tag: u8, vs: Seq<Option<nat>>, width: nat, rest: Seq<u8>, n: nat, st: FilesInfoView)
    requires
        values_tag_ok(tag, width),
        vs.len() == n,
        n <= u64::MAX,
        forall|i: int| 0 <= i < vs.len() ==> (#[trigger] vs[i] matches Some(v) ==> v < pow256(width)),
        defined_data(vs, width).len() + bitmap_bytes(n) + 2 <= u64::MAX,
    ensures
        spec_scan_files_tail(spec_values_block(tag, vs, width) + rest) == add_opt(
            spec_values_block(tag, vs, width).len(),
            spec_scan_files_tail(rest),
        ),
        tail_view(spec_values_block(tag, vs, width) + rest, n, st) == (if any_defined(vs) {
            tail_view(rest, n, with_values(st, tag, vs))
        } else {
            tail_view(rest, n, st)
        }),
{
    reveal(spec_values_block);
    if any_defined(vs) {
        let all = all_defined(vs);
        let flags = defined_flags(vs);
        lemma_bitmap_exists(flags);
        let bm = if all { Seq::<u8>::empty() } else { bitmap_of(flags) };
        let data = defined_data(vs, width);
        let b = seq![if all { 1u8 } else { 0u8 }] + bm + seq![0u8] + data;
        assert(spec_values_block(tag, vs, width) =~= property_block(tag, b));
        lemma_scan_block(tag, b, rest);
        lemma_files_tail_block(tag, b, rest, n, st);
        assert(vs.take(n as int) =~= vs);
        if all {
            assert(b.skip(2) =~= data);
            assert forall|i: nat| i < vs.len() implies #[trigger] spec_entry_defined(true, Seq::<u8>::empty(), false, i)
                == (vs[i as int] is Some) by {}
            assert(data.subrange(0, data.len() as int) =~= data);
            lemma_defined_values_read(vs, width, true, Seq::<u8>::empty(), b.skip(2), n);
            assert(crate::files_info::spec_defined_property(b, n, width) == Some(vs));
        } else {
            let nb = bitmap_bytes(n);
            assert(bm.len() == nb);
            assert(b.subrange(1, 1 + nb as int) =~= bm);
            assert(b.skip((2 + nb) as int) =~= data);
            assert forall|i: nat| i < vs.len() implies #[trigger] spec_entry_defined(false, bm, false, i) == (
            vs[i as int] is Some) by {
                assert(i < 8 * bm.len()) by (nonlinear_arith)
                    requires
                        bm.len() == (n + 7) / 8,
                        i < n,
                ;
                assert(flags[i as int] == (vs[i as int] is Some));
            }
            assert(data.subrange(0, data.len() as int) =~= data);
            lemma_defined_values_read(vs, width, false, bm, b.skip((2 + nb) as int), n);
            assert(crate::files_info::spec_defined_property(b, n, width) == Some(vs));
        }
    } else {
        assert(spec_values_block(tag, vs, width) + rest =~= rest);
    }
}

/// How many of the first `i` entries of `es` have no data stream.
pub open spec fn streamless_before(es: Seq<WriteEntry>, i: int) -> nat
    decreases i,
{
    if i <= 0 {
        0
    } else {
        streamless_before(es, i - 1) + if !es[i - 1].has_stream {
            1nat
        } else {
            0nat
        }
    }
}

proof fn lemma_streamless_before_prefix(es: Seq<WriteEntry>, i: int)
    requires
        0 <= i < es.len(),
    ensures
        streamless_before(es.drop_last(), i) == streamless_before(es, i),
    decreases i,
{
    if i > 0 {
        lemma_streamless_before_prefix(es, i - 1);
        assert(es.drop_last()[i - 1] == es[i - 1]);
    }
}

proof fn lemma_streamless_kinds_len(es: Seq<WriteEntry>)
    ensures
        streamless_kinds(es).len() == streamless_before(es, es.len() as int),
    decreases es.len(),
{
    if es.len() > 0 {
        let p = es.drop_last();
        lemma_streamless_kinds_len(p);
        lemma_streamless_before_prefix(es, (es.len() - 1) as int);
    }
}

/// The kind of an entry without a data stream sits at its ordinal among
/// such entries.
proof fn lemma_streamless_kind_at(es: Seq<WriteEntry>, i: int)
    requires
        0 <= i < es.len(),
        !es[i].has_stream,
    ensures
        streamless_before(es, i) < streamless_kinds(es).len(),
        streamless_kinds(es)[streamless_before(es, i) as int] == es[i].kind,
    decreases es.len(),
{
    let p = es.drop_last();
    lemma_streamless_kinds_len(p);
    lemma_streamless_before_prefix(es, i);
    if i < es.len() - 1 {
        assert(p[i] == es[i]);
        lemma_streamless_kind_at(p, i);
    } else {
        lemma_streamless_before_prefix(es, (es.len() - 1) as int);
    }
}

proof fn lemma_no_streamless(es: Seq<WriteEntry>, i: int)
    requires
        0 <= i <= es.len(),
        !any_true(empty_flags(es)),
    ensures
        streamless_before(es, i) == 0,
    decreases i,
{
    if i > 0 {
        lemma_no_streamless(es, i - 1);
        assert(!empty_flags(es)[i - 1]);
    }
}

/// The ordinal of entry `i` in the written empty-stream bitmap is the
/// number of entries before it without a data stream.
proof fn lemma_count_streamless(es: Seq<WriteEntry>, i: int)
    requires
        0 <= i <= es.len(),
    ensures
        spec_count_set(bitmap_or_empty(empty_flags(es)), i as nat) == streamless_before(es, i),
    decreases i,
{
    if i > 0 {
        lemma_count_streamless(es, i - 1);
        lemma_flag_bitmap(empty_flags(es), (i - 1) as nat);
    }
}

} // verus!
