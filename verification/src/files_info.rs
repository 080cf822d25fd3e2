//! The file listing of a header: names, timestamps, attributes and the
//! empty-stream / empty-file / anti-item bitmaps.
use crate::error::ParseError;
use crate::pack_info::{spec_sized_block, take_block};
use crate::parsers::{
    bitmap_bytes, bitmap_is_set, lemma_count_set_bound, lemma_skip_skip, lemma_varint_decode_fits,
    opt_u32_view, opt_u64_view, parse_defined_u32_values, parse_defined_u64_values,
    sevenzip_varuint64_decode, spec_bitmap_is_set, spec_count_set, spec_defined_values,
    spec_varint_decode, varint_parser,
};
use crate::property::{spec_parse_property, Property};
use vstd::prelude::*;
use vstd::slice::{slice_subrange, slice_to_vec};

verus! {

/// The mathematical model of a [`FilesInfo`].
#[verifier::ext_equal]
pub struct FilesInfoView {
    pub num_files: u64,
    pub name_data: Seq<u8>,
    pub ctimes: Seq<Option<nat>>,
    pub atimes: Seq<Option<nat>>,
    pub mtimes: Seq<Option<nat>>,
    pub start_positions: Seq<Option<nat>>,
    pub attributes: Seq<Option<nat>>,
    pub empty_streams: Seq<u8>,
    pub empty_files: Seq<u8>,
    pub anti_items: Seq<u8>,
    pub empty_stream_ordinals: Seq<Option<nat>>,
}

/// Model of a list of optional ordinals.
pub open spec fn ordinals_view(xs: Seq<Option<usize>>) -> Seq<Option<nat>> {
    Seq::new(
        xs.len(),
        |i: int|
            match xs[i] {
                Some(x) => Some(x as nat),
                None => None,
            },
    )
}

/// A per-entry property block (times, start positions, attributes): an
/// `AllAreDefined` byte, a bitmap of `n` bits when it is zero, one external
/// byte, then `width` little-endian bytes per defined entry.
pub open spec fn spec_defined_property(block: Seq<u8>, n: nat, width: nat) -> Option<
    Seq<Option<nat>>,
> {
    if block.len() == 0 {
        None
    } else if block[0] != 0 {
        if block.len() < 2 {
            None
        } else {
            match spec_defined_values(block.skip(2), true, Seq::empty(), false, n, width) {
                None => None,
                Some((_, vs)) => Some(vs),
            }
        }
    } else {
        let nb = bitmap_bytes(n);
        if block.len() < 2 + nb {
            None
        } else {
            match spec_defined_values(
                block.skip((2 + nb) as int),
                false,
                block.subrange(1, 1 + nb as int),
                false,
                n,
                width,
            ) {
                None => None,
                Some((_, vs)) => Some(vs),
            }
        }
    }
}

/// The effect of one size-prefixed property block with tag `tag` on the
/// file listing gathered so far (`n` entries).
pub open spec fn spec_apply_property(st: FilesInfoView, tag: Property, block: Seq<u8>, n: nat) -> Option<
    FilesInfoView,
> {
    match tag {
        Property::Name => if block.len() == 0 {
            None
        } else {
            Some(FilesInfoView { name_data: block.skip(1), ..st })
        },
        Property::CTime => match spec_defined_property(block, n, 8) {
            None => None,
            Some(vs) => Some(FilesInfoView { ctimes: vs, ..st }),
        },
        Property::ATime => match spec_defined_property(block, n, 8) {
            None => None,
            Some(vs) => Some(FilesInfoView { atimes: vs, ..st }),
        },
        Property::MTime => match spec_defined_property(block, n, 8) {
            None => None,
            Some(vs) => Some(FilesInfoView { mtimes: vs, ..st }),
        },
        Property::StartPos => match spec_defined_property(block, n, 8) {
            None => None,
            Some(vs) => Some(FilesInfoView { start_positions: vs, ..st }),
        },
        Property::Attributes => match spec_defined_property(block, n, 4) {
            None => None,
            Some(vs) => Some(FilesInfoView { attributes: vs, ..st }),
        },
        Property::EmptyStream => Some(FilesInfoView { empty_streams: block, ..st }),
        Property::EmptyFile => Some(FilesInfoView { empty_files: block, ..st }),
        Property::Anti => Some(FilesInfoView { anti_items: block, ..st }),
        _ => Some(st),
    }
}

/// The property list of a `FilesInfo` block: every property but `END` is a
/// size-prefixed block, applied in order; `END` stops.
pub open spec fn spec_files_tail(t: Seq<u8>, n: nat, st: FilesInfoView) -> Option<(nat, FilesInfoView)>
    decreases t.len(),
{
    match spec_parse_property(t) {
        None => None,
        Some(Property::END) => Some((1, st)),
        Some(tag) => match spec_sized_block(t.skip(1)) {
            None => None,
            Some((c, b)) => if 1 + c <= t.len() {
                match spec_apply_property(st, tag, b, n) {
                    None => None,
                    Some(st2) => match spec_files_tail(t.skip((1 + c) as int), n, st2) {
                        None => None,
                        Some((c2, v)) => Some((1 + c + c2, v)),
                    },
                }
            } else {
                None
            },
        },
    }
}

/// For each of the first `n` entries that has no data stream, its position
/// among such entries.
pub open spec fn spec_ordinals(empty_streams: Seq<u8>, n: nat) -> Seq<Option<nat>> {
    Seq::new(
        n,
        |i: int|
            if spec_bitmap_is_set(empty_streams, i as nat) {
                Some(spec_count_set(empty_streams, i as nat))
            } else {
                None
            },
    )
}

/// An empty listing of `n` entries.
pub open spec fn empty_listing(n: u64) -> FilesInfoView {
    FilesInfoView {
        num_files: n,
        name_data: Seq::empty(),
        ctimes: Seq::empty(),
        atimes: Seq::empty(),
        mtimes: Seq::empty(),
        start_positions: Seq::empty(),
        attributes: Seq::empty(),
        empty_streams: Seq::empty(),
        empty_files: Seq::empty(),
        anti_items: Seq::empty(),
        empty_stream_ordinals: Seq::empty(),
    }
}

/// Parse of a `FilesInfo` block at the start of `s`: its tag, the entry
/// count (which must fit in `usize`), then the property list.
pub open spec fn spec_parse_files_info(s: Seq<u8>) -> Option<(nat, FilesInfoView)> {
    if spec_parse_property(s) != Some(Property::FilesInfo) {
        None
    } else {
        match varint_parser()(s.skip(1)) {
            None => None,
            Some((c1, nf)) => if nf > usize::MAX {
                None
            } else {
                match spec_files_tail(s.skip(1 + c1 as int), nf as nat, empty_listing(nf)) {
                    None => None,
                    Some((c2, v)) => Some(
                        (
                            1 + c1 + c2,
                            FilesInfoView {
                                empty_stream_ordinals: spec_ordinals(v.empty_streams, nf as nat),
                                ..v
                            },
                        ),
                    ),
                }
            },
        }
    }
}

/// Walk of a `FilesInfo` block: every property but `END` is skipped by its size.
pub open spec fn spec_scan_files_tail(t: Seq<u8>) -> Option<nat>
    decreases t.len(),
{
    match spec_parse_property(t) {
        None => None,
        Some(Property::END) => Some(1),
        Some(_) => match spec_sized_block(t.skip(1)) {
            None => None,
            Some((c, _)) => if 1 + c <= t.len() {
                match spec_scan_files_tail(t.skip((1 + c) as int)) {
                    None => None,
                    Some(c2) => Some(1 + c + c2),
                }
            } else {
                None
            },
        },
    }
}

/// Walk of a `FilesInfo` block at the start of `s`: bytes used and entry count.
pub open spec fn spec_scan_files_info(s: Seq<u8>) -> Option<(nat, u64)> {
    if spec_parse_property(s) != Some(Property::FilesInfo) {
        None
    } else {
        match varint_parser()(s.skip(1)) {
            None => None,
            Some((c1, nf)) => match spec_scan_files_tail(s.skip(1 + c1 as int)) {
                None => None,
                Some(c2) => Some((1 + c1 + c2, nf)),
            },
        }
    }
}

/// The kind of an entry of the listing.
#[derive(Clone, Copy, Debug, PartialEq, Eq, Structural)]
pub enum EntryType {
    File,
    Directory,
    EmptyFile,
    Anti,
    Symlink,
}

/// Where the name of entry `i` lies in `d`, searching from entry `idx` at
/// byte `pos`: names are UTF-16LE code units, each ended by a zero unit (or
/// by the end of the data, in which case the last unit is dropped).
pub open spec fn entry_end(d: Seq<u8>, pos: nat) -> nat
    decreases d.len() - pos,
{
    if pos + 1 >= d.len() {
        pos
    } else if d[pos as int] == 0 && d[(pos + 1) as int] == 0 {
        pos + 2
    } else {
        entry_end(d, pos + 2)
    }
}

/// Bounds of an entry that starts before the last byte.
pub proof fn lemma_entry_end(d: Seq<u8>, pos: nat)
    requires
        pos + 1 < d.len(),
    ensures
        pos + 2 <= entry_end(d, pos) <= d.len(),
    decreases d.len() - pos,
{
    if !(d[pos as int] == 0 && d[(pos + 1) as int] == 0) {
        if pos + 3 < d.len() {
            lemma_entry_end(d, pos + 2);
        } else {
            assert(entry_end(d, pos + 2) == pos + 2);
        }
    }
}

/// The byte range `(start, end)` of the name of entry `i`, searching from
/// entry `idx` that starts at `pos`.
pub open spec fn spec_name_range(d: Seq<u8>, pos: nat, idx: nat, i: nat) -> Option<(nat, nat)>
    decreases d.len() - pos,
{
    if pos + 1 >= d.len() {
        None
    } else {
        let e = entry_end(d, pos);
        if e < pos + 2 || e > d.len() {
            None
        } else if idx == i {
            Some((pos, (e - 2) as nat))
        } else {
            spec_name_range(d, e, idx + 1, i)
        }
    }
}

/// Little-endian 16-bit code units of `b` (a trailing odd byte is ignored).
pub open spec fn spec_units(b: Seq<u8>) -> Seq<u16> {
    Seq::new(b.len() / 2, |k: int| (b[2 * k] as int + 256 * b[2 * k + 1] as int) as u16)
}

/// UTF-16 decoding in which each unpaired surrogate becomes U+FFFD.
pub open spec fn spec_utf16_lossy(u: Seq<u16>) -> Seq<char>
    decreases u.len(),
{
    if u.len() == 0 {
        Seq::empty()
    } else if u[0] < 0xD800 || u[0] > 0xDFFF {
        seq![u[0] as char] + spec_utf16_lossy(u.skip(1))
    } else if u[0] <= 0xDBFF && u.len() >= 2 && 0xDC00 <= u[1] <= 0xDFFF {
        seq![(0x10000 + (u[0] - 0xD800) * 0x400 + (u[1] - 0xDC00)) as char] + spec_utf16_lossy(
            u.skip(2),
        )
    } else {
        seq!['\u{FFFD}'] + spec_utf16_lossy(u.skip(1))
    }
}

/// Decode UTF-16 code units, replacing unpaired surrogates.
///
/// Calls `String::from_utf16_lossy`, whose documentation promises a decode
/// of the units in which invalid data becomes U+FFFD; the contract states
/// that decode.
#[verifier::external_body]
fn decode_utf16_lossy(units: &[u16]) -> (s: String)
    ensures
        s@ == spec_utf16_lossy(units@),
{
    String::from_utf16_lossy(units)
}

/// The name of entry `i`, decoded.
pub open spec fn spec_name(v: FilesInfoView, i: nat) -> Option<Seq<char>> {
    match spec_name_range(v.name_data, 0, 0, i) {
        None => None,
        Some((s, e)) => Some(spec_utf16_lossy(spec_units(v.name_data.subrange(s as int, e as int)))),
    }
}

/// The property list leaves the entry count as it found it.
proof fn lemma_files_tail_count(t: Seq<u8>, n: nat, st: FilesInfoView)
    ensures
        spec_files_tail(t, n, st) matches Some((_, v)) ==> v.num_files == st.num_files,
    decreases t.len(),
{
    match spec_parse_property(t) {
        None => {},
        Some(Property::END) => {},
        Some(tag) => match spec_sized_block(t.skip(1)) {
            None => {},
            Some((c, b)) => if 1 + c <= t.len() {
                match spec_apply_property(st, tag, b, n) {
                    None => {},
                    Some(st2) => {
                        lemma_files_tail_count(t.skip((1 + c) as int), n, st2);
                    },
                }
            },
        },
    }
}

/// In a parsed listing, the ordinal of entry `i` among the entries without
/// a data stream is the number of empty-stream bits set before bit `i`.
pub proof fn lemma_parsed_ordinal(s: Seq<u8>, i: nat)
    ensures
        spec_parse_files_info(s) matches Some((_, v)) ==> (i < v.num_files ==> spec_ordinal(v, i) == (if spec_bitmap_is_set(
            v.empty_streams,
            i,
        ) {
            Some(spec_count_set(v.empty_streams, i))
        } else {
            None::<nat>
        })),
{
    if spec_parse_property(s) == Some(Property::FilesInfo) {
        match varint_parser()(s.skip(1)) {
            None => {},
            Some((c1, nf)) => if nf <= usize::MAX {
                lemma_files_tail_count(s.skip(1 + c1 as int), nf as nat, empty_listing(nf));
            },
        }
    }
}

/// The names of the first `n` entries that have one, in order.
pub open spec fn spec_names(v: FilesInfoView, n: nat) -> Seq<Seq<char>>
    decreases n,
{
    if n == 0 {
        Seq::empty()
    } else {
        spec_names(v, (n - 1) as nat) + match spec_name(v, (n - 1) as nat) {
            Some(s) => seq![s],
            None => Seq::empty(),
        }
    }
}

/// Ordinal of entry `i` among entries with no data stream.
pub open spec fn spec_ordinal(v: FilesInfoView, i: nat) -> Option<nat> {
    if i < v.empty_stream_ordinals.len() {
        v.empty_stream_ordinals[i as int]
    } else {
        None
    }
}

pub open spec fn spec_is_empty_stream(v: FilesInfoView, i: nat) -> bool {
    spec_bitmap_is_set(v.empty_streams, i)
}

pub open spec fn spec_is_empty_file(v: FilesInfoView, i: nat) -> bool {
    match spec_ordinal(v, i) {
        Some(k) => spec_bitmap_is_set(v.empty_files, k),
        None => false,
    }
}

pub open spec fn spec_is_anti(v: FilesInfoView, i: nat) -> bool {
    match spec_ordinal(v, i) {
        Some(k) => spec_bitmap_is_set(v.anti_items, k),
        None => false,
    }
}

pub open spec fn spec_is_directory(v: FilesInfoView, i: nat) -> bool {
    spec_is_empty_stream(v, i) && !spec_is_empty_file(v, i) && !spec_is_anti(v, i)
}

/// The Unix file type held in the high half of the attributes is "symbolic link".
pub open spec fn spec_is_symlink(v: FilesInfoView, i: nat) -> bool {
    i < v.attributes.len() && match v.attributes[i as int] {
        Some(a) => ((a as u32 >> 16u32) & 0o170000u32) == 0o120000u32,
        None => false,
    }
}

pub open spec fn spec_entry_type(v: FilesInfoView, i: nat) -> EntryType {
    if spec_is_anti(v, i) {
        EntryType::Anti
    } else if spec_is_symlink(v, i) {
        EntryType::Symlink
    } else if spec_is_directory(v, i) {
        EntryType::Directory
    } else if spec_is_empty_file(v, i) {
        EntryType::EmptyFile
    } else {
        EntryType::File
    }
}

/// File listing metadata from the 7z `FilesInfo` block.
#[derive(Debug, PartialEq, Eq)]
pub struct FilesInfo {
    /// Total number of entries (files + directories).
    pub num_files: u64,
    /// Raw UTF-16LE null-terminated name block (empty = no Name property present).
    pub name_data: Vec<u8>,
    /// Creation timestamps as Windows FILETIME values (100ns intervals since 1601-01-01).
    pub ctimes: Vec<Option<u64>>,
    /// Last-access timestamps as Windows FILETIME values.
    pub atimes: Vec<Option<u64>>,
    /// Last-modified timestamps as Windows FILETIME values.
    pub mtimes: Vec<Option<u64>>,
    /// Per-entry start positions.
    pub start_positions: Vec<Option<u64>>,
    /// Windows file attributes per entry.
    pub attributes: Vec<Option<u32>>,
    /// Raw bitmap of empty-stream flags (empty = all false). Bit `i` = entry `i` has no data stream.
    pub empty_streams: Vec<u8>,
    /// Raw bitmap of empty-file flags, indexed by empty-stream ordinal.
    pub empty_files: Vec<u8>,
    /// Raw bitmap of anti-item flags, indexed by empty-stream ordinal.
    pub anti_items: Vec<u8>,
    /// Mapping from file index to ordinal within the empty-stream bitmap payloads.
    pub empty_stream_ordinals: Vec<Option<usize>>,
}

impl View for FilesInfo {
    type V = FilesInfoView;

    open spec fn view(&self) -> FilesInfoView {
        FilesInfoView {
            num_files: self.num_files,
            name_data: self.name_data@,
            ctimes: opt_u64_view(self.ctimes@),
            atimes: opt_u64_view(self.atimes@),
            mtimes: opt_u64_view(self.mtimes@),
            start_positions: opt_u64_view(self.start_positions@),
            attributes: opt_u32_view(self.attributes@),
            empty_streams: self.empty_streams@,
            empty_files: self.empty_files@,
            anti_items: self.anti_items@,
            empty_stream_ordinals: ordinals_view(self.empty_stream_ordinals@),
        }
    }
}

/// Split a per-entry property block into its flag, bitmap and value data.
fn defined_property_layout(block: &[u8], n: usize) -> (res: Result<(bool, &[u8], &[u8]), ParseError>)
    ensures
        block@.len() == 0 ==> res is Err,
        block@.len() > 0 && block@[0] != 0 ==> if block@.len() < 2 {
            res is Err
        } else {
            res matches Ok((all, bm, data)) && all && bm@ == Seq::<u8>::empty() && data@
                == block@.skip(2)
        },
        block@.len() > 0 && block@[0] == 0 ==> if block@.len() < 2 + bitmap_bytes(n as nat) {
            res is Err
        } else {
            res matches Ok((all, bm, data)) && !all && bm@ == block@.subrange(
                1,
                1 + bitmap_bytes(n as nat) as int,
            ) && data@ == block@.skip(2 + bitmap_bytes(n as nat) as int)
        },
{
    if block.len() == 0 {
        return Err(ParseError);
    }
    if block[0] != 0 {
        if block.len() < 2 {
            return Err(ParseError);
        }
        let empty = slice_subrange(block, 0, 0);
        let data = slice_subrange(block, 2, block.len());
        proof {
            assert(empty@ =~= Seq::<u8>::empty());
            assert(data@ =~= block@.skip(2));
        }
        return Ok((true, empty, data));
    }
    let nb = n / 8 + if n % 8 == 0 {
        0
    } else {
        1
    };
    if block.len() < 2 || block.len() - 2 < nb {
        return Err(ParseError);
    }
    let bm = slice_subrange(block, 1, 1 + nb);
    let data = slice_subrange(block, 2 + nb, block.len());
    proof {
        assert(nb == bitmap_bytes(n as nat));
        assert(data@ =~= block@.skip(2 + nb as int));
    }
    Ok((false, bm, data))
}

/// Parse a per-entry block of 64-bit values (times, start positions).
fn parse_defined_u64_property(block: &[u8], n: usize) -> (res: Result<Vec<Option<u64>>, ParseError>)
    ensures
        match spec_defined_property(block@, n as nat, 8) {
            None => res is Err,
            Some(vs) => res matches Ok(xs) && opt_u64_view(xs@) == vs,
        },
{
    let (all, bm, data) = defined_property_layout(block, n)?;
    let (_, values) = parse_defined_u64_values(data, all, bm, false, n)?;
    Ok(values)
}

/// Parse a per-entry block of 32-bit values (attributes).
fn parse_defined_u32_property(block: &[u8], n: usize) -> (res: Result<Vec<Option<u32>>, ParseError>)
    ensures
        match spec_defined_property(block@, n as nat, 4) {
            None => res is Err,
            Some(vs) => res matches Ok(xs) && opt_u32_view(xs@) == vs,
        },
{
    let (all, bm, data) = defined_property_layout(block, n)?;
    let (_, values) = parse_defined_u32_values(data, all, bm, false, n)?;
    Ok(values)
}

/// Record one property block in the listing being built.
fn apply_property(info: &mut FilesInfo, tag: Property, block: &[u8], n: usize) -> (res: Result<
    (),
    ParseError,
>)
    ensures
        match spec_apply_property(old(info)@, tag, block@, n as nat) {
            None => res is Err,
            Some(v) => res is Ok && final(info)@ == v,
        },
{
    match tag {
        Property::Name => {
            if block.len() == 0 {
                return Err(ParseError);
            }
            info.name_data = slice_to_vec(slice_subrange(block, 1, block.len()));
            proof {
                assert(info.name_data@ =~= block@.skip(1));
            }
        },
        Property::CTime => {
            info.ctimes = parse_defined_u64_property(block, n)?;
        },
        Property::ATime => {
            info.atimes = parse_defined_u64_property(block, n)?;
        },
        Property::MTime => {
            info.mtimes = parse_defined_u64_property(block, n)?;
        },
        Property::StartPos => {
            info.start_positions = parse_defined_u64_property(block, n)?;
        },
        Property::Attributes => {
            info.attributes = parse_defined_u32_property(block, n)?;
        },
        Property::EmptyStream => {
            info.empty_streams = slice_to_vec(block);
        },
        Property::EmptyFile => {
            info.empty_files = slice_to_vec(block);
        },
        Property::Anti => {
            info.anti_items = slice_to_vec(block);
        },
        _ => {},
    }
    Ok(())
}

proof fn lemma_ordinals_push(s: Seq<Option<usize>>, x: Option<usize>)
    ensures
        ordinals_view(s.push(x)) == ordinals_view(s).push(
            match x {
                Some(v) => Some(v as nat),
                None => None,
            },
        ),
{
    assert(ordinals_view(s.push(x)) =~= ordinals_view(s).push(
        match x {
            Some(v) => Some(v as nat),
            None => None,
        },
    ));
}

/// For each of the first `num_files` entries with no data stream, its
/// position among such entries.
pub fn empty_stream_ordinals(empty_streams: &[u8], num_files: usize) -> (r: Vec<Option<usize>>)
    ensures
        ordinals_view(r@) == spec_ordinals(empty_streams@, num_files as nat),
{
    let mut r: Vec<Option<usize>> = Vec::new();
    let mut next_empty: usize = 0;
    let mut i: usize = 0;
    while i < num_files
        invariant
            i <= num_files,
            next_empty == spec_count_set(empty_streams@, i as nat),
            ordinals_view(r@) == spec_ordinals(empty_streams@, i as nat),
        decreases num_files - i,
    {
        proof {
            lemma_count_set_bound(empty_streams@, i as nat);
        }
        let ghost prev = r@;
        let entry = if bitmap_is_set(empty_streams, i) {
            let o = Some(next_empty);
            next_empty = next_empty + 1;
            o
        } else {
            None
        };
        r.push(entry);
        proof {
            lemma_ordinals_push(prev, entry);
            assert(spec_ordinals(empty_streams@, i as nat).push(
                match entry {
                    Some(x) => Some(x as nat),
                    None => None,
                },
            ) =~= spec_ordinals(empty_streams@, (i + 1) as nat));
        }
        i = i + 1;
    }
    r
}

/// Position just past the name that starts at `start` (see [`entry_end`]).
fn find_entry_end(d: &[u8], start: usize) -> (e: usize)
    requires
        start + 1 < d@.len(),
    ensures
        e == entry_end(d@, start as nat),
{
    let mut pos = start;
    loop
        invariant
            pos <= d@.len(),
            entry_end(d@, start as nat) == entry_end(d@, pos as nat),
            pos + 1 < d@.len(),
        decreases d@.len() - pos,
    {
        let is_null = d[pos] == 0 && d[pos + 1] == 0;
        if is_null {
            return pos + 2;
        }
        if d.len() - pos <= 3 {
            proof {
                assert(entry_end(d@, (pos + 2) as nat) == pos + 2);
            }
            return pos + 2;
        }
        pos = pos + 2;
    }
}

/// Little-endian 16-bit code units of `b`.
fn utf16_units(b: &[u8]) -> (u: Vec<u16>)
    ensures
        u@ == spec_units(b@),
{
    let mut u: Vec<u16> = Vec::new();
    let mut k: usize = 0;
    while k < b.len() / 2
        invariant
            k <= b@.len() / 2,
            u@ == spec_units(b@).take(k as int),
        decreases b@.len() / 2 - k,
    {
        let lo = b[2 * k] as u16;
        let hi = b[2 * k + 1] as u16;
        let unit = lo + hi * 256;
        u.push(unit);
        proof {
            assert(spec_units(b@).take(k + 1) =~= spec_units(b@).take(k as int).push(unit));
        }
        k = k + 1;
    }
    proof {
        assert(spec_units(b@).take((b@.len() / 2) as int) =~= spec_units(b@));
    }
    u
}

impl FilesInfo {
    /// Decode the name of entry `i` on demand (UTF-16LE, null-terminated).
    pub fn name(&self, i: usize) -> (r: Option<String>)
        ensures
            match spec_name(self@, i as nat) {
                None => r is None,
                Some(s) => r matches Some(t) && t@ == s,
            },
    {
        let d = self.name_data.as_slice();
        let mut pos: usize = 0;
        let mut idx: usize = 0;
        while d.len() - pos > 1
            invariant
                pos <= d@.len(),
                idx <= i,
                d@ == self@.name_data,
                spec_name_range(d@, 0, 0, i as nat) == spec_name_range(d@, pos as nat, idx as nat, i as nat),
            decreases d@.len() - pos,
        {
            proof {
                lemma_entry_end(d@, pos as nat);
            }
            let e = find_entry_end(d, pos);
            if idx == i {
                let units = utf16_units(slice_subrange(d, pos, e - 2));
                return Some(decode_utf16_lossy(units.as_slice()));
            }
            pos = e;
            idx = idx + 1;
        }
        None
    }

    /// All decoded names, in archive order.
    pub fn names(&self) -> (r: Vec<String>)
        requires
            self.num_files <= usize::MAX,
        ensures
            r@.map_values(|s: String| s@) == spec_names(self@, self.num_files as nat),
    {
        let n = self.num_files as usize;
        let mut r: Vec<String> = Vec::new();
        let mut i: usize = 0;
        proof {
            assert(r@.map_values(|s: String| s@) =~= Seq::<Seq<char>>::empty());
        }
        while i < n
            invariant
                i <= n,
                n == self.num_files,
                r@.map_values(|s: String| s@) == spec_names(self@, i as nat),
            decreases n - i,
        {
            let ghost prev = r@;
            match self.name(i) {
                Some(s) => {
                    r.push(s);
                    proof {
                        assert(r@.map_values(|s: String| s@) =~= prev.map_values(|s: String| s@)
                            + seq![spec_name(self@, i as nat).unwrap()]);
                    }
                },
                None => {
                    proof {
                        assert(spec_names(self@, i as nat) + Seq::<Seq<char>>::empty() =~= spec_names(
                            self@,
                            i as nat,
                        ));
                    }
                },
            }
            i = i + 1;
        }
        r
    }

    /// Returns `true` if entry `i` has no data stream (directory or zero-byte file).
    pub fn is_empty_stream(&self, i: usize) -> (r: bool)
        ensures
            r == spec_is_empty_stream(self@, i as nat),
    {
        bitmap_is_set(self.empty_streams.as_slice(), i)
    }

    fn empty_stream_ordinal(&self, i: usize) -> (r: Option<usize>)
        ensures
            match r {
                Some(k) => spec_ordinal(self@, i as nat) == Some(k as nat),
                None => spec_ordinal(self@, i as nat) is None,
            },
    {
        if i < self.empty_stream_ordinals.len() {
            self.empty_stream_ordinals[i]
        } else {
            None
        }
    }

    /// Returns `true` if entry `i` is a genuine zero-byte file.
    pub fn is_empty_file(&self, i: usize) -> (r: bool)
        ensures
            r == spec_is_empty_file(self@, i as nat),
    {
        match self.empty_stream_ordinal(i) {
            Some(k) => bitmap_is_set(self.empty_files.as_slice(), k),
            None => false,
        }
    }

    /// Returns `true` if entry `i` is a directory.
    pub fn is_directory(&self, i: usize) -> (r: bool)
        ensures
            r == spec_is_directory(self@, i as nat),
    {
        self.is_empty_stream(i) && !self.is_empty_file(i) && !self.is_anti(i)
    }

    /// Returns `true` if entry `i` is an anti-item.
    pub fn is_anti(&self, i: usize) -> (r: bool)
        ensures
            r == spec_is_anti(self@, i as nat),
    {
        match self.empty_stream_ordinal(i) {
            Some(k) => bitmap_is_set(self.anti_items.as_slice(), k),
            None => false,
        }
    }

    /// Returns `true` if the attributes of entry `i` mark a symbolic link.
    pub fn is_symlink(&self, i: usize) -> (r: bool)
        ensures
            r == spec_is_symlink(self@, i as nat),
    {
        if i < self.attributes.len() {
            match self.attributes[i] {
                Some(attrs) => ((attrs >> 16) & 0o170000) == 0o120000,
                None => false,
            }
        } else {
            false
        }
    }

    /// The kind of entry `i`.
    pub fn entry_type(&self, i: usize) -> (r: EntryType)
        ensures
            r == spec_entry_type(self@, i as nat),
    {
        if self.is_anti(i) {
            EntryType::Anti
        } else if self.is_symlink(i) {
            EntryType::Symlink
        } else if self.is_directory(i) {
            EntryType::Directory
        } else if self.is_empty_file(i) {
            EntryType::EmptyFile
        } else {
            EntryType::File
        }
    }

    /// Parse a `FilesInfo` block from the header stream.
    #[verifier::rlimit(40)]
    pub fn parse(input: &[u8]) -> (res: Result<(&[u8], FilesInfo), ParseError>)
        ensures
            match spec_parse_files_info(input@) {
                None => res is Err,
                Some((c, v)) => res matches Ok((rem, fi)) && fi@ == v && rem@ == input@.skip(
                    c as int,
                ) && c <= input@.len(),
            },
    {
        let (r0, tag) = Property::parse(input)?;
        if tag != Property::FilesInfo {
            return Err(ParseError);
        }
        proof {
            lemma_varint_decode_fits(r0@);
        }
        let (r1, num_files) = sevenzip_varuint64_decode(r0)?;
        let ghost c1 = spec_varint_decode(r0@).unwrap().0;
        proof {
            lemma_skip_skip(input@, 1, c1);
        }
        if num_files > usize::MAX as u64 {
            return Err(ParseError);
        }
        let n = num_files as usize;
        let mut info = FilesInfo {
            num_files,
            name_data: Vec::new(),
            ctimes: Vec::new(),
            atimes: Vec::new(),
            mtimes: Vec::new(),
            start_positions: Vec::new(),
            attributes: Vec::new(),
            empty_streams: Vec::new(),
            empty_files: Vec::new(),
            anti_items: Vec::new(),
            empty_stream_ordinals: Vec::new(),
        };
        proof {
            assert(info@.ctimes =~= Seq::<Option<nat>>::empty());
            assert(info@.atimes =~= Seq::<Option<nat>>::empty());
            assert(info@.mtimes =~= Seq::<Option<nat>>::empty());
            assert(info@.start_positions =~= Seq::<Option<nat>>::empty());
            assert(info@.attributes =~= Seq::<Option<nat>>::empty());
            assert(info@.empty_stream_ordinals =~= Seq::<Option<nat>>::empty());
            assert(info@ =~= empty_listing(num_files));
        }
        let mut rem = r1;
        let ghost mut k: nat = 1 + c1;
        loop
            invariant
                k <= input@.len(),
                rem@ == input@.skip(k as int),
                n == num_files,
                info@.num_files == num_files,
                spec_parse_files_info(input@) == match spec_files_tail(rem@, n as nat, info@) {
                    None => None,
                    Some((c, v)) => Some(
                        (
                            k + c,
                            FilesInfoView {
                                empty_stream_ordinals: spec_ordinals(v.empty_streams, n as nat),
                                ..v
                            },
                        ),
                    ),
                },
            decreases rem@.len(),
        {
            let (r, tag) = Property::parse(rem)?;
            if tag == Property::END {
                proof {
                    lemma_skip_skip(input@, k, 1);
                }
                info.empty_stream_ordinals = empty_stream_ordinals(info.empty_streams.as_slice(), n);
                return Ok((r, info));
            }
            let (r2, block) = take_block(r)?;
            let ghost c = spec_sized_block(r@).unwrap().0;
            apply_property(&mut info, tag, block, n)?;
            proof {
                lemma_skip_skip(rem@, 1, c);
                lemma_skip_skip(input@, k, 1 + c);
                k = k + 1 + c;
            }
            rem = r2;
        }
    }
}

/// Walk a `FilesInfo` block without building the listing; gives `num_files`.
pub fn scan_files_info(input: &[u8]) -> (res: Result<(&[u8], u64), ParseError>)
    ensures
        match spec_scan_files_info(input@) {
            None => res is Err,
            Some((c, nf)) => res matches Ok((rem, n)) && n == nf && rem@ == input@.skip(c as int)
                && c <= input@.len(),
        },
{
    let (r0, tag) = Property::parse(input)?;
    if tag != Property::FilesInfo {
        return Err(ParseError);
    }
    proof {
        lemma_varint_decode_fits(r0@);
    }
    let (r1, num_files) = sevenzip_varuint64_decode(r0)?;
    let ghost c1 = spec_varint_decode(r0@).unwrap().0;
    proof {
        lemma_skip_skip(input@, 1, c1);
    }
    let mut rem = r1;
    let ghost mut k: nat = 1 + c1;
    loop
        invariant
            k <= input@.len(),
            rem@ == input@.skip(k as int),
            spec_scan_files_info(input@) == match spec_scan_files_tail(rem@) {
                None => None,
                Some(c) => Some((k + c, num_files)),
            },
        decreases rem@.len(),
    {
        let (r, tag) = Property::parse(rem)?;
        if tag == Property::END {
            proof {
                lemma_skip_skip(input@, k, 1);
            }
            return Ok((r, num_files));
        }
        let (r2, _) = take_block(r)?;
        proof {
            let c = spec_sized_block(r@).unwrap().0;
            lemma_skip_skip(rem@, 1, c);
            lemma_skip_skip(input@, k, 1 + c);
            k = k + 1 + c;
        }
        rem = r2;
    }
}

/// A walked `FilesInfo` block uses at least its tag byte.
pub proof fn lemma_scan_files_info_shape(s: Seq<u8>)
    ensures
        spec_scan_files_info(s) matches Some((c, _)) ==> c >= 1,
{
}

} // verus!
