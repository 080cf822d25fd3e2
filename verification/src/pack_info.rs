//! Where packed streams live (`PackInfo`) and how folders unpack (`UnpackInfo`).
use crate::error::{ParseError, R7zError};
use crate::folder::{scan_folder, spec_parse_folder, sum_out, Folder, FolderView};
use crate::parsers::{
    bitmap_bytes, lemma_skip_skip, lemma_varint_decode_fits, opt_u32_view,
    parse_defined_u32_values, parse_varints, scan_digests, sevenzip_varuint64_decode,
    spec_defined_values, spec_repeat, spec_scan_digests, spec_varint_decode, varint_parser,
};
use crate::property::{spec_parse_property, Property};
use vstd::prelude::*;
use vstd::slice::{slice_subrange, slice_to_vec};

verus! {

/// A size-prefixed block at the start of `s`: a varint size, then that many
/// bytes. Gives the bytes the whole block occupies.
pub open spec fn spec_skip_block(s: Seq<u8>) -> Option<nat> {
    match spec_varint_decode(s) {
        None => None,
        Some((c, size)) => if c + size <= s.len() {
            Some(c + size)
        } else {
            None
        },
    }
}

/// Skip a size-prefixed block at the start of `input`.
pub fn skip_block(input: &[u8]) -> (res: Result<&[u8], ParseError>)
    ensures
        match spec_skip_block(input@) {
            None => res is Err,
            Some(c) => res matches Ok(rem) && rem@ == input@.skip(c as int) && c <= input@.len(),
        },
{
    proof {
        lemma_varint_decode_fits(input@);
    }
    let (r, size) = sevenzip_varuint64_decode(input)?;
    if size > r.len() as u64 {
        return Err(ParseError);
    }
    let rem = slice_subrange(r, size as usize, r.len());
    proof {
        let c = spec_varint_decode(input@).unwrap().0;
        assert(rem@ =~= input@.skip((c + size) as int));
    }
    Ok(rem)
}

/// A size-prefixed block at the start of `s`: the bytes the whole block
/// occupies and its contents.
pub open spec fn spec_sized_block(s: Seq<u8>) -> Option<(nat, Seq<u8>)> {
    match spec_varint_decode(s) {
        None => None,
        Some((c, size)) => if c + size <= s.len() {
            Some((c + size, s.subrange(c as int, (c + size) as int)))
        } else {
            None
        },
    }
}

/// Take a size-prefixed block at the start of `input`: the rest, then the block.
pub fn take_block(input: &[u8]) -> (res: Result<(&[u8], &[u8]), ParseError>)
    ensures
        match spec_sized_block(input@) {
            None => res is Err,
            Some((c, b)) => res matches Ok((rem, block)) && rem@ == input@.skip(c as int)
                && block@ == b && c <= input@.len(),
        },
        spec_sized_block(input@) matches Some((c, _)) ==> spec_skip_block(input@) == Some(c),
        spec_sized_block(input@) is None ==> spec_skip_block(input@) is None,
{
    proof {
        lemma_varint_decode_fits(input@);
    }
    let (r, size) = sevenzip_varuint64_decode(input)?;
    if size > r.len() as u64 {
        return Err(ParseError);
    }
    let block = slice_subrange(r, 0, size as usize);
    let rem = slice_subrange(r, size as usize, r.len());
    proof {
        let c = spec_varint_decode(input@).unwrap().0;
        assert(rem@ =~= input@.skip((c + size) as int));
        assert(block@ =~= input@.subrange(c as int, (c + size) as int));
    }
    Ok((rem, block))
}

/// Parse of a CRC digest block for `num` streams: `AllAreDefined`, a bitmap
/// when that byte is zero (bit order as `lsb` says), then a little-endian
/// `u32` per defined stream.
pub open spec fn spec_digest_block(s: Seq<u8>, num: nat, lsb: bool) -> Option<(nat, Seq<Option<nat>>)> {
    if s.len() == 0 {
        None
    } else if s[0] != 0 {
        match spec_defined_values(s.skip(1), true, Seq::empty(), lsb, num, 4) {
            None => None,
            Some((c, vs)) => Some((1 + c, vs)),
        }
    } else {
        let nb = bitmap_bytes(num);
        if s.len() < 1 + nb {
            None
        } else {
            match spec_defined_values(
                s.skip((1 + nb) as int),
                false,
                s.subrange(1, 1 + nb as int),
                lsb,
                num,
                4,
            ) {
                None => None,
                Some((c, vs)) => Some((1 + nb + c, vs)),
            }
        }
    }
}

/// Parse of a CRC digest block whose bitmap is most-significant-bit first.
pub open spec fn spec_parse_digests(s: Seq<u8>, num: nat) -> Option<(nat, Seq<Option<nat>>)> {
    spec_digest_block(s, num, false)
}

/// Parse a CRC digest block for `num_streams` streams.
pub fn parse_digest_block(input: &[u8], num_streams: usize, lsb: bool) -> (res: Result<
    (&[u8], Vec<Option<u32>>),
    ParseError,
>)
    ensures
        match spec_digest_block(input@, num_streams as nat, lsb) {
            None => res is Err,
            Some((c, vs)) => res matches Ok((rem, xs)) && rem@ == input@.skip(c as int)
                && opt_u32_view(xs@) == vs && c <= input@.len(),
        },
{
    if input.len() == 0 {
        return Err(ParseError);
    }
    let all_defined = input[0];
    if all_defined != 0 {
        let data = slice_subrange(input, 1, input.len());
        let empty: &[u8] = slice_subrange(input, 0, 0);
        proof {
            assert(empty@ =~= Seq::<u8>::empty());
        }
        let (c, values) = parse_defined_u32_values(data, true, empty, lsb, num_streams)?;
        proof {
            assert(c <= data@.len()) by {
                lemma_defined_values_len(data@, true, empty@, lsb, num_streams as nat, 4);
            }
        }
        let rem = slice_subrange(data, c, data.len());
        proof {
            assert(rem@ =~= input@.skip((1 + c) as int));
        }
        Ok((rem, values))
    } else {
        let num_bytes = num_streams / 8 + if num_streams % 8 == 0 {
            0
        } else {
            1
        };
        if input.len() - 1 < num_bytes {
            return Err(ParseError);
        }
        let bitmap = slice_subrange(input, 1, 1 + num_bytes);
        let data = slice_subrange(input, 1 + num_bytes, input.len());
        let (c, values) = parse_defined_u32_values(data, false, bitmap, lsb, num_streams)?;
        proof {
            assert(c <= data@.len()) by {
                lemma_defined_values_len(data@, false, bitmap@, lsb, num_streams as nat, 4);
            }
        }
        let rem = slice_subrange(data, c, data.len());
        proof {
            assert(rem@ =~= input@.skip((1 + num_bytes + c) as int));
        }
        Ok((rem, values))
    }
}

/// Parse CRC digests for `num_streams` streams using `AllAreDefined` + optional bitmap.
pub fn parse_digests(input: &[u8], num_streams: usize) -> (res: Result<
    (&[u8], Vec<Option<u32>>),
    ParseError,
>)
    ensures
        match spec_parse_digests(input@, num_streams as nat) {
            None => res is Err,
            Some((c, vs)) => res matches Ok((rem, xs)) && rem@ == input@.skip(c as int)
                && opt_u32_view(xs@) == vs && c <= input@.len(),
        },
{
    parse_digest_block(input, num_streams, false)
}

/// A defined-values array never uses more bytes than it is given.
pub proof fn lemma_defined_values_len(
    data: Seq<u8>,
    all: bool,
    bitmap: Seq<u8>,
    lsb: bool,
    k: nat,
    width: nat,
)
    ensures
        spec_defined_values(data, all, bitmap, lsb, k, width) matches Some((c, vs)) ==> c
            <= data.len() && vs.len() == k,
    decreases k,
{
    if k > 0 {
        lemma_defined_values_len(data, all, bitmap, lsb, (k - 1) as nat, width);
    }
}

/// The trailing property list of a `PackInfo` block: `END` stops it, `CRC`
/// carries a digest block for `num` streams, any other tag carries a
/// size-prefixed block. Gives the bytes the list occupies.
pub open spec fn spec_pack_tail(t: Seq<u8>, num: nat) -> Option<nat>
    decreases t.len(),
{
    match spec_parse_property(t) {
        None => None,
        Some(Property::END) => Some(1),
        Some(Property::CRC) => if num > usize::MAX {
            None
        } else {
            match spec_scan_digests(t.skip(1), num) {
                None => None,
                Some(c) => if 1 + c <= t.len() {
                    match spec_pack_tail(t.skip((1 + c) as int), num) {
                        None => None,
                        Some(c2) => Some(1 + c + c2),
                    }
                } else {
                    None
                },
            }
        },
        Some(_) => match spec_skip_block(t.skip(1)) {
            None => None,
            Some(c) => if 1 + c <= t.len() {
                match spec_pack_tail(t.skip((1 + c) as int), num) {
                    None => None,
                    Some(c2) => Some(1 + c + c2),
                }
            } else {
                None
            },
        },
    }
}

/// The mathematical model of a [`PackInfo`].
pub struct PackInfoView {
    pub pack_pos: u64,
    pub num_pack_streams: u64,
    pub pack_size: Seq<u64>,
}

/// The fixed head of a `PackInfo` block: the `PackInfo` tag, `pack_pos`,
/// the stream count, the `Size` tag and one varint size per stream.
pub open spec fn spec_pack_head(s: Seq<u8>) -> Option<(nat, PackInfoView)> {
    if spec_parse_property(s) != Some(Property::PackInfo) {
        None
    } else {
        match varint_parser()(s.skip(1)) {
            None => None,
            Some((c1, pack_pos)) => match varint_parser()(s.skip((1 + c1) as int)) {
                None => None,
                Some((c2, num)) => if spec_parse_property(s.skip((1 + c1 + c2) as int)) != Some(
                    Property::Size,
                ) {
                    None
                } else {
                    match spec_repeat(varint_parser(), s.skip((2 + c1 + c2) as int), num as nat) {
                        None => None,
                        Some((c3, sizes)) => Some(
                            (
                                2 + c1 + c2 + c3,
                                PackInfoView {
                                    pack_pos,
                                    num_pack_streams: num,
                                    pack_size: sizes,
                                },
                            ),
                        ),
                    }
                },
            },
        }
    }
}

/// Parse of a `PackInfo` block at the start of `s`.
pub closed spec fn spec_parse_pack_info(s: Seq<u8>) -> Option<(nat, PackInfoView)> {
    match spec_pack_head(s) {
        None => None,
        Some((c, v)) => match spec_pack_tail(s.skip(c as int), v.num_pack_streams as nat) {
            None => None,
            Some(c2) => Some((c + c2, v)),
        },
    }
}

/// What [`spec_parse_pack_info`] is, for callers outside this module: the
/// head, then the tail of sizes and digests.
pub proof fn lemma_parse_pack_info(s: Seq<u8>)
    ensures
        spec_parse_pack_info(s) == ({
    match spec_pack_head(s) {
        None => None,
        Some((c, v)) => match spec_pack_tail(s.skip(c as int), v.num_pack_streams as nat) {
            None => None,
            Some(c2) => Some((c + c2, v)),
        },
    }}),
{
}

/// Describes where the packed (compressed) data streams live in the archive file.
#[derive(Debug, PartialEq, Eq)]
pub struct PackInfo {
    /// Byte offset of the first packed stream, measured from the end of the
    /// 32-byte signature header.
    pub pack_pos: u64,
    /// Number of packed streams.
    pub num_pack_streams: u64,
    /// Compressed size of each packed stream in bytes.
    pub pack_size: Vec<u64>,
}

impl View for PackInfo {
    type V = PackInfoView;

    open spec fn view(&self) -> PackInfoView {
        PackInfoView {
            pack_pos: self.pack_pos,
            num_pack_streams: self.num_pack_streams,
            pack_size: self.pack_size@,
        }
    }
}

/// Walk the trailing property list of a `PackInfo` block.
fn scan_pack_tail(input: &[u8], num: u64) -> (res: Result<&[u8], ParseError>)
    ensures
        match spec_pack_tail(input@, num as nat) {
            None => res is Err,
            Some(c) => res matches Ok(rem) && rem@ == input@.skip(c as int) && c <= input@.len(),
        },
{
    let mut rem = input;
    let ghost mut k: nat = 0;
    loop
        invariant
            k <= input@.len(),
            rem@ == input@.skip(k as int),
            spec_pack_tail(input@, num as nat) == match spec_pack_tail(rem@, num as nat) {
                None => None,
                Some(c) => Some(k + c),
            },
        decreases rem@.len(),
    {
        let (r, tag) = Property::parse(rem)?;
        match tag {
            Property::END => {
                proof {
                    lemma_skip_skip(input@, k, 1);
                }
                return Ok(r);
            },
            Property::CRC => {
                if num > usize::MAX as u64 {
                    return Err(ParseError);
                }
                let (r2, ()) = scan_digests(r, num as usize)?;
                proof {
                    let c = spec_scan_digests(r@, num as nat).unwrap();
                    assert(1 + c <= rem@.len());
                    lemma_skip_skip(rem@, 1, c);
                    lemma_skip_skip(input@, k, 1 + c);
                    k = k + 1 + c;
                }
                rem = r2;
            },
            _ => {
                let r2 = skip_block(r)?;
                proof {
                    let c = spec_skip_block(r@).unwrap();
                    lemma_skip_skip(rem@, 1, c);
                    lemma_skip_skip(input@, k, 1 + c);
                    k = k + 1 + c;
                }
                rem = r2;
            },
        }
    }
}

/// Parse the fixed head of a `PackInfo` block.
fn parse_pack_head(input: &[u8]) -> (res: Result<(&[u8], PackInfo), ParseError>)
    ensures
        match spec_pack_head(input@) {
            None => res is Err,
            Some((c, v)) => res matches Ok((rem, p)) && p@ == v && rem@ == input@.skip(c as int)
                && c <= input@.len(),
        },
{
    let (r0, property_id) = Property::parse(input)?;
    if property_id != Property::PackInfo {
        return Err(ParseError);
    }
    proof {
        lemma_varint_decode_fits(r0@);
    }
    let (r1, pack_pos) = sevenzip_varuint64_decode(r0)?;
    let ghost c1 = spec_varint_decode(r0@).unwrap().0;
    proof {
        lemma_skip_skip(input@, 1, c1);
        lemma_varint_decode_fits(r1@);
    }
    let (r2, num_pack_streams) = sevenzip_varuint64_decode(r1)?;
    let ghost c2 = spec_varint_decode(r1@).unwrap().0;
    proof {
        lemma_skip_skip(input@, 1 + c1, c2);
    }
    let (r3, size_marker) = Property::parse(r2)?;
    if size_marker != Property::Size {
        return Err(ParseError);
    }
    proof {
        lemma_skip_skip(input@, 1 + c1 + c2, 1);
    }
    let (r4, pack_size) = parse_varints(r3, num_pack_streams)?;
    proof {
        let c3 = spec_repeat(varint_parser(), r3@, num_pack_streams as nat).unwrap().0;
        lemma_skip_skip(input@, 2 + c1 + c2, c3);
    }
    Ok((r4, PackInfo { pack_pos, num_pack_streams, pack_size }))
}

impl PackInfo {
    /// Parse a `PackInfo` block from the header stream.
    pub fn parse(input: &[u8]) -> (res: Result<(&[u8], PackInfo), ParseError>)
        ensures
            match spec_parse_pack_info(input@) {
                None => res is Err,
                Some((c, v)) => res matches Ok((rem, p)) && p@ == v && rem@ == input@.skip(
                    c as int,
                ) && c <= input@.len(),
            },
    {
        let (r, info) = parse_pack_head(input)?;
        let r2 = scan_pack_tail(r, info.num_pack_streams)?;
        proof {
            let c = spec_pack_head(input@).unwrap().0;
            let c2 = spec_pack_tail(r@, info.num_pack_streams as nat).unwrap();
            lemma_skip_skip(input@, c, c2);
        }
        Ok((r2, info))
    }
}

/// Walk a `PackInfo` block without building the size list.
pub fn scan_pack_info(input: &[u8]) -> (res: Result<(&[u8], ()), ParseError>)
    ensures
        match spec_parse_pack_info(input@) {
            None => res is Err,
            Some((c, _)) => res matches Ok((rem, _)) && rem@ == input@.skip(c as int),
        },
{
    let (r0, tag) = Property::parse(input)?;
    if tag != Property::PackInfo {
        return Err(ParseError);
    }
    proof {
        lemma_varint_decode_fits(r0@);
    }
    let (r1, _pack_pos) = sevenzip_varuint64_decode(r0)?;
    let ghost c1 = spec_varint_decode(r0@).unwrap().0;
    proof {
        lemma_skip_skip(input@, 1, c1);
        lemma_varint_decode_fits(r1@);
    }
    let (r2, num_pack_streams) = sevenzip_varuint64_decode(r1)?;
    let ghost c2 = spec_varint_decode(r1@).unwrap().0;
    proof {
        lemma_skip_skip(input@, 1 + c1, c2);
    }
    let (r3, size_marker) = Property::parse(r2)?;
    if size_marker != Property::Size {
        return Err(ParseError);
    }
    proof {
        lemma_skip_skip(input@, 1 + c1 + c2, 1);
    }
    let r4 = skip_varints(r3, num_pack_streams)?;
    let ghost c3 = spec_repeat(varint_parser(), r3@, num_pack_streams as nat).unwrap().0;
    proof {
        lemma_skip_skip(input@, 2 + c1 + c2, c3);
    }
    let r5 = scan_pack_tail(r4, num_pack_streams)?;
    proof {
        let c4 = spec_pack_tail(r4@, num_pack_streams as nat).unwrap();
        lemma_skip_skip(input@, 2 + c1 + c2 + c3, c4);
    }
    Ok((r5, ()))
}

/// Skip `k` consecutive varints without collecting them.
pub fn skip_varints(input: &[u8], k: u64) -> (res: Result<&[u8], ParseError>)
    ensures
        match spec_repeat(varint_parser(), input@, k as nat) {
            None => res is Err,
            Some((c, _)) => res matches Ok(rem) && rem@ == input@.skip(c as int) && c
                <= input@.len(),
        },
{
    let mut rem = input;
    let mut i: u64 = 0;
    let ghost mut c: nat = 0;
    let ghost mut vs: Seq<u64> = Seq::empty();
    while i < k
        invariant
            i <= k,
            spec_repeat(varint_parser(), input@, i as nat) == Some((c, vs)),
            c <= input@.len(),
            rem@ == input@.skip(c as int),
        decreases k - i,
    {
        proof {
            lemma_varint_decode_fits(rem@);
        }
        match sevenzip_varuint64_decode(rem) {
            Ok((r, v)) => {
                proof {
                    let c2 = spec_varint_decode(rem@).unwrap().0;
                    lemma_skip_skip(input@, c, c2);
                    c = c + c2;
                    vs = vs.push(v);
                }
                rem = r;
                i = i + 1;
            },
            Err(e) => {
                proof {
                    crate::parsers::lemma_repeat_none_propagates(
                        varint_parser(),
                        input@,
                        (i + 1) as nat,
                        k as nat,
                    );
                }
                return Err(e);
            },
        }
    }
    Ok(rem)
}

/// The head of an `UnpackInfo` block: the `UnPackInfo` and `Folder` tags,
/// the folder count, the external flag byte and, when it is non-zero, a
/// data-stream index. Gives the bytes used and the folder count.
pub open spec fn spec_unpack_head(s: Seq<u8>) -> Option<(nat, u64)> {
    if spec_parse_property(s) != Some(Property::UnPackInfo) {
        None
    } else if spec_parse_property(s.skip(1)) != Some(Property::Folder) {
        None
    } else {
        match varint_parser()(s.skip(2)) {
            None => None,
            Some((c1, nf)) => if s.len() < 3 + c1 {
                None
            } else if s[(2 + c1) as int] == 0 {
                Some((3 + c1, nf))
            } else {
                match varint_parser()(s.skip((3 + c1) as int)) {
                    None => None,
                    Some((c2, _)) => Some((3 + c1 + c2, nf)),
                }
            }
        }
    }
}

/// Scanning `k` consecutive folders at the start of `s`: the start offset of
/// each and the end offset of the last (`k + 1` offsets), and the total
/// number of output streams. Fails when a folder does not parse, or its own
/// or the running output-stream count exceeds `usize`.
pub open spec fn spec_scan_folders(s: Seq<u8>, k: nat) -> Option<(Seq<nat>, nat)>
    decreases k,
{
    if k == 0 {
        Some((seq![0nat], 0))
    } else {
        match spec_scan_folders(s, (k - 1) as nat) {
            None => None,
            Some((offs, tot)) => match spec_parse_folder(s.skip(offs.last() as int)) {
                None => None,
                Some((c, f)) => {
                    let n = sum_out(f.coders);
                    if n > usize::MAX || tot + n > usize::MAX {
                        None
                    } else {
                        Some((offs.push(offs.last() + c), tot + n))
                    }
                },
            },
        }
    }
}

pub proof fn lemma_scan_folders_none_propagates(s: Seq<u8>, i: nat, k: nat)
    requires
        i <= k,
        spec_scan_folders(s, i) is None,
    ensures
        spec_scan_folders(s, k) is None,
    decreases k,
{
    if k > i {
        lemma_scan_folders_none_propagates(s, i, (k - 1) as nat);
    }
}

pub proof fn lemma_scan_folders_shape(s: Seq<u8>, k: nat)
    ensures
        spec_scan_folders(s, k) matches Some((offs, tot)) ==> offs.len() == k + 1 && offs[0] == 0
            && offs.last() <= s.len() && (forall|j: int|
            0 <= j < offs.len() ==> #[trigger] offs[j] <= offs.last()) && tot <= usize::MAX,
    decreases k,
{
    if k > 0 {
        lemma_scan_folders_shape(s, (k - 1) as nat);
        if let Some((offs, tot)) = spec_scan_folders(s, (k - 1) as nat) {
            if let Some((c, f)) = spec_parse_folder(s.skip(offs.last() as int)) {
                crate::folder::lemma_parse_folder_bounded(s.skip(offs.last() as int));
            }
        }
    }
}

/// The trailing property list of an `UnpackInfo` block, with the unpack
/// sizes and digests gathered so far: `CodersUnPackSize` appends
/// `total_out` sizes, `CRC` replaces the digests with a block for
/// `num_folders` folders, other tags carry a size-prefixed block, `END`
/// stops. Gives the bytes used and the final sizes and digests.
pub open spec fn spec_unpack_tail(
    t: Seq<u8>,
    total_out: nat,
    num_folders: u64,
    sizes: Seq<u64>,
    digests: Seq<Option<nat>>,
) -> Option<(nat, Seq<u64>, Seq<Option<nat>>)>
    decreases t.len(),
{
    match spec_parse_property(t) {
        None => None,
        Some(Property::END) => Some((1, sizes, digests)),
        Some(Property::CodersUnPackSize) => match spec_repeat(
            varint_parser(),
            t.skip(1),
            total_out,
        ) {
            None => None,
            Some((c, vs)) => if 1 + c <= t.len() {
                match spec_unpack_tail(
                    t.skip((1 + c) as int),
                    total_out,
                    num_folders,
                    sizes + vs,
                    digests,
                ) {
                    None => None,
                    Some((c2, ss, ds)) => Some((1 + c + c2, ss, ds)),
                }
            } else {
                None
            },
        },
        Some(Property::CRC) => if num_folders > usize::MAX {
            None
        } else {
            match spec_parse_digests(t.skip(1), num_folders as nat) {
                None => None,
                Some((c, ds0)) => if 1 + c <= t.len() {
                    match spec_unpack_tail(
                        t.skip((1 + c) as int),
                        total_out,
                        num_folders,
                        sizes,
                        ds0,
                    ) {
                        None => None,
                        Some((c2, ss, ds)) => Some((1 + c + c2, ss, ds)),
                    }
                } else {
                    None
                },
            }
        },
        Some(_) => match spec_skip_block(t.skip(1)) {
            None => None,
            Some(c) => if 1 + c <= t.len() {
                match spec_unpack_tail(
                    t.skip((1 + c) as int),
                    total_out,
                    num_folders,
                    sizes,
                    digests,
                ) {
                    None => None,
                    Some((c2, ss, ds)) => Some((1 + c + c2, ss, ds)),
                }
            } else {
                None
            },
        },
    }
}

/// The mathematical model of an [`UnpackInfo`].
pub struct UnpackInfoView {
    pub num_folders: u64,
    pub folder_data: Seq<u8>,
    pub folder_offsets: Seq<nat>,
    pub unpack_sizes: Seq<u64>,
    pub digests: Seq<Option<nat>>,
}

/// `n` absent digests.
pub open spec fn no_digests(n: nat) -> Seq<Option<nat>> {
    Seq::new(n, |i: int| None)
}

/// Parse of an `UnpackInfo` block at the start of `s`: the head, the
/// folders (kept as raw bytes with their offsets, which must fit in `u32`),
/// then the property list. Without a `CRC` section the digests are all absent.
pub closed spec fn spec_parse_unpack_info(s: Seq<u8>) -> Option<(nat, UnpackInfoView)> {
    match spec_unpack_head(s) {
        None => None,
        Some((h, nf)) => match spec_scan_folders(s.skip(h as int), nf as nat) {
            None => None,
            Some((offs, tot)) => if offs.last() > u32::MAX {
                None
            } else {
                let end = h + offs.last();
                match spec_unpack_tail(s.skip(end as int), tot, nf, Seq::empty(), Seq::empty()) {
                    None => None,
                    Some((c, sizes, ds)) => Some(
                        (
                            end + c,
                            UnpackInfoView {
                                num_folders: nf,
                                folder_data: s.subrange(h as int, end as int),
                                folder_offsets: offs,
                                unpack_sizes: sizes,
                                digests: if ds.len() == 0 {
                                    no_digests(nf as nat)
                                } else {
                                    ds
                                },
                            },
                        ),
                    ),
                }
            },
        },
    }
}

/// What [`spec_parse_unpack_info`] is, for callers outside this module: the
/// head, the folders with their offsets, then the sizes and digests.
pub proof fn lemma_parse_unpack_info(s: Seq<u8>)
    ensures
        spec_parse_unpack_info(s) == ({
    match spec_unpack_head(s) {
        None => None,
        Some((h, nf)) => match spec_scan_folders(s.skip(h as int), nf as nat) {
            None => None,
            Some((offs, tot)) => if offs.last() > u32::MAX {
                None
            } else {
                let end = h + offs.last();
                match spec_unpack_tail(s.skip(end as int), tot, nf, Seq::empty(), Seq::empty()) {
                    None => None,
                    Some((c, sizes, ds)) => Some(
                        (
                            end + c,
                            UnpackInfoView {
                                num_folders: nf,
                                folder_data: s.subrange(h as int, end as int),
                                folder_offsets: offs,
                                unpack_sizes: sizes,
                                digests: if ds.len() == 0 {
                                    no_digests(nf as nat)
                                } else {
                                    ds
                                },
                            },
                        ),
                    ),
                }
            },
        },
    }}),
{
}

/// Describes the decompression structure: folders, their coders, and output sizes.
///
/// Folder metadata is validated eagerly but parsed lazily: the raw bytes are
/// stored alongside their offsets, and [`Folder`] values are built on demand
/// by [`parse_folder`](UnpackInfo::parse_folder).
#[derive(Debug, PartialEq, Eq)]
pub struct UnpackInfo {
    /// Number of compression folders.
    pub num_folders: u64,
    /// Raw bytes of all folder blocks (validated, not yet parsed).
    folder_data: Vec<u8>,
    /// Byte offset of each folder within `folder_data`, plus the end offset.
    folder_offsets: Vec<u32>,
    /// Uncompressed (output) size for each coder out-stream across all folders.
    pub unpack_sizes: Vec<u64>,
    /// Optional CRC32 digest per folder.
    pub digests: Vec<Option<u32>>,
}

impl View for UnpackInfo {
    type V = UnpackInfoView;

    closed spec fn view(&self) -> UnpackInfoView {
        UnpackInfoView {
            num_folders: self.num_folders,
            folder_data: self.folder_data@,
            folder_offsets: self.folder_offsets@.map_values(|x: u32| x as nat),
            unpack_sizes: self.unpack_sizes@,
            digests: opt_u32_view(self.digests@),
        }
    }
}

/// The bytes of the folder at position `idx`, if its offsets are in range.
pub open spec fn spec_folder_bytes(u: UnpackInfoView, idx: nat) -> Option<Seq<u8>> {
    if idx + 1 >= u.folder_offsets.len() {
        None
    } else {
        let start = u.folder_offsets[idx as int];
        let end = u.folder_offsets[(idx + 1) as int];
        if start > end || end > u.folder_data.len() {
            None
        } else {
            Some(u.folder_data.subrange(start as int, end as int))
        }
    }
}

/// The number of folders the offsets of an unpack-info model delimit.
pub open spec fn spec_num_folders(u: UnpackInfoView) -> nat {
    if u.folder_offsets.len() == 0 { 0 } else { (u.folder_offsets.len() - 1) as nat }
}

/// The folder stored at position `idx` of an unpack-info model, if its
/// offsets are in range and its bytes parse.
pub open spec fn spec_folder_at(u: UnpackInfoView, idx: nat) -> Option<FolderView> {
    if idx + 1 >= u.folder_offsets.len() {
        None
    } else {
        let start = u.folder_offsets[idx as int];
        let end = u.folder_offsets[(idx + 1) as int];
        if start > end || end > u.folder_data.len() {
            None
        } else {
            match spec_parse_folder(u.folder_data.subrange(start as int, end as int)) {
                None => None,
                Some((_, f)) => Some(f),
            }
        }
    }
}

/// Parse the head of an `UnpackInfo` block.
fn parse_unpack_head(input: &[u8]) -> (res: Result<(&[u8], u64), ParseError>)
    ensures
        match spec_unpack_head(input@) {
            None => res is Err,
            Some((c, nf)) => res matches Ok((rem, n)) && n == nf && rem@ == input@.skip(c as int)
                && c <= input@.len(),
        },
{
    let (r0, property_id) = Property::parse(input)?;
    if property_id != Property::UnPackInfo {
        return Err(ParseError);
    }
    let (r1, folder_marker) = Property::parse(r0)?;
    if folder_marker != Property::Folder {
        return Err(ParseError);
    }
    proof {
        lemma_skip_skip(input@, 1, 1);
        lemma_varint_decode_fits(r1@);
    }
    let (r2, num_folders) = sevenzip_varuint64_decode(r1)?;
    let ghost c1 = spec_varint_decode(r1@).unwrap().0;
    proof {
        lemma_skip_skip(input@, 2, c1);
    }
    if r2.len() == 0 {
        return Err(ParseError);
    }
    let is_external = r2[0];
    let r3 = slice_subrange(r2, 1, r2.len());
    proof {
        lemma_skip_skip(input@, 2 + c1, 1);
        assert(input@[(2 + c1) as int] == r2@[0]);
    }
    if is_external != 0 {
        proof {
            lemma_varint_decode_fits(r3@);
        }
        let (r4, _data_stream_index) = sevenzip_varuint64_decode(r3)?;
        proof {
            let c2 = spec_varint_decode(r3@).unwrap().0;
            lemma_skip_skip(input@, 3 + c1, c2);
        }
        Ok((r4, num_folders))
    } else {
        Ok((r3, num_folders))
    }
}

proof fn lemma_map_push_usize(s: Seq<usize>, x: usize)
    ensures
        s.push(x).map_values(|y: usize| y as nat) == s.map_values(|y: usize| y as nat).push(
            x as nat,
        ),
{
    assert(s.push(x).map_values(|y: usize| y as nat) =~= s.map_values(|y: usize| y as nat).push(
        x as nat,
    ));
}

proof fn lemma_map_push_u32(s: Seq<u32>, x: u32)
    ensures
        s.push(x).map_values(|y: u32| y as nat) == s.map_values(|y: u32| y as nat).push(x as nat),
{
    assert(s.push(x).map_values(|y: u32| y as nat) =~= s.map_values(|y: u32| y as nat).push(
        x as nat,
    ));
}

/// Scan `k` folders: their offsets (as `usize`, nondecreasing) and total outputs.
#[verifier::rlimit(30)]
fn scan_folders(input: &[u8], k: u64) -> (res: Result<(&[u8], Vec<usize>, usize), ParseError>)
    ensures
        match spec_scan_folders(input@, k as nat) {
            None => res is Err,
            Some((offs, tot)) => res matches Ok((rem, os, t)) && os@.len() == offs.len() && (
            forall|q: int| 0 <= q < offs.len() ==> os@[q] as nat == #[trigger] offs[q]) && t == tot
                && rem@ == input@.skip(offs.last() as int),
        },
{
    let mut rem = input;
    let mut offsets: Vec<usize> = Vec::new();
    offsets.push(0);
    let mut total: usize = 0;
    let mut i: u64 = 0;
    let ghost mut offs: Seq<nat> = seq![0nat];
    proof {
        assert(input@ =~= input@.skip(0));
    }
    while i < k
        invariant
            i <= k,
            spec_scan_folders(input@, i as nat) == Some((offs, total as nat)),
            offsets@.len() == i + 1,
            offs.len() == i + 1,
            forall|q: int| 0 <= q < offs.len() ==> offsets@[q] as nat == #[trigger] offs[q],
            offs.last() <= input@.len(),
            rem@ == input@.skip(offs.last() as int),
        decreases k - i,
    {
        proof {
            crate::folder::lemma_parse_folder_bounded(rem@);
        }
        match scan_folder(rem) {
            Ok((r, out)) => {
                if out > usize::MAX - total {
                    proof {
                        lemma_scan_folders_none_propagates(input@, (i + 1) as nat, k as nat);
                    }
                    return Err(ParseError);
                }
                let ghost c = spec_parse_folder(rem@).unwrap().0;
                proof {
                    lemma_skip_skip(input@, offs.last(), c);
                    assert(offsets@[i as int] as nat == offs[i as int]);
                    assert(offs.last() == offs[i as int]);
                    assert(c <= rem@.len());
                    assert(offsets@[offsets@.len() - 1] + c <= input@.len());
                    assert(rem@.len() == input@.len() - offs.last());
                    assert(r@.len() == rem@.len() - c);
                }
                let d = rem.len() - r.len();
                let base = offsets[offsets.len() - 1];
                assert(base + d <= input.len());
                let next = base + d;
                offsets.push(next);
                proof {
                    offs = offs.push(offs.last() + c);
                }
                total = total + out;
                rem = r;
                i = i + 1;
            },
            Err(e) => {
                proof {
                    lemma_scan_folders_none_propagates(input@, (i + 1) as nat, k as nat);
                }
                return Err(e);
            },
        }
    }
    Ok((rem, offsets, total))
}

impl UnpackInfo {
    /// Parse the folder at position `idx` on demand.
    pub fn parse_folder(&self, idx: usize) -> (res: Result<Folder, R7zError>)
        ensures
            match spec_folder_at(self@, idx as nat) {
                None => res == Err::<Folder, R7zError>(R7zError::Parse),
                Some(f) => res matches Ok(g) && g@ == f,
            },
    {
        if idx >= self.folder_offsets.len() || idx + 1 >= self.folder_offsets.len() {
            return Err(R7zError::Parse);
        }
        let start = self.folder_offsets[idx] as usize;
        let end = self.folder_offsets[idx + 1] as usize;
        if start > end || end > self.folder_data.len() {
            return Err(R7zError::Parse);
        }
        match Folder::parse(slice_subrange(self.folder_data.as_slice(), start, end)) {
            Ok((_, folder)) => Ok(folder),
            Err(_) => Err(R7zError::Parse),
        }
    }

    /// The digest recorded for folder `k`, if any.
    pub fn folder_digest(&self, k: usize) -> (r: Option<u32>)
        ensures
            match (if k < self@.digests.len() { self@.digests[k as int] } else { None }) {
                None => r is None,
                Some(c) => r matches Some(x) && x as nat == c,
            },
    {
        if k < self.digests.len() { self.digests[k] } else { None }
    }

    /// The bytes of the folder at position `idx`.
    pub fn folder_bytes(&self, idx: usize) -> (r: Option<Vec<u8>>)
        ensures
            match spec_folder_bytes(self@, idx as nat) {
                None => r is None,
                Some(b) => r matches Some(v) && v@ == b,
            },
    {
        if idx >= self.folder_offsets.len() || idx + 1 >= self.folder_offsets.len() {
            return None;
        }
        let start = self.folder_offsets[idx] as usize;
        let end = self.folder_offsets[idx + 1] as usize;
        if start > end || end > self.folder_data.len() {
            return None;
        }
        Some(slice_to_vec(slice_subrange(self.folder_data.as_slice(), start, end)))
    }

    /// The declared number of folders.
    pub fn num_folders(&self) -> (r: u64)
        ensures
            r == self@.num_folders,
    {
        self.num_folders
    }

    /// How many unpack sizes there are.
    pub fn unpack_sizes_len(&self) -> (r: usize)
        ensures
            r == self@.unpack_sizes.len(),
    {
        self.unpack_sizes.len()
    }

    /// The unpack size at position `k` (all coders' outputs, folder by folder).
    pub fn unpack_size_at(&self, k: usize) -> (r: Option<u64>)
        ensures
            r == (if k < self@.unpack_sizes.len() { Some(self@.unpack_sizes[k as int]) } else { None::<u64> }),
    {
        if k < self.unpack_sizes.len() { Some(self.unpack_sizes[k]) } else { None }
    }

    /// Number of folders (as `usize`): those the folder offsets delimit.
    #[must_use]
    pub fn num_folders_usize(&self) -> (r: usize)
        ensures
            r == spec_num_folders(self@),
    {
        if self.folder_offsets.len() == 0 { 0 } else { self.folder_offsets.len() - 1 }
    }

    /// Parse an `UnpackInfo` block from the header stream.
    #[verifier::rlimit(40)]
    pub fn parse(input: &[u8]) -> (res: Result<(&[u8], UnpackInfo), ParseError>)
        ensures
            match spec_parse_unpack_info(input@) {
                None => res is Err,
                Some((c, v)) => res matches Ok((rem, u)) && u@ == v && rem@ == input@.skip(
                    c as int,
                ) && c <= input@.len(),
            },
    {
        let (folder_start, num_folders) = parse_unpack_head(input)?;
        let ghost h = spec_unpack_head(input@).unwrap().0;
        let (r, offsets, total_out_streams) = scan_folders(folder_start, num_folders)?;
        let ghost offs = spec_scan_folders(folder_start@, num_folders as nat).unwrap().0;
        proof {
            lemma_scan_folders_shape(folder_start@, num_folders as nat);
        }
        let end_offset = offsets[offsets.len() - 1];
        if end_offset > u32::MAX as usize {
            return Err(ParseError);
        }
        proof {
            assert(offsets@[offsets.len() - 1] as nat == offs.last());
            assert forall|q: int| 0 <= q < offsets@.len() implies #[trigger] offsets@[q] <= u32::MAX by {
                assert(offsets@[q] as nat == offs[q]);
            }
        }
        let folder_offsets = narrow_offsets(&offsets);
        proof {
            assert(folder_offsets@.map_values(|x: u32| x as nat) =~= offs) by {
                assert forall|q: int| 0 <= q < offs.len() implies folder_offsets@.map_values(
                    |x: u32| x as nat,
                )[q] == #[trigger] offs[q] by {
                    assert(offsets@[q] as nat == offs[q]);
                }
            }
        }
        proof {
            lemma_skip_skip(input@, h, offs.last());
        }
        let folder_data = slice_to_vec(slice_subrange(folder_start, 0, end_offset));
        proof {
            assert(folder_data@ =~= input@.subrange(h as int, (h + offs.last()) as int));
        }
        let (rem, unpack_sizes, digests) = parse_unpack_tail(r, total_out_streams, num_folders)?;
        let info = UnpackInfo {
            num_folders,
            folder_data,
            folder_offsets,
            unpack_sizes,
            digests,
        };
        proof {
            let c = spec_unpack_tail(r@, total_out_streams as nat, num_folders, Seq::empty(), Seq::empty()).unwrap().0;
            lemma_skip_skip(input@, h + offs.last(), c);
        }
        Ok((rem, info))
    }
}

/// Narrow offsets that are known to fit in `u32`.
fn narrow_offsets(offsets: &Vec<usize>) -> (r: Vec<u32>)
    requires
        forall|q: int| 0 <= q < offsets@.len() ==> #[trigger] offsets@[q] <= u32::MAX,
    ensures
        r@.len() == offsets@.len(),
        forall|q: int| 0 <= q < offsets@.len() ==> #[trigger] r@[q] as nat == offsets@[q] as nat,
{
    let mut r: Vec<u32> = Vec::new();
    let mut j: usize = 0;
    while j < offsets.len()
        invariant
            j <= offsets.len(),
            r@.len() == j,
            forall|q: int| 0 <= q < offsets@.len() ==> #[trigger] offsets@[q] <= u32::MAX,
            forall|q: int| 0 <= q < j ==> #[trigger] r@[q] as nat == offsets@[q] as nat,
        decreases offsets.len() - j,
    {
        r.push(offsets[j] as u32);
        j = j + 1;
    }
    r
}

/// `n` absent digests.
fn absent_digests(n: u64) -> (r: Vec<Option<u32>>)
    ensures
        opt_u32_view(r@) == no_digests(n as nat),
{
    let mut digests: Vec<Option<u32>> = Vec::new();
    let mut j: u64 = 0;
    proof {
        assert(opt_u32_view(digests@) =~= no_digests(0));
    }
    while j < n
        invariant
            j <= n,
            opt_u32_view(digests@) == no_digests(j as nat),
        decreases n - j,
    {
        let ghost prev = digests@;
        digests.push(None);
        proof {
            crate::parsers::lemma_opt_u32_view_push(prev, None);
            assert(no_digests(j as nat).push(None) =~= no_digests((j + 1) as nat));
        }
        j = j + 1;
    }
    digests
}

/// Parse the trailing property list of an `UnpackInfo` block.
#[verifier::rlimit(40)]
fn parse_unpack_tail(input: &[u8], total_out: usize, num_folders: u64) -> (res: Result<
    (&[u8], Vec<u64>, Vec<Option<u32>>),
    ParseError,
>)
    ensures
        match spec_unpack_tail(input@, total_out as nat, num_folders, Seq::empty(), Seq::empty()) {
            None => res is Err,
            Some((c, sizes, ds)) => res matches Ok((rem, ss, xs)) && rem@ == input@.skip(c as int)
                && c <= input@.len() && ss@ == sizes && opt_u32_view(xs@) == (if ds.len() == 0 {
                no_digests(num_folders as nat)
            } else {
                ds
            }),
        },
{
    let mut rem = input;
    let mut unpack_sizes: Vec<u64> = Vec::new();
    let mut digests: Vec<Option<u32>> = Vec::new();
    let ghost mut k: nat = 0;
    proof {
        assert(opt_u32_view(digests@) =~= Seq::<Option<nat>>::empty());
    }
    loop
        invariant
            k <= input@.len(),
            rem@ == input@.skip(k as int),
            spec_unpack_tail(input@, total_out as nat, num_folders, Seq::empty(), Seq::empty())
                == match spec_unpack_tail(
                rem@,
                total_out as nat,
                num_folders,
                unpack_sizes@,
                opt_u32_view(digests@),
            ) {
                None => None,
                Some((c, ss, ds)) => Some((k + c, ss, ds)),
            },
        decreases rem@.len(),
    {
        let (r, tag) = Property::parse(rem)?;
        match tag {
            Property::END => {
                proof {
                    lemma_skip_skip(input@, k, 1);
                }
                if digests.len() == 0 {
                    digests = absent_digests(num_folders);
                }
                return Ok((r, unpack_sizes, digests));
            },
            Property::CodersUnPackSize => {
                let (r2, mut sizes) = parse_varints(r, total_out as u64)?;
                proof {
                    let c = spec_repeat(varint_parser(), r@, total_out as nat).unwrap().0;
                    lemma_skip_skip(rem@, 1, c);
                    lemma_skip_skip(input@, k, 1 + c);
                    k = k + 1 + c;
                }
                unpack_sizes.append(&mut sizes);
                rem = r2;
            },
            Property::CRC => {
                if num_folders > usize::MAX as u64 {
                    return Err(ParseError);
                }
                let (r2, crcs) = parse_digests(r, num_folders as usize)?;
                proof {
                    let c = spec_parse_digests(r@, num_folders as nat).unwrap().0;
                    lemma_skip_skip(rem@, 1, c);
                    lemma_skip_skip(input@, k, 1 + c);
                    k = k + 1 + c;
                }
                digests = crcs;
                rem = r2;
            },
            _ => {
                let r2 = skip_block(r)?;
                proof {
                    let c = spec_skip_block(r@).unwrap();
                    lemma_skip_skip(rem@, 1, c);
                    lemma_skip_skip(input@, k, 1 + c);
                    k = k + 1 + c;
                }
                rem = r2;
            },
        }
    }
}

/// The trailing property list of an `UnpackInfo` block as walked without
/// collecting: `CodersUnPackSize` carries `total_out` varints, `CRC` a digest
/// block for `nf` folders, other tags a size-prefixed block, `END` stops.
pub open spec fn spec_scan_unpack_tail(t: Seq<u8>, total_out: nat, nf: nat) -> Option<nat>
    decreases t.len(),
{
    match spec_parse_property(t) {
        None => None,
        Some(Property::END) => Some(1),
        Some(Property::CodersUnPackSize) => match spec_repeat(varint_parser(), t.skip(1), total_out) {
            None => None,
            Some((c, _)) => if 1 + c <= t.len() {
                match spec_scan_unpack_tail(t.skip((1 + c) as int), total_out, nf) {
                    None => None,
                    Some(c2) => Some(1 + c + c2),
                }
            } else {
                None
            },
        },
        Some(Property::CRC) => match spec_scan_digests(t.skip(1), nf) {
            None => None,
            Some(c) => if 1 + c <= t.len() {
                match spec_scan_unpack_tail(t.skip((1 + c) as int), total_out, nf) {
                    None => None,
                    Some(c2) => Some(1 + c + c2),
                }
            } else {
                None
            },
        },
        Some(_) => match spec_skip_block(t.skip(1)) {
            None => None,
            Some(c) => if 1 + c <= t.len() {
                match spec_scan_unpack_tail(t.skip((1 + c) as int), total_out, nf) {
                    None => None,
                    Some(c2) => Some(1 + c + c2),
                }
            } else {
                None
            },
        },
    }
}

/// Walk of an `UnpackInfo` block at the start of `s`: bytes used and the
/// folder count, which must fit in `usize`.
pub open spec fn spec_scan_unpack_info(s: Seq<u8>) -> Option<(nat, nat)> {
    match spec_unpack_head(s) {
        None => None,
        Some((h, nf)) => match spec_scan_folders(s.skip(h as int), nf as nat) {
            None => None,
            Some((offs, tot)) => if nf > usize::MAX {
                None
            } else {
                let end = h + offs.last();
                match spec_scan_unpack_tail(s.skip(end as int), tot, nf as nat) {
                    None => None,
                    Some(c) => Some((end + c, nf as nat)),
                }
            },
        },
    }
}

/// Walk the trailing property list of an `UnpackInfo` block.
#[verifier::rlimit(30)]
fn scan_unpack_tail(input: &[u8], total_out: usize, nf: usize) -> (res: Result<&[u8], ParseError>)
    ensures
        match spec_scan_unpack_tail(input@, total_out as nat, nf as nat) {
            None => res is Err,
            Some(c) => res matches Ok(rem) && rem@ == input@.skip(c as int) && c <= input@.len(),
        },
{
    let mut rem = input;
    let ghost mut k: nat = 0;
    loop
        invariant
            k <= input@.len(),
            rem@ == input@.skip(k as int),
            spec_scan_unpack_tail(input@, total_out as nat, nf as nat) == match spec_scan_unpack_tail(
                rem@,
                total_out as nat,
                nf as nat,
            ) {
                None => None,
                Some(c) => Some(k + c),
            },
        decreases rem@.len(),
    {
        let (r, tag) = Property::parse(rem)?;
        match tag {
            Property::END => {
                proof {
                    lemma_skip_skip(input@, k, 1);
                }
                return Ok(r);
            },
            Property::CodersUnPackSize => {
                let r2 = skip_varints(r, total_out as u64)?;
                proof {
                    let c = spec_repeat(varint_parser(), r@, total_out as nat).unwrap().0;
                    lemma_skip_skip(rem@, 1, c);
                    lemma_skip_skip(input@, k, 1 + c);
                    k = k + 1 + c;
                }
                rem = r2;
            },
            Property::CRC => {
                let (r2, ()) = scan_digests(r, nf)?;
                proof {
                    let c = spec_scan_digests(r@, nf as nat).unwrap();
                    assert(r2@.len() == r@.len() - c);
                    lemma_skip_skip(rem@, 1, c);
                    lemma_skip_skip(input@, k, 1 + c);
                    k = k + 1 + c;
                }
                rem = r2;
            },
            _ => {
                let r2 = skip_block(r)?;
                proof {
                    let c = spec_skip_block(r@).unwrap();
                    lemma_skip_skip(rem@, 1, c);
                    lemma_skip_skip(input@, k, 1 + c);
                    k = k + 1 + c;
                }
                rem = r2;
            },
        }
    }
}

/// Walk an `UnpackInfo` block without building folders; gives the folder count.
pub fn scan_unpack_info(input: &[u8]) -> (res: Result<(&[u8], usize), ParseError>)
    ensures
        match spec_scan_unpack_info(input@) {
            None => res is Err,
            Some((c, nf)) => res matches Ok((rem, n)) && n == nf && rem@ == input@.skip(c as int),
        },
{
    let (folder_start, num_folders) = parse_unpack_head(input)?;
    let ghost h = spec_unpack_head(input@).unwrap().0;
    let (r, offsets, total_out_streams) = scan_folders(folder_start, num_folders)?;
    let ghost offs = spec_scan_folders(folder_start@, num_folders as nat).unwrap().0;
    proof {
        lemma_scan_folders_shape(folder_start@, num_folders as nat);
        lemma_skip_skip(input@, h, offs.last());
    }
    if num_folders > usize::MAX as u64 {
        return Err(ParseError);
    }
    let nf = num_folders as usize;
    let rem = scan_unpack_tail(r, total_out_streams, nf)?;
    proof {
        let c = spec_scan_unpack_tail(r@, total_out_streams as nat, nf as nat).unwrap();
        lemma_skip_skip(input@, h + offs.last(), c);
    }
    Ok((rem, nf))
}

/// A parsed `UnpackInfo` block uses at least its tag byte and records at
/// least the end offset of its folders.
pub proof fn lemma_parse_unpack_info_shape(s: Seq<u8>)
    ensures
        spec_parse_unpack_info(s) matches Some((c, v)) ==> c >= 1 && v.folder_offsets.len() >= 1
            && v.folder_offsets.len() == v.num_folders + 1,
{
    if let Some((h, nf)) = spec_unpack_head(s) {
        lemma_scan_folders_shape(s.skip(h as int), nf as nat);
    }
}

/// A parsed `PackInfo` block uses at least its tag byte.
pub proof fn lemma_parse_pack_info_shape(s: Seq<u8>)
    ensures
        spec_parse_pack_info(s) matches Some((c, _)) ==> c >= 1,
{
}

} // verus!
