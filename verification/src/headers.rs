//! The signature header, the encoded header and the main header.
use crate::crc::{crc32, crc32_of};
use crate::error::{ParseError, R7zError};
use crate::files_info::{spec_parse_files_info, spec_scan_files_info, scan_files_info, FilesInfo, FilesInfoView};
use crate::pack_info::{
    spec_parse_pack_info, spec_parse_unpack_info, spec_skip_block, skip_block, PackInfo,
    PackInfoView, UnpackInfo, UnpackInfoView,
};
use crate::parsers::{le_bytes, le_value, lemma_skip_skip, push_le, read_u32_le, read_u64_le};
use crate::property::{spec_parse_property, Property};
use crate::stream_info::{spec_parse_stream_info, StreamInfo, StreamInfoView};
use vstd::prelude::*;
use vstd::slice::{slice_subrange, slice_to_vec};

verus! {

/// The model of an [`EncodedHeader`].
pub struct EncodedHeaderView {
    pub pack_info: PackInfoView,
    pub unpack_info: UnpackInfoView,
}

/// Parse of an `EncodedHeader` body: a `PackInfo` block, then an `UnpackInfo` block.
pub open spec fn spec_parse_encoded_header(s: Seq<u8>) -> Option<(nat, EncodedHeaderView)> {
    match spec_parse_pack_info(s) {
        None => None,
        Some((c1, p)) => match spec_parse_unpack_info(s.skip(c1 as int)) {
            None => None,
            Some((c2, u)) => Some((c1 + c2, EncodedHeaderView { pack_info: p, unpack_info: u })),
        },
    }
}

/// The outer `EncodedHeader` block that describes where the compressed main header lives.
///
/// Most 7z archives compress their metadata (the `Header`) using LZMA; the
/// `EncodedHeader` provides the [`PackInfo`] and [`UnpackInfo`] needed to locate
/// and decompress it.
#[derive(Debug, PartialEq, Eq)]
pub struct EncodedHeader {
    /// Where the compressed header stream is stored.
    pub pack_info: PackInfo,
    /// How to decompress the header stream.
    pub unpack_info: UnpackInfo,
}

impl View for EncodedHeader {
    type V = EncodedHeaderView;

    open spec fn view(&self) -> EncodedHeaderView {
        EncodedHeaderView { pack_info: self.pack_info@, unpack_info: self.unpack_info@ }
    }
}

impl EncodedHeader {
    /// Parse an `EncodedHeader` block (pack info + unpack info).
    pub fn parse(input: &[u8]) -> (res: Result<(&[u8], EncodedHeader), ParseError>)
        ensures
            match spec_parse_encoded_header(input@) {
                None => res is Err,
                Some((c, v)) => res matches Ok((rem, h)) && h@ == v && rem@ == input@.skip(
                    c as int,
                ) && c <= input@.len(),
            },
    {
        let (r1, pack_info) = PackInfo::parse(input)?;
        let (r2, unpack_info) = UnpackInfo::parse(r1)?;
        proof {
            let c1 = spec_parse_pack_info(input@).unwrap().0;
            let c2 = spec_parse_unpack_info(r1@).unwrap().0;
            lemma_skip_skip(input@, c1, c2);
        }
        Ok((r2, EncodedHeader { pack_info, unpack_info }))
    }
}

/// The model of a [`Header`]: the header bytes, where the streams and files
/// blocks start in them, and the entry count.
pub struct HeaderView {
    pub data: Seq<u8>,
    pub streams_info_start: Option<nat>,
    pub files_info_start: Option<nat>,
    pub num_files: u64,
}

/// The sections of a main header from byte `pos` of `s` on, with what has
/// been recorded so far: `MainStreamsInfo` is followed by a streams block
/// (whose start is recorded), a `FilesInfo` block is walked from its own tag
/// (whose position is recorded with its entry count), every other tag
/// carries a size-prefixed block, `END` stops. Recorded positions must fit
/// in `u32`. Gives the position just after `END`.
pub open spec fn spec_header_tail(
    s: Seq<u8>,
    pos: nat,
    si: Option<nat>,
    fi: Option<nat>,
    nf: u64,
) -> Option<(nat, Option<nat>, Option<nat>, u64)>
    decreases s.len() - pos,
{
    if pos > s.len() {
        None
    } else {
        match spec_parse_property(s.skip(pos as int)) {
            None => None,
            Some(Property::END) => Some((pos + 1, si, fi, nf)),
            Some(Property::MainStreamsInfo) => {
                let p1 = pos + 1;
                if p1 > u32::MAX {
                    None
                } else {
                    match spec_parse_stream_info(s.skip(p1 as int)) {
                        None => None,
                        Some((c, _)) => if p1 + c <= s.len() {
                            spec_header_tail(s, p1 + c, Some(p1), fi, nf)
                        } else {
                            None
                        },
                    }
                }
            },
            Some(Property::FilesInfo) => if pos > u32::MAX {
                None
            } else {
                match spec_scan_files_info(s.skip(pos as int)) {
                    None => None,
                    Some((c, n)) => if 1 <= c && pos + c <= s.len() {
                        spec_header_tail(s, pos + c, si, Some(pos), n)
                    } else {
                        None
                    },
                }
            },
            Some(_) => match spec_skip_block(s.skip((pos + 1) as int)) {
                None => None,
                Some(c) => if pos + 1 + c <= s.len() {
                    spec_header_tail(s, pos + 1 + c, si, fi, nf)
                } else {
                    None
                },
            },
        }
    }
}

/// Parse of a main header: the `Header` tag, then its sections.
pub open spec fn spec_parse_header(s: Seq<u8>) -> Option<(nat, HeaderView)> {
    if spec_parse_property(s) != Some(Property::Header) {
        None
    } else {
        match spec_header_tail(s, 1, None, None, 0) {
            None => None,
            Some((end, si, fi, nf)) => Some(
                (end, HeaderView { data: s, streams_info_start: si, files_info_start: fi, num_files: nf }),
            ),
        }
    }
}

/// A recorded streams block always parses.
pub open spec fn streams_block_parses(v: HeaderView) -> bool {
    v.streams_info_start matches Some(o) ==> o <= v.data.len() && spec_parse_stream_info(
        v.data.skip(o as int),
    ) is Some
}

/// The fully decoded 7z archive header containing stream and file metadata.
///
/// Metadata is validated during [`parse`](Header::parse), and the
/// [`StreamInfo`] and [`FilesInfo`] values are built on request.
#[derive(Debug)]
pub struct Header {
    /// Decompressed header bytes.
    data: Vec<u8>,
    /// Byte offset within `data` where the streams block starts (after the
    /// `MainStreamsInfo` tag).
    streams_info_start: Option<u32>,
    /// Byte offset within `data` where the `FilesInfo` block starts (at its tag).
    files_info_start: Option<u32>,
    /// Number of file entries.
    num_files: u64,
}

/// Model of an optional offset.
pub open spec fn opt_offset(o: Option<u32>) -> Option<nat> {
    match o {
        Some(x) => Some(x as nat),
        None => None,
    }
}

impl View for Header {
    type V = HeaderView;

    closed spec fn view(&self) -> HeaderView {
        HeaderView {
            data: self.data@,
            streams_info_start: opt_offset(self.streams_info_start),
            files_info_start: opt_offset(self.files_info_start),
            num_files: self.num_files,
        }
    }
}

/// The streams descriptor of a header model, when it has one.
pub open spec fn spec_header_streams(v: HeaderView) -> Option<StreamInfoView> {
    match v.streams_info_start {
        None => None,
        Some(o) => if o > v.data.len() {
            None
        } else {
            match spec_parse_stream_info(v.data.skip(o as int)) {
                None => None,
                Some((_, si)) => Some(si),
            }
        },
    }
}

/// The file listing of a header model, when it has one that parses.
pub open spec fn spec_header_files(v: HeaderView) -> Option<FilesInfoView> {
    match v.files_info_start {
        None => None,
        Some(o) => if o > v.data.len() {
            None
        } else {
            match spec_parse_files_info(v.data.skip(o as int)) {
                None => None,
                Some((_, fi)) => Some(fi),
            }
        },
    }
}

impl Header {
    /// Returns the number of file entries in the archive.
    #[must_use]
    pub fn num_files(&self) -> (r: u64)
        ensures
            r == self@.num_files,
    {
        self.num_files
    }

    /// Build the stream descriptor. `None` when the header has no
    /// `MainStreamsInfo` block.
    #[must_use]
    pub fn streams_info(&self) -> (r: Option<StreamInfo>)
        ensures
            match spec_header_streams(self@) {
                None => r is None,
                Some(v) => r matches Some(si) && si@ == v,
            },
    {
        match self.streams_info_start {
            None => None,
            Some(off) => {
                let off = off as usize;
                if off > self.data.len() {
                    return None;
                }
                match StreamInfo::parse(slice_subrange(self.data.as_slice(), off, self.data.len())) {
                    Ok((_, si)) => Some(si),
                    Err(_) => None,
                }
            },
        }
    }

    /// Build the file listing. `None` when the header has no `FilesInfo`
    /// block, or when that block does not parse in full.
    #[must_use]
    pub fn files_info(&self) -> (r: Option<FilesInfo>)
        ensures
            match spec_header_files(self@) {
                None => r is None,
                Some(v) => r matches Some(fi) && fi@ == v,
            },
    {
        match self.files_info_start {
            None => None,
            Some(off) => {
                let off = off as usize;
                if off > self.data.len() {
                    return None;
                }
                match FilesInfo::parse(slice_subrange(self.data.as_slice(), off, self.data.len())) {
                    Ok((_, fi)) => Some(fi),
                    Err(_) => None,
                }
            },
        }
    }

    /// Parse and validate a decompressed 7z header block, which must start
    /// with the `Header` tag.
    #[verifier::rlimit(60)]
    pub fn parse(backing: &[u8]) -> (res: Result<(&[u8], Header), ParseError>)
        ensures
            match spec_parse_header(backing@) {
                None => res is Err,
                Some((c, v)) => res matches Ok((rem, h)) && h@ == v && rem@ == backing@.skip(
                    c as int,
                ) && c <= backing@.len() && streams_block_parses(h@),
            },
    {
        let (r0, tag) = Property::parse(backing)?;
        if tag != Property::Header {
            return Err(ParseError);
        }
        let mut streams_info_start: Option<u32> = None;
        let mut files_info_start: Option<u32> = None;
        let mut num_files: u64 = 0;
        let mut rem = r0;
        let mut pos: usize = 1;
        let total = backing.len();
        loop
            invariant
                pos <= backing@.len(),
                total == backing@.len(),
                rem@ == backing@.skip(pos as int),
                spec_parse_property(backing@) == Some(Property::Header),
                spec_parse_header(backing@) == match spec_header_tail(
                    backing@,
                    pos as nat,
                    opt_offset(streams_info_start),
                    opt_offset(files_info_start),
                    num_files,
                ) {
                    None => None,
                    Some((end, si, fi, nf)) => Some(
                        (
                            end,
                            HeaderView {
                                data: backing@,
                                streams_info_start: si,
                                files_info_start: fi,
                                num_files: nf,
                            },
                        ),
                    ),
                },
                streams_block_parses(
                    HeaderView {
                        data: backing@,
                        streams_info_start: opt_offset(streams_info_start),
                        files_info_start: opt_offset(files_info_start),
                        num_files,
                    },
                ),
            decreases backing@.len() - pos,
        {
            let (r, tag) = Property::parse(rem)?;
            assert(rem@.len() == backing@.len() - pos);
            assert(r@.len() == rem@.len() - 1);
            match tag {
                Property::END => {
                    proof {
                        lemma_skip_skip(backing@, pos as nat, 1);
                    }
                    let data = slice_to_vec(backing);
                    let header = Header { data, streams_info_start, files_info_start, num_files };
                    return Ok((r, header));
                },
                Property::MainStreamsInfo => {
                    let p1 = pos + 1;
                    if p1 > u32::MAX as usize {
                        return Err(ParseError);
                    }
                    proof {
                        lemma_skip_skip(backing@, pos as nat, 1);
                    }
                    let (r2, si) = StreamInfo::parse(r)?;
                    let ghost c = spec_parse_stream_info(r@).unwrap().0;
                    assert(r2@.len() == r@.len() - c);
                    proof {
                        lemma_skip_skip(backing@, p1 as nat, c);
                    }
                    streams_info_start = Some(p1 as u32);
                    pos = p1 + (r.len() - r2.len());
                    rem = r2;
                },
                Property::FilesInfo => {
                    if pos > u32::MAX as usize {
                        return Err(ParseError);
                    }
                    proof {
                        crate::files_info::lemma_scan_files_info_shape(rem@);
                    }
                    let (r2, nf) = scan_files_info(rem)?;
                    let ghost c = spec_scan_files_info(rem@).unwrap().0;
                    proof {
                        lemma_skip_skip(backing@, pos as nat, c);
                    }
                    files_info_start = Some(pos as u32);
                    num_files = nf;
                    pos = pos + (rem.len() - r2.len());
                    rem = r2;
                },
                _ => {
                    proof {
                        lemma_skip_skip(backing@, pos as nat, 1);
                    }
                    let r2 = skip_block(r)?;
                    let ghost c = spec_skip_block(r@).unwrap();
                    assert(r2@.len() == r@.len() - c);
                    proof {
                        lemma_skip_skip(backing@, (pos + 1) as nat, c);
                    }
                    pos = pos + 1 + (r.len() - r2.len());
                    rem = r2;
                },
            }
        }
    }
}

/// The model of a [`SignatureHeader`].
pub struct SignatureHeaderView {
    pub signature: Seq<u8>,
    pub major_version: u8,
    pub minor_version: u8,
    pub start_header_crc: u32,
    pub next_header_offset: u64,
    pub next_header_size: u64,
    pub next_header_crc: u32,
}

/// The 32-byte signature header at the start of `s`: six signature bytes,
/// two version bytes, then little-endian CRC (4), offset (8), size (8) and
/// CRC (4).
pub open spec fn spec_signature_header(s: Seq<u8>) -> SignatureHeaderView {
    SignatureHeaderView {
        signature: s.subrange(0, 6),
        major_version: s[6],
        minor_version: s[7],
        start_header_crc: le_value(s.subrange(8, 12)) as u32,
        next_header_offset: le_value(s.subrange(12, 20)) as u64,
        next_header_size: le_value(s.subrange(20, 28)) as u64,
        next_header_crc: le_value(s.subrange(28, 32)) as u32,
    }
}

/// The 20 bytes covered by the start-header CRC: offset, size and CRC of
/// the next header, little-endian.
pub open spec fn start_header_bytes(offset: u64, size: u64, crc: u32) -> Seq<u8> {
    le_bytes(offset as nat, 8) + le_bytes(size as nat, 8) + le_bytes(crc as nat, 4)
}

/// The 32-byte fixed-size header at the start of every 7z archive.
///
/// Contains the magic bytes, format version, and the location and CRC of the
/// next header (either an [`EncodedHeader`] or a plain `Header`).
#[derive(Debug, PartialEq, Eq)]
pub struct SignatureHeader {
    /// Magic bytes: `37 7a bc af 27 1c`.
    pub signature: [u8; 6],
    /// Format major version (always `0x00`).
    pub major_version: u8,
    /// Format minor version (typically `0x04`).
    pub minor_version: u8,
    /// CRC32 of the 20-byte start-header fields that follow.
    pub start_header_crc: u32,
    /// Byte offset from the end of this 32-byte header to the next header block.
    pub next_header_offset: u64,
    /// Byte length of the next header block.
    pub next_header_size: u64,
    /// CRC32 of the next header block.
    pub next_header_crc: u32,
}

impl View for SignatureHeader {
    type V = SignatureHeaderView;

    open spec fn view(&self) -> SignatureHeaderView {
        SignatureHeaderView {
            signature: self.signature@,
            major_version: self.major_version,
            minor_version: self.minor_version,
            start_header_crc: self.start_header_crc,
            next_header_offset: self.next_header_offset,
            next_header_size: self.next_header_size,
            next_header_crc: self.next_header_crc,
        }
    }
}

impl SignatureHeader {
    /// Validate the CRC over the 20-byte `StartHeader` (offset+size+crc).
    pub fn validate_start_header_crc(&self) -> (r: Result<(), R7zError>)
        ensures
            r is Ok <==> crc32(
                start_header_bytes(
                    self.next_header_offset,
                    self.next_header_size,
                    self.next_header_crc,
                ),
            ) == self.start_header_crc,
            r is Err ==> r == Err::<(), R7zError>(R7zError::Crc),
    {
        let mut buf: Vec<u8> = Vec::new();
        push_le(&mut buf, self.next_header_offset, 8);
        push_le(&mut buf, self.next_header_size, 8);
        push_le(&mut buf, self.next_header_crc as u64, 4);
        proof {
            assert(buf@ =~= start_header_bytes(
                self.next_header_offset,
                self.next_header_size,
                self.next_header_crc,
            ));
        }
        let computed = crc32_of(buf.as_slice());
        if computed == self.start_header_crc {
            Ok(())
        } else {
            Err(R7zError::Crc)
        }
    }

    /// Parse the 32-byte `SignatureHeader` from the start of a 7z archive.
    pub fn parse(input: &[u8]) -> (res: Result<(&[u8], SignatureHeader), ParseError>)
        ensures
            input@.len() < 32 ==> res is Err,
            input@.len() >= 32 ==> (res matches Ok((rem, h)) && rem@ == input@.skip(32) && h@
                == spec_signature_header(input@)),
    {
        if input.len() < 32 {
            return Err(ParseError);
        }
        let signature: [u8; 6] = [input[0], input[1], input[2], input[3], input[4], input[5]];
        let start_header_crc = read_u32_le(input, 8);
        let next_header_offset = read_u64_le(input, 12);
        let next_header_size = read_u64_le(input, 20);
        let next_header_crc = read_u32_le(input, 28);
        let header = SignatureHeader {
            signature,
            major_version: input[6],
            minor_version: input[7],
            start_header_crc,
            next_header_offset,
            next_header_size,
            next_header_crc,
        };
        proof {
            assert(header@.signature =~= input@.subrange(0, 6));
        }
        Ok((slice_subrange(input, 32, input.len()), header))
    }
}

} // verus!
