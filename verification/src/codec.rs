//! Decoding coders and folders: Copy, LZMA, LZMA2 and the ARM, ARMT, PPC,
//! SPARC and IA64 branch filters (through `lzma-rust2`), PPMd (through
//! `ppmd-rust`), Deflate (through `miniz_oxide`), Deflate64 (through
//! `deflate64`), BZip2 (through `bzip2`), the x86 BCJ, Delta and
//! Swap2/Swap4 filters and 7zAES, chained along a folder's bind pairs.
use crate::aes::{aes256_cbc_decrypt, decrypt_aes256_cbc, derive_key, spec_derive_key, spec_parse_aes_properties, AesProperties};
use crate::bcj::{bcj_x86_decode, spec_bcj_x86_convert};
use crate::coder_info::{CoderInfo, CoderInfoView};
use crate::error::R7zError;
use crate::folder::{Folder, FolderView};
use crate::method::{bytes_equal, spec_method_id, SevenZMethod};
use crate::parsers::le_value;
use crate::delta::{spec_delta_decode, DeltaReader};
use crate::byte_swap::{spec_byte_swap, ByteSwapReader};
use vstd::prelude::*;
use vstd::slice::slice_to_vec;

verus! {

/// What raw LZMA decoding (`lzma_rust2::LzmaReader` with explicit
/// properties) gives for these compressed bytes, output size, properties
/// byte and dictionary size: the output, or `None` when it fails.
pub uninterp spec fn lzma_decode(input: Seq<u8>, unpack_size: u64, props: u8, dict_size: u32) -> Option<Seq<u8>>;

/// What LZMA2 decoding (`lzma_rust2::Lzma2Reader`) gives for these bytes and
/// dictionary size: the output, or `None` when it fails.
pub uninterp spec fn lzma2_decode(input: Seq<u8>, dict_size: u32) -> Option<Seq<u8>>;

/// Decode raw LZMA with `LzmaReader::new_with_props`, reading to the end.
#[verifier::external_body]
fn lzma_decode_raw(input: &[u8], unpack_size: u64, props: u8, dict_size: u32) -> (r: Option<Vec<u8>>)
    ensures
        match lzma_decode(input@, unpack_size, props, dict_size) {
            None => r is None,
            Some(v) => r matches Some(x) && x@ == v,
        },
{
    let cursor = std::io::Cursor::new(input);
    let mut reader = match lzma_rust2::LzmaReader::new_with_props(cursor, unpack_size, props, dict_size, None) {
        Ok(reader) => reader,
        Err(_) => return None,
    };
    let mut out = Vec::new();
    match std::io::Read::read_to_end(&mut reader, &mut out) {
        Ok(_) => Some(out),
        Err(_) => None,
    }
}

/// Decode LZMA2 with `Lzma2Reader::new`, reading to the end.
#[verifier::external_body]
fn lzma2_decode_raw(input: &[u8], dict_size: u32) -> (r: Option<Vec<u8>>)
    ensures
        match lzma2_decode(input@, dict_size) {
            None => r is None,
            Some(v) => r matches Some(x) && x@ == v,
        },
{
    let mut reader = lzma_rust2::Lzma2Reader::new(std::io::Cursor::new(input), dict_size, None);
    let mut out = Vec::new();
    match std::io::Read::read_to_end(&mut reader, &mut out) {
        Ok(_) => Some(out),
        Err(_) => None,
    }
}

/// What PPMd (variant H, 7z range coder) decoding with
/// `ppmd_rust::Ppmd7Decoder` of this order and memory size gives when at
/// most `unpack_size` bytes are read: the output, or `None` when the
/// parameters are refused or reading fails.
pub uninterp spec fn ppmd_decode(input: Seq<u8>, order: u32, mem_size: u32, unpack_size: u64) -> Option<Seq<u8>>;

/// What `lzma_rust2::filter::bcj::BcjReader::new_arm` (start 0) gives when
/// read to the end over these bytes, or `None` when reading fails.
pub uninterp spec fn bcj_arm_decode(input: Seq<u8>) -> Option<Seq<u8>>;

/// As [`bcj_arm_decode`], with `BcjReader::new_arm_thumb`.
pub uninterp spec fn bcj_arm_thumb_decode(input: Seq<u8>) -> Option<Seq<u8>>;

/// As [`bcj_arm_decode`], with `BcjReader::new_ppc`.
pub uninterp spec fn bcj_ppc_decode(input: Seq<u8>) -> Option<Seq<u8>>;

/// As [`bcj_arm_decode`], with `BcjReader::new_sparc`.
pub uninterp spec fn bcj_sparc_decode(input: Seq<u8>) -> Option<Seq<u8>>;

/// As [`bcj_arm_decode`], with `BcjReader::new_ia64`.
pub uninterp spec fn bcj_ia64_decode(input: Seq<u8>) -> Option<Seq<u8>>;

/// Decode PPMd with `Ppmd7Decoder::new`, reading at most `unpack_size` bytes.
#[verifier::external_body]
fn ppmd_decode_raw(input: &[u8], order: u32, mem_size: u32, unpack_size: u64) -> (r: Option<Vec<u8>>)
    ensures
        match ppmd_decode(input@, order, mem_size, unpack_size) {
            None => r is None,
            Some(v) => r matches Some(x) && x@ == v,
        },
{
    let decoder = ppmd_rust::Ppmd7Decoder::new(std::io::Cursor::new(input), order, mem_size).ok()?;
    let mut out = Vec::new();
    std::io::Read::read_to_end(&mut std::io::Read::take(decoder, unpack_size), &mut out).ok()?;
    Some(out)
}

/// Undo the ARM branch filter with `BcjReader::new_arm`, reading to the end.
#[verifier::external_body]
fn bcj_arm_decode_raw(input: &[u8]) -> (r: Option<Vec<u8>>)
    ensures
        match bcj_arm_decode(input@) {
            None => r is None,
            Some(v) => r matches Some(x) && x@ == v,
        },
{
    let mut reader = lzma_rust2::filter::bcj::BcjReader::new_arm(std::io::Cursor::new(input), 0);
    let mut out = Vec::new();
    std::io::Read::read_to_end(&mut reader, &mut out).ok()?;
    Some(out)
}

/// Undo the ARM Thumb branch filter with `BcjReader::new_arm_thumb`.
#[verifier::external_body]
fn bcj_arm_thumb_decode_raw(input: &[u8]) -> (r: Option<Vec<u8>>)
    ensures
        match bcj_arm_thumb_decode(input@) {
            None => r is None,
            Some(v) => r matches Some(x) && x@ == v,
        },
{
    let mut reader = lzma_rust2::filter::bcj::BcjReader::new_arm_thumb(std::io::Cursor::new(input), 0);
    let mut out = Vec::new();
    std::io::Read::read_to_end(&mut reader, &mut out).ok()?;
    Some(out)
}

/// Undo the PowerPC branch filter with `BcjReader::new_ppc`.
#[verifier::external_body]
fn bcj_ppc_decode_raw(input: &[u8]) -> (r: Option<Vec<u8>>)
    ensures
        match bcj_ppc_decode(input@) {
            None => r is None,
            Some(v) => r matches Some(x) && x@ == v,
        },
{
    let mut reader = lzma_rust2::filter::bcj::BcjReader::new_ppc(std::io::Cursor::new(input), 0);
    let mut out = Vec::new();
    std::io::Read::read_to_end(&mut reader, &mut out).ok()?;
    Some(out)
}

/// Undo the SPARC branch filter with `BcjReader::new_sparc`.
#[verifier::external_body]
fn bcj_sparc_decode_raw(input: &[u8]) -> (r: Option<Vec<u8>>)
    ensures
        match bcj_sparc_decode(input@) {
            None => r is None,
            Some(v) => r matches Some(x) && x@ == v,
        },
{
    let mut reader = lzma_rust2::filter::bcj::BcjReader::new_sparc(std::io::Cursor::new(input), 0);
    let mut out = Vec::new();
    std::io::Read::read_to_end(&mut reader, &mut out).ok()?;
    Some(out)
}

/// Undo the IA-64 branch filter with `BcjReader::new_ia64`.
#[verifier::external_body]
fn bcj_ia64_decode_raw(input: &[u8]) -> (r: Option<Vec<u8>>)
    ensures
        match bcj_ia64_decode(input@) {
            None => r is None,
            Some(v) => r matches Some(x) && x@ == v,
        },
{
    let mut reader = lzma_rust2::filter::bcj::BcjReader::new_ia64(std::io::Cursor::new(input), 0);
    let mut out = Vec::new();
    std::io::Read::read_to_end(&mut reader, &mut out).ok()?;
    Some(out)
}

/// What raw Deflate decoding with `miniz_oxide::inflate::decompress_to_vec_with_limit`
/// gives with an output limit of `limit` bytes, or `None` when it fails.
pub uninterp spec fn deflate_decode(input: Seq<u8>, limit: u64) -> Option<Seq<u8>>;

/// What `deflate64::Deflate64Decoder` gives when at most `limit` bytes are
/// read, or `None` when reading fails.
pub uninterp spec fn deflate64_decode(input: Seq<u8>, limit: u64) -> Option<Seq<u8>>;

/// What `bzip2::read::BzDecoder` gives when at most `limit` bytes are read,
/// or `None` when reading fails.
pub uninterp spec fn bzip2_decode(input: Seq<u8>, limit: u64) -> Option<Seq<u8>>;

/// Decode raw Deflate with `decompress_to_vec_with_limit`.
#[verifier::external_body]
fn deflate_decode_raw(input: &[u8], limit: u64) -> (r: Option<Vec<u8>>)
    ensures
        match deflate_decode(input@, limit) {
            None => r is None,
            Some(v) => r matches Some(x) && x@ == v,
        },
{
    miniz_oxide::inflate::decompress_to_vec_with_limit(input, limit as usize).ok()
}

/// Decode Deflate64 with `Deflate64Decoder::new`, reading at most `limit` bytes.
#[verifier::external_body]
fn deflate64_decode_raw(input: &[u8], limit: u64) -> (r: Option<Vec<u8>>)
    ensures
        match deflate64_decode(input@, limit) {
            None => r is None,
            Some(v) => r matches Some(x) && x@ == v,
        },
{
    let decoder = deflate64::Deflate64Decoder::new(std::io::Cursor::new(input));
    let mut out = Vec::new();
    std::io::Read::read_to_end(&mut std::io::Read::take(decoder, limit), &mut out).ok()?;
    Some(out)
}

/// Decode BZip2 with `bzip2::read::BzDecoder::new`, reading at most `limit` bytes.
#[verifier::external_body]
fn bzip2_decode_raw(input: &[u8], limit: u64) -> (r: Option<Vec<u8>>)
    ensures
        match bzip2_decode(input@, limit) {
            None => r is None,
            Some(v) => r matches Some(x) && x@ == v,
        },
{
    let decoder = bzip2::read::BzDecoder::new(std::io::Cursor::new(input));
    let mut out = Vec::new();
    std::io::Read::read_to_end(&mut std::io::Read::take(decoder, limit), &mut out).ok()?;
    Some(out)
}

/// The outcome of a decoder that must give exactly `n` bytes.
pub open spec fn sized_result(out: Option<Seq<u8>>, n: u64) -> DecodeResult {
    match out {
        Some(o) => if o.len() == n {
            DecodeResult::Data(o)
        } else {
            DecodeResult::Failure(R7zError::Decompression)
        },
        None => DecodeResult::Failure(R7zError::Decompression),
    }
}

fn sized_output(out: Option<Vec<u8>>, n: u64) -> (r: Result<Vec<u8>, R7zError>)
    ensures
        result_is(r, sized_result(opt_vec_bytes(out), n)),
{
    match out {
        Some(o) => if o.len() as u64 == n {
            Ok(o)
        } else {
            Err(R7zError::Decompression)
        },
        None => Err(R7zError::Decompression),
    }
}

/// The outcome of decoding: bytes, an error, or an unknown codec identifier.
pub enum DecodeResult {
    Data(Seq<u8>),
    Failure(R7zError),
    Unsupported(Seq<u8>),
}

/// `r` is the executable form of `d`.
pub open spec fn result_is(r: Result<Vec<u8>, R7zError>, d: DecodeResult) -> bool {
    match d {
        DecodeResult::Data(s) => r matches Ok(v) && v@ == s,
        DecodeResult::Failure(e) => r == Err::<Vec<u8>, R7zError>(e),
        DecodeResult::Unsupported(id) => r matches Err(R7zError::UnsupportedCodec(v)) && v@ == id,
    }
}

/// Model of optional property bytes.
pub open spec fn opt_bytes(p: Option<&[u8]>) -> Option<Seq<u8>> {
    match p {
        Some(b) => Some(b@),
        None => None,
    }
}

/// The LZMA2 dictionary size the properties byte encodes:
/// `(2 | (p & 1)) << (p / 2 + 11)` for `p < 40`, else `u32::MAX`; a missing
/// byte counts as 40.
pub open spec fn spec_lzma2_dict_size(props: Option<Seq<u8>>) -> u32 {
    let p: u8 = match props {
        Some(b) => if b.len() > 0 {
            b[0]
        } else {
            40
        },
        None => 40,
    };
    if p >= 40 {
        u32::MAX
    } else {
        (2u32 | (p as u32 & 1u32)) << ((p as u32 >> 1u32) + 11u32)
    }
}

/// Decode the LZMA2 dictionary size from the 7z properties byte.
pub fn lzma2_dict_size(props: Option<&[u8]>) -> (r: u32)
    ensures
        r == spec_lzma2_dict_size(opt_bytes(props)),
{
    let p: u8 = match props {
        Some(b) => if b.len() > 0 {
            b[0]
        } else {
            40
        },
        None => 40,
    };
    if p >= 40 {
        u32::MAX
    } else {
        assert(((p as u32 >> 1u32) + 11u32) < 32) by (bit_vector)
            requires
                p < 40,
        ;
        (2u32 | (p as u32 & 1)) << ((p as u32 >> 1) + 11)
    }
}

/// The outcome of a branch filter's decoder.
pub open spec fn filter_result(out: Option<Seq<u8>>) -> DecodeResult {
    match out {
        Some(o) => DecodeResult::Data(o),
        None => DecodeResult::Failure(R7zError::Decompression),
    }
}

/// Decoding with a single codec given by identifier `id`.
pub open spec fn spec_decompress(id: Seq<u8>, props: Option<Seq<u8>>, input: Seq<u8>, unpack_size: u64) -> DecodeResult {
    if id == spec_method_id(SevenZMethod::Copy) {
        DecodeResult::Data(input)
    } else if id == spec_method_id(SevenZMethod::Lzma) {
        match props {
            None => DecodeResult::Failure(R7zError::Decompression),
            Some(p) => if p.len() != 5 {
                DecodeResult::Failure(R7zError::Decompression)
            } else {
                match lzma_decode(input, unpack_size, p[0], le_value(p.subrange(1, 5)) as u32) {
                    None => DecodeResult::Failure(R7zError::Decompression),
                    Some(out) => DecodeResult::Data(out),
                }
            },
        }
    } else if id == spec_method_id(SevenZMethod::Lzma2) {
        match lzma2_decode(input, spec_lzma2_dict_size(props)) {
            None => DecodeResult::Failure(R7zError::Decompression),
            Some(out) => DecodeResult::Data(out),
        }
    } else if id == spec_method_id(SevenZMethod::Bcj) {
        DecodeResult::Data(spec_bcj_x86_convert(input, 0, 0, false).0)
    } else if id == spec_method_id(SevenZMethod::Ppmd) {
        match props {
            None => DecodeResult::Failure(R7zError::Decompression),
            Some(p) => if p.len() != 5 {
                DecodeResult::Failure(R7zError::Decompression)
            } else {
                match ppmd_decode(input, p[0] as u32, le_value(p.subrange(1, 5)) as u32, unpack_size) {
                    Some(out) => if out.len() == unpack_size {
                        DecodeResult::Data(out)
                    } else {
                        DecodeResult::Failure(R7zError::Decompression)
                    },
                    None => DecodeResult::Failure(R7zError::Decompression),
                }
            },
        }
    } else if id == spec_method_id(SevenZMethod::Delta) {
        match props {
            Some(p) => if p.len() == 1 {
                DecodeResult::Data(spec_delta_decode(input, (p[0] + 1) as nat))
            } else {
                DecodeResult::Failure(R7zError::Decompression)
            },
            None => DecodeResult::Failure(R7zError::Decompression),
        }
    } else if id == spec_method_id(SevenZMethod::Swap2) {
        DecodeResult::Data(spec_byte_swap(input, 2))
    } else if id == spec_method_id(SevenZMethod::Swap4) {
        DecodeResult::Data(spec_byte_swap(input, 4))
    } else if id == spec_method_id(SevenZMethod::Arm) {
        filter_result(bcj_arm_decode(input))
    } else if id == spec_method_id(SevenZMethod::ArmThumb) {
        filter_result(bcj_arm_thumb_decode(input))
    } else if id == spec_method_id(SevenZMethod::Ppc) {
        filter_result(bcj_ppc_decode(input))
    } else if id == spec_method_id(SevenZMethod::Sparc) {
        filter_result(bcj_sparc_decode(input))
    } else if id == spec_method_id(SevenZMethod::Ia64) {
        filter_result(bcj_ia64_decode(input))
    } else if id == spec_method_id(SevenZMethod::Deflate) {
        sized_result(deflate_decode(input, unpack_size), unpack_size)
    } else if id == spec_method_id(SevenZMethod::Deflate64) {
        sized_result(deflate64_decode(input, unpack_size), unpack_size)
    } else if id == spec_method_id(SevenZMethod::BZip2) {
        sized_result(bzip2_decode(input, unpack_size), unpack_size)
    } else if id == spec_method_id(SevenZMethod::SevenZAes) {
        DecodeResult::Failure(R7zError::PasswordRequired)
    } else {
        DecodeResult::Unsupported(id)
    }
}

/// Whether `id` is the identifier of `m`.
fn codec_is(id: &[u8], m: SevenZMethod) -> (r: bool)
    ensures
        r == (id@ == spec_method_id(m)),
{
    let mid = m.id();
    bytes_equal(id, mid.as_slice())
}

fn decompress_lzma(properties: Option<&[u8]>, input: &[u8], unpack_size: u64) -> (r: Result<Vec<u8>, R7zError>)
    ensures
        result_is(r, spec_decompress(spec_method_id(SevenZMethod::Lzma), opt_bytes(properties), input@, unpack_size)),
{
    let props = match properties {
        Some(p) => p,
        None => {
            return Err(R7zError::Decompression);
        },
    };
    if props.len() != 5 {
        return Err(R7zError::Decompression);
    }
    let dict_size = crate::parsers::read_u32_le(props, 1);
    match lzma_decode_raw(input, unpack_size, props[0], dict_size) {
        Some(out) => Ok(out),
        None => Err(R7zError::Decompression),
    }
}

fn decompress_lzma2(properties: Option<&[u8]>, input: &[u8]) -> (r: Result<Vec<u8>, R7zError>)
    ensures
        match lzma2_decode(input@, spec_lzma2_dict_size(opt_bytes(properties))) {
            None => r == Err::<Vec<u8>, R7zError>(R7zError::Decompression),
            Some(out) => r matches Ok(v) && v@ == out,
        },
{
    let dict_size = lzma2_dict_size(properties);
    match lzma2_decode_raw(input, dict_size) {
        Some(out) => Ok(out),
        None => Err(R7zError::Decompression),
    }
}

fn filter_output(out: Option<Vec<u8>>) -> (r: Result<Vec<u8>, R7zError>)
    ensures
        match out {
            Some(o) => r matches Ok(v) && v@ == o@,
            None => r == Err::<Vec<u8>, R7zError>(R7zError::Decompression),
        },
{
    match out {
        Some(o) => Ok(o),
        None => Err(R7zError::Decompression),
    }
}

fn decompress_ppmd(properties: Option<&[u8]>, input: &[u8], unpack_size: u64) -> (r: Result<Vec<u8>, R7zError>)
    ensures
        result_is(r, spec_decompress(spec_method_id(SevenZMethod::Ppmd), opt_bytes(properties), input@, unpack_size)),
{
    let props = match properties {
        Some(p) => p,
        None => {
            return Err(R7zError::Decompression);
        },
    };
    if props.len() != 5 {
        return Err(R7zError::Decompression);
    }
    let mem_size = crate::parsers::read_u32_le(props, 1);
    match ppmd_decode_raw(input, props[0] as u32, mem_size, unpack_size) {
        Some(out) => if out.len() as u64 == unpack_size {
            Ok(out)
        } else {
            Err(R7zError::Decompression)
        },
        None => Err(R7zError::Decompression),
    }
}

fn decompress_delta(properties: Option<&[u8]>, input: &[u8]) -> (r: Result<Vec<u8>, R7zError>)
    ensures
        match opt_bytes(properties) {
            Some(p) => if p.len() == 1 {
                r matches Ok(v) && v@ == spec_delta_decode(input@, (p[0] + 1) as nat)
            } else {
                r == Err::<Vec<u8>, R7zError>(R7zError::Decompression)
            },
            None => r == Err::<Vec<u8>, R7zError>(R7zError::Decompression),
        },
{
    let props = match properties {
        Some(p) => p,
        None => {
            return Err(R7zError::Decompression);
        },
    };
    let mut reader = DeltaReader::new(slice_to_vec(input), props)?;
    let mut buf = slice_to_vec(input);
    let n = reader.read(buf.as_mut_slice());
    proof {
        crate::delta::lemma_delta_prefix_len(input@, (props@[0] + 1) as nat, input@.len());
        assert(n == input@.len());
        assert(buf@.subrange(0, n as int) =~= buf@);
        assert(spec_delta_decode(input@, (props@[0] + 1) as nat).subrange(0, n as int) =~= spec_delta_decode(
            input@,
            (props@[0] + 1) as nat,
        ));
    }
    Ok(buf)
}

/// `input` with the byte order of each `width`-byte group reversed.
fn swap_all(input: &[u8], width: usize) -> (r: Vec<u8>)
    requires
        width == 2 || width == 4,
    ensures
        r@ == spec_byte_swap(input@, width as nat),
{
    let mut reader = ByteSwapReader::new(slice_to_vec(input), width);
    let mut buf = slice_to_vec(input);
    let n = reader.read(buf.as_mut_slice());
    proof {
        assert(n == input@.len());
        assert(buf@.subrange(0, n as int) =~= buf@);
        assert(spec_byte_swap(input@, width as nat).subrange(0, n as int) =~= spec_byte_swap(input@, width as nat));
    }
    buf
}

/// Decompress `input` using the given codec, returning the decompressed bytes.
///
/// * `codec_id`   — codec identifier bytes from `CoderInfo`
/// * `properties` — optional codec properties from `CoderInfo`
/// * `input`      — compressed data (not including any `LZMA_ALONE` header)
/// * `unpack_size`— expected output size
pub fn decompress(codec_id: &[u8], properties: Option<&[u8]>, input: &[u8], unpack_size: u64) -> (r: Result<
    Vec<u8>,
    R7zError,
>)
    ensures
        result_is(r, spec_decompress(codec_id@, opt_bytes(properties), input@, unpack_size)),
{
    if codec_is(codec_id, SevenZMethod::Copy) {
        return Ok(slice_to_vec(input));
    }
    if codec_is(codec_id, SevenZMethod::Lzma) {
        return decompress_lzma(properties, input, unpack_size);
    }
    if codec_is(codec_id, SevenZMethod::Lzma2) {
        return decompress_lzma2(properties, input);
    }
    if codec_is(codec_id, SevenZMethod::Bcj) {
        let mut buf = slice_to_vec(input);
        bcj_x86_decode(buf.as_mut_slice());
        return Ok(buf);
    }
    if codec_is(codec_id, SevenZMethod::Ppmd) {
        return decompress_ppmd(properties, input, unpack_size);
    }
    if codec_is(codec_id, SevenZMethod::Delta) {
        return decompress_delta(properties, input);
    }
    if codec_is(codec_id, SevenZMethod::Swap2) {
        return Ok(swap_all(input, 2));
    }
    if codec_is(codec_id, SevenZMethod::Swap4) {
        return Ok(swap_all(input, 4));
    }
    if codec_is(codec_id, SevenZMethod::Arm) {
        return filter_output(bcj_arm_decode_raw(input));
    }
    if codec_is(codec_id, SevenZMethod::ArmThumb) {
        return filter_output(bcj_arm_thumb_decode_raw(input));
    }
    if codec_is(codec_id, SevenZMethod::Ppc) {
        return filter_output(bcj_ppc_decode_raw(input));
    }
    if codec_is(codec_id, SevenZMethod::Sparc) {
        return filter_output(bcj_sparc_decode_raw(input));
    }
    if codec_is(codec_id, SevenZMethod::Ia64) {
        return filter_output(bcj_ia64_decode_raw(input));
    }
    if codec_is(codec_id, SevenZMethod::Deflate) {
        return sized_output(deflate_decode_raw(input, unpack_size), unpack_size);
    }
    if codec_is(codec_id, SevenZMethod::Deflate64) {
        return sized_output(deflate64_decode_raw(input, unpack_size), unpack_size);
    }
    if codec_is(codec_id, SevenZMethod::BZip2) {
        return sized_output(bzip2_decode_raw(input, unpack_size), unpack_size);
    }
    if codec_is(codec_id, SevenZMethod::SevenZAes) {
        return Err(R7zError::PasswordRequired);
    }
    Err(R7zError::UnsupportedCodec(slice_to_vec(codec_id)))
}

/// Model of an optional password.
pub open spec fn opt_password(p: Option<&str>) -> Option<Seq<char>> {
    match p {
        Some(s) => Some(s@),
        None => None,
    }
}

/// Decoding one coder, with a password for 7zAES.
pub open spec fn spec_decompress_coder(
    c: CoderInfoView,
    input: Seq<u8>,
    unpack_size: u64,
    password: Option<Seq<char>>,
) -> DecodeResult {
    if c.codec_id == spec_method_id(SevenZMethod::SevenZAes) {
        match password {
            None => DecodeResult::Failure(R7zError::PasswordRequired),
            Some(pwd) => match c.properties {
                None => DecodeResult::Failure(R7zError::Decompression),
                Some(props) => match spec_parse_aes_properties(props) {
                    None => DecodeResult::Failure(R7zError::Decompression),
                    Some(a) => if input.len() % 16 != 0 {
                        DecodeResult::Failure(R7zError::Decompression)
                    } else {
                        DecodeResult::Data(
                            aes256_cbc_decrypt(
                                input,
                                spec_derive_key(pwd, a.salt, a.num_cycles_power),
                                a.iv,
                            ),
                        )
                    },
                },
            },
        }
    } else {
        spec_decompress(c.codec_id, c.properties, input, unpack_size)
    }
}

/// Model of optional owned property bytes.
pub open spec fn opt_vec_bytes(p: Option<Vec<u8>>) -> Option<Seq<u8>> {
    match p {
        Some(b) => Some(b@),
        None => None,
    }
}

/// Decompress or decrypt a single coder, with optional password for AES.
pub(crate) fn decompress_coder(coder: &CoderInfo, input: &[u8], unpack_size: u64, password: Option<&str>) -> (r: Result<
    Vec<u8>,
    R7zError,
>)
    ensures
        result_is(r, spec_decompress_coder(coder@, input@, unpack_size, opt_password(password))),
{
    if codec_is(coder.codec_id.as_slice(), SevenZMethod::SevenZAes) {
        let pwd = match password {
            Some(p) => p,
            None => {
                return Err(R7zError::PasswordRequired);
            },
        };
        let props_bytes = match &coder.properties {
            Some(p) => p.as_slice(),
            None => {
                return Err(R7zError::Decompression);
            },
        };
        let props = AesProperties::parse(props_bytes)?;
        let ncp = props.num_cycles_power;
        let b0 = props_bytes[0];
        assert(ncp <= 63) by (bit_vector)
            requires
                ncp == b0 & 0x3Fu8,
        ;
        let key = derive_key(pwd, props.salt.as_slice(), props.num_cycles_power);
        return decrypt_aes256_cbc(input, &key, &props.iv);
    }
    let props: Option<&[u8]> = match &coder.properties {
        Some(p) => Some(p.as_slice()),
        None => None,
    };
    decompress(coder.codec_id.as_slice(), props, input, unpack_size)
}

/// Whether any bind pair takes its input from stream `s`.
pub open spec fn bound_as_input(bps: Seq<(u64, u64)>, s: u64) -> bool {
    exists|j: int| 0 <= j < bps.len() && bps[j].0 == s
}

/// The streams `0..n` no bind pair takes as input.
pub open spec fn unbound_streams(bps: Seq<(u64, u64)>, n: nat) -> Seq<u64>
    decreases n,
{
    if n == 0 {
        Seq::empty()
    } else {
        let rest = unbound_streams(bps, (n - 1) as nat);
        if bound_as_input(bps, (n - 1) as u64) {
            rest
        } else {
            rest.push((n - 1) as u64)
        }
    }
}

/// Whether a bind pair's output stream is `s`.
pub open spec fn output_is(s: u64) -> spec_fn((u64, u64)) -> bool {
    |bp: (u64, u64)| bp.1 == s
}

/// The bind pairs whose output stream is `s`.
pub open spec fn pairs_from(bps: Seq<(u64, u64)>, s: u64) -> Seq<(u64, u64)> {
    bps.filter(output_is(s))
}

/// Following bind pairs from the last coder of `order` until all `n`
/// coders are placed: the next coder is the input of the one pair whose
/// output is the current stream; a coder may not repeat.
pub open spec fn follow_chain(bps: Seq<(u64, u64)>, n: nat, order: Seq<nat>, current: u64) -> Option<Seq<nat>>
    decreases n - order.len(),
{
    if order.len() >= n {
        Some(order)
    } else {
        let m = pairs_from(bps, current);
        if m.len() != 1 {
            None
        } else {
            let next = m[0].0;
            if order.contains(next as nat) {
                None
            } else {
                follow_chain(bps, n, order.push(next as nat), next)
            }
        }
    }
}

/// The order in which a folder's coders run: the coder that takes the
/// packed stream first, then along the bind pairs. Only chains of
/// one-in/one-out coders joined by `n - 1` pairs within range are accepted.
pub open spec fn spec_coder_execution_order(f: FolderView) -> Option<Seq<nat>> {
    let n = f.coders.len();
    if n <= 1 {
        Some(Seq::new(n, |i: int| i as nat))
    } else if exists|j: int|
        0 <= j < n && (#[trigger] f.coders[j].num_in_streams != 1 || f.coders[j].num_out_streams
            != 1) {
        None
    } else if f.bind_pairs.len() != n - 1 {
        None
    } else if exists|j: int|
        0 <= j < f.bind_pairs.len() && (#[trigger] f.bind_pairs[j].0 >= n || f.bind_pairs[j].1 >= n) {
        None
    } else {
        let start: Option<u64> = if f.packed_indices.len() == 0 {
            let starts = unbound_streams(f.bind_pairs, n);
            if starts.len() != 1 {
                None
            } else {
                Some(starts[0])
            }
        } else if f.packed_indices.len() == 1 {
            let s = f.packed_indices[0];
            if s >= n || bound_as_input(f.bind_pairs, s) {
                None
            } else {
                Some(s)
            }
        } else {
            None
        };
        match start {
            None => None,
            Some(s) => follow_chain(f.bind_pairs, n, seq![s as nat], s),
        }
    }
}

/// Whether some bind pair takes stream `s` as input.
fn is_bound_input(bps: &Vec<(u64, u64)>, s: u64) -> (r: bool)
    ensures
        r == bound_as_input(bps@, s),
{
    let mut j: usize = 0;
    while j < bps.len()
        invariant
            j <= bps@.len(),
            forall|q: int| 0 <= q < j ==> bps@[q].0 != s,
        decreases bps@.len() - j,
    {
        if bps[j].0 == s {
            return true;
        }
        j = j + 1;
    }
    false
}

/// The input streams of the bind pairs whose output stream is `s`.
fn pairs_from_exec(bps: &Vec<(u64, u64)>, s: u64) -> (r: Vec<(u64, u64)>)
    ensures
        r@ == pairs_from(bps@, s),
{
    let mut r: Vec<(u64, u64)> = Vec::new();
    let mut j: usize = 0;
    proof {
        reveal(Seq::filter);
        assert(bps@.take(0).filter(output_is(s)) =~= Seq::<(u64, u64)>::empty());
    }
    while j < bps.len()
        invariant
            j <= bps@.len(),
            r@ == bps@.take(j as int).filter(output_is(s)),
        decreases bps@.len() - j,
    {
        proof {
            reveal(Seq::filter);
            assert(bps@.take(j + 1).drop_last() =~= bps@.take(j as int));
        }
        if bps[j].1 == s {
            r.push(bps[j]);
        }
        j = j + 1;
    }
    proof {
        assert(bps@.take(bps@.len() as int) =~= bps@);
    }
    r
}

/// Streams left unbound lie below `n`.
proof fn lemma_unbound_streams_below(bps: Seq<(u64, u64)>, n: nat)
    ensures
        forall|q: int| 0 <= q < unbound_streams(bps, n).len() ==> #[trigger] unbound_streams(bps, n)[q] < n,
    decreases n,
{
    if n > 0 {
        lemma_unbound_streams_below(bps, (n - 1) as nat);
        let rest = unbound_streams(bps, (n - 1) as nat);
        assert forall|q: int| 0 <= q < unbound_streams(bps, n).len() implies #[trigger] unbound_streams(
            bps,
            n,
        )[q] < n by {
            if q < rest.len() {
                assert(rest[q] < n - 1);
            }
        }
    }
}

/// Following in-range bind pairs from in-range coders stays in range.
proof fn lemma_follow_chain_below(bps: Seq<(u64, u64)>, n: nat, order: Seq<nat>, current: u64)
    requires
        forall|q: int| 0 <= q < bps.len() ==> (#[trigger] bps[q]).0 < n,
        forall|q: int| 0 <= q < order.len() ==> #[trigger] order[q] < n,
    ensures
        follow_chain(bps, n, order, current) matches Some(o) ==> forall|q: int|
            0 <= q < o.len() ==> #[trigger] o[q] < n,
    decreases n - order.len(),
{
    if order.len() < n {
        let m = pairs_from(bps, current);
        if m.len() == 1 {
            let next = m[0].0;
            assert(m.contains(m[0]));
            bps.lemma_filter_contains_rev(output_is(current), m[0]);
            if !order.contains(next as nat) {
                let o2 = order.push(next as nat);
                assert forall|q: int| 0 <= q < o2.len() implies #[trigger] o2[q] < n by {
                    if q < order.len() {
                        assert(o2[q] == order[q]);
                    }
                }
                lemma_follow_chain_below(bps, n, o2, next);
            }
        }
    }
}

/// Every coder index in an execution order is a coder of the folder.
pub proof fn lemma_execution_order_in_range(f: FolderView)
    ensures
        spec_coder_execution_order(f) matches Some(o) ==> forall|q: int|
            0 <= q < o.len() ==> #[trigger] o[q] < f.coders.len(),
{
    let n = f.coders.len();
    if n > 1 && f.bind_pairs.len() == n - 1 && !(exists|j: int|
        0 <= j < f.bind_pairs.len() && (#[trigger] f.bind_pairs[j].0 >= n || f.bind_pairs[j].1 >= n)) {
        lemma_unbound_streams_below(f.bind_pairs, n);
        let starts = unbound_streams(f.bind_pairs, n);
        if f.packed_indices.len() == 0 && starts.len() == 1 {
            lemma_follow_chain_below(f.bind_pairs, n, seq![starts[0] as nat], starts[0]);
        } else if f.packed_indices.len() == 1 && f.packed_indices[0] < n {
            let s = f.packed_indices[0];
            lemma_follow_chain_below(f.bind_pairs, n, seq![s as nat], s);
        }
    }
}

/// Determine the order in which coders should be executed for decompression.
pub fn coder_execution_order(folder: &Folder) -> (r: Result<Vec<usize>, R7zError>)
    ensures
        match spec_coder_execution_order(folder@) {
            None => r == Err::<Vec<usize>, R7zError>(R7zError::Parse),
            Some(o) => r matches Ok(v) && v@.len() == o.len() && forall|q: int|
                0 <= q < o.len() ==> v@[q] as nat == #[trigger] o[q],
        },
{
    let n = folder.coders.len();
    let ghost f = folder@;
    if n <= 1 {
        let mut v: Vec<usize> = Vec::new();
        let mut i: usize = 0;
        while i < n
            invariant
                i <= n,
                v@.len() == i,
                forall|q: int| 0 <= q < i ==> v@[q] == q,
            decreases n - i,
        {
            v.push(i);
            i = i + 1;
        }
        return Ok(v);
    }
    let mut j: usize = 0;
    while j < n
        invariant
            j <= n,
            n > 1,
            n == folder.coders@.len(),
            n == f.coders.len(),
            f == folder@,
            forall|q: int|
                0 <= q < j ==> (#[trigger] f.coders[q]).num_in_streams == 1 && f.coders[q].num_out_streams
                    == 1,
        decreases n - j,
    {
        if folder.coders[j].num_in_streams != 1 || folder.coders[j].num_out_streams != 1 {
            proof {
                assert(f.coders[j as int] == folder.coders@[j as int]@);
                assert(f.coders[j as int].num_in_streams != 1 || f.coders[j as int].num_out_streams != 1);
            }
            return Err(R7zError::Parse);
        }
        proof {
            assert(f.coders[j as int] == folder.coders@[j as int]@);
        }
        j = j + 1;
    }
    if folder.bind_pairs.len() != n - 1 {
        return Err(R7zError::Parse);
    }
    let mut k: usize = 0;
    while k < folder.bind_pairs.len()
        invariant
            k <= folder.bind_pairs@.len(),
            n > 1,
            n == f.coders.len(),
            f == folder@,
            forall|q: int|
                0 <= q < n ==> (#[trigger] f.coders[q]).num_in_streams == 1 && f.coders[q].num_out_streams
                    == 1,
            f.bind_pairs.len() == n - 1,
            forall|q: int| 0 <= q < k ==> (#[trigger] folder.bind_pairs@[q]).0 < n && folder.bind_pairs@[q].1 < n,
        decreases folder.bind_pairs@.len() - k,
    {
        let (in_idx, out_idx) = folder.bind_pairs[k];
        if in_idx >= n as u64 || out_idx >= n as u64 {
            proof {
                assert(f.bind_pairs[k as int].0 >= n || f.bind_pairs[k as int].1 >= n);
            }
            return Err(R7zError::Parse);
        }
        k = k + 1;
    }
    let start: u64 = if folder.packed_indices.len() == 0 {
        let mut starts: Vec<u64> = Vec::new();
        let mut s: u64 = 0;
        proof {
            assert(starts@ =~= unbound_streams(f.bind_pairs, 0));
        }
        while s < n as u64
            invariant
                s <= n,
                f == folder@,
                starts@ == unbound_streams(f.bind_pairs, s as nat),
            decreases n - s,
        {
            if !is_bound_input(&folder.bind_pairs, s) {
                starts.push(s);
            }
            s = s + 1;
        }
        if starts.len() != 1 {
            return Err(R7zError::Parse);
        }
        proof {
            lemma_unbound_streams_below(f.bind_pairs, n as nat);
        }
        starts[0]
    } else if folder.packed_indices.len() == 1 {
        let st = folder.packed_indices[0];
        if st >= n as u64 || is_bound_input(&folder.bind_pairs, st) {
            return Err(R7zError::Parse);
        }
        st
    } else {
        return Err(R7zError::Parse);
    };
    assert(start < n);
    let mut order: Vec<usize> = Vec::new();
    order.push(start as usize);
    let ghost mut go: Seq<nat> = seq![start as nat];
    let mut current = start;
    while order.len() < n
        invariant
            1 <= order@.len() <= n,
            order@.len() == go.len(),
            forall|q: int| 0 <= q < go.len() ==> order@[q] as nat == #[trigger] go[q],
            spec_coder_execution_order(folder@) == follow_chain(f.bind_pairs, n as nat, go, current),
            f == folder@,
            n == f.coders.len(),
            forall|q: int| 0 <= q < f.bind_pairs.len() ==> (#[trigger] f.bind_pairs[q]).0 < n,
        decreases n - order@.len(),
    {
        let matches = pairs_from_exec(&folder.bind_pairs, current);
        if matches.len() != 1 {
            return Err(R7zError::Parse);
        }
        let in_idx = matches[0].0;
        proof {
            assert(pairs_from(f.bind_pairs, current).contains(matches@[0]));
            f.bind_pairs.lemma_filter_contains_rev(output_is(current), matches@[0]);
        }
        let coder_idx = in_idx as usize;
        let mut seen = false;
        let mut q: usize = 0;
        while q < order.len()
            invariant
                q <= order@.len(),
                order@.len() == go.len(),
                forall|t: int| 0 <= t < go.len() ==> order@[t] as nat == #[trigger] go[t],
                !seen ==> forall|t: int| 0 <= t < q ==> go[t] != coder_idx as nat,
                seen ==> go.contains(coder_idx as nat),
            decreases order@.len() - q,
        {
            if order[q] == coder_idx {
                seen = true;
                proof {
                    assert(go[q as int] == coder_idx as nat);
                }
            }
            q = q + 1;
        }
        if seen {
            return Err(R7zError::Parse);
        }
        order.push(coder_idx);
        proof {
            go = go.push(coder_idx as nat);
        }
        current = in_idx;
    }
    Ok(order)
}

/// Running coders `order[i..]` in turn over `data`; the last one is told the
/// folder's unpack size, the others zero.
pub open spec fn spec_run_chain(
    coders: Seq<CoderInfoView>,
    order: Seq<nat>,
    i: nat,
    data: Seq<u8>,
    unpack_size: u64,
    password: Option<Seq<char>>,
) -> DecodeResult
    decreases order.len() - i,
{
    if i >= order.len() {
        DecodeResult::Data(data)
    } else {
        let size: u64 = if i == order.len() - 1 {
            unpack_size
        } else {
            0
        };
        match spec_decompress_coder(coders[order[i as int] as int], data, size, password) {
            DecodeResult::Data(next) => spec_run_chain(coders, order, i + 1, next, unpack_size, password),
            other => other,
        }
    }
}

/// Decoding a whole folder: a single coder directly, several along their
/// execution order.
pub open spec fn spec_decompress_folder(
    f: FolderView,
    packed: Seq<u8>,
    unpack_size: u64,
    password: Option<Seq<char>>,
) -> DecodeResult {
    if f.coders.len() == 1 {
        spec_decompress_coder(f.coders[0], packed, unpack_size, password)
    } else {
        match spec_coder_execution_order(f) {
            None => DecodeResult::Failure(R7zError::Parse),
            Some(order) => spec_run_chain(f.coders, order, 0, packed, unpack_size, password),
        }
    }
}

/// Decompress all coders of a folder and return the output.
pub fn decompress_folder(folder: &Folder, packed_data: &[u8], unpack_size: u64) -> (r: Result<Vec<u8>, R7zError>)
    ensures
        result_is(r, spec_decompress_folder(folder@, packed_data@, unpack_size, None)),
{
    decompress_folder_with_password(folder, packed_data, unpack_size, None)
}

/// Decompress a folder, optionally decrypting with `password` if AES-encrypted.
pub fn decompress_folder_with_password(
    folder: &Folder,
    packed_data: &[u8],
    unpack_size: u64,
    password: Option<&str>,
) -> (r: Result<Vec<u8>, R7zError>)
    ensures
        result_is(r, spec_decompress_folder(folder@, packed_data@, unpack_size, opt_password(password))),
{
    if folder.coders.len() == 1 {
        proof {
            assert(folder@.coders[0] == folder.coders@[0]@);
        }
        return decompress_coder(&folder.coders[0], packed_data, unpack_size, password);
    }
    let order = coder_execution_order(folder)?;
    let ghost o = spec_coder_execution_order(folder@).unwrap();
    proof {
        lemma_execution_order_in_range(folder@);
    }
    let mut data = slice_to_vec(packed_data);
    let mut i: usize = 0;
    while i < order.len()
        invariant
            i <= order@.len(),
            order@.len() == o.len(),
            forall|q: int| 0 <= q < o.len() ==> order@[q] as nat == #[trigger] o[q],
            forall|q: int| 0 <= q < o.len() ==> #[trigger] o[q] < folder.coders@.len(),
            spec_decompress_folder(folder@, packed_data@, unpack_size, opt_password(password))
                == spec_run_chain(folder@.coders, o, i as nat, data@, unpack_size, opt_password(password)),
            folder.coders@.len() != 1,
        decreases order@.len() - i,
    {
        let idx = order[i];
        let size = if i == order.len() - 1 {
            unpack_size
        } else {
            0
        };
        proof {
            assert(o[i as int] == idx as nat);
            assert(folder@.coders[idx as int] == folder.coders@[idx as int]@);
        }
        data = decompress_coder(&folder.coders[idx], data.as_slice(), size, password)?;
        i = i + 1;
    }
    Ok(data)
}

} // verus!
