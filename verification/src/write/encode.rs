//! Encoding folders and assembling whole archives in memory.
use super::header::{
    build_encoded_header_descriptor, build_header, encode_coder_info_aes_then,
    encode_coder_info_bcj_lzma2, encode_coder_info_copy, encode_coder_info_lzma,
    encode_coder_info_lzma2, push_bytes, spec_coder_info_bcj_lzma2, spec_coder_info_copy,
    spec_coder_info_lzma, spec_coder_info_lzma2, spec_coder_chain, spec_coder_spec_bytes, spec_inner_coders,
    spec_chain_pairs, spec_coder_info_aes_then, CoderSpec,
};
use super::model::{
    ArchiveOptions, Codec, CompletedFolder, CompressionLevel, CompressionOptions,
    EncryptionOptions, HeaderMode, PreparedFolder, SolidMode, WriteEntry,
};
use crate::aes::{derive_key, encode_aes_properties, encrypt_aes256_cbc_zero_pad, MAX_AES_NUM_CYCLES_POWER};
use crate::bcj::{bcj_x86_encode, spec_bcj_x86_convert};
use crate::crc::{crc32, crc32_of};
use crate::error::R7zError;
use crate::headers::start_header_bytes;
use crate::parsers::{le_bytes, push_le, spec_varint_encode};
use vstd::prelude::*;
use vstd::slice::slice_to_vec;

verus! {

/// The dictionary size of an `lzma_rust2` encoder preset
/// (`LzmaOptions::with_preset`, presets above 9 counting as 9).
pub open spec fn lzma_preset_dict_size(preset: u32) -> u32 {
    let p = if preset > 9 { 9 } else { preset };
    if p == 0 {
        1u32 << 18
    } else if p == 1 {
        1u32 << 20
    } else if p == 2 {
        1u32 << 21
    } else if p <= 4 {
        1u32 << 22
    } else if p <= 6 {
        1u32 << 23
    } else if p == 7 {
        1u32 << 24
    } else if p == 8 {
        1u32 << 25
    } else {
        1u32 << 26
    }
}

/// Dictionary size of preset `preset` (`LzmaOptions::with_preset(preset).dict_size`).
#[verifier::external_body]
fn preset_dict_size(preset: u32) -> (r: u32)
    ensures
        r == lzma_preset_dict_size(preset),
{
    lzma_rust2::LzmaOptions::with_preset(preset).dict_size
}

/// What raw LZMA encoding with `lzma_rust2::LzmaWriter::new_no_header` and
/// preset `preset` (dictionary and nice length overridden when given) gives:
/// the properties byte and the compressed bytes, or `None` on failure.
pub uninterp spec fn lzma_encode(data: Seq<u8>, preset: u32, dict: Option<u32>, nice: Option<u32>) -> Option<(u8, Seq<u8>)>;

/// What LZMA2 encoding with `lzma_rust2::Lzma2Writer` gives for these options.
pub uninterp spec fn lzma2_encode(
    data: Seq<u8>,
    preset: u32,
    dict: Option<u32>,
    nice: Option<u32>,
    chunk: Option<u64>,
) -> Option<Seq<u8>>;

/// What PPMd (variant H) encoding with `ppmd_rust::Ppmd7Encoder` of this
/// order and memory size gives, without end marker.
pub uninterp spec fn ppmd_encode(data: Seq<u8>, order: u32, mem_size: u32) -> Option<Seq<u8>>;

/// Raw LZMA compression (`LzmaWriter::new_no_header`, no end marker).
#[verifier::external_body]
fn lzma_compress_raw(data: &[u8], preset: u32, dict: Option<u32>, nice: Option<u32>) -> (r: Option<(u8, Vec<u8>)>)
    requires
        dict matches Some(d) ==> encoder_dict_ok(preset, d),
        nice matches Some(n) ==> 8 <= n <= 273,
    ensures
        match lzma_encode(data@, preset, dict, nice) {
            None => r is None,
            Some((p, c)) => r matches Some((q, v)) && q == p && v@ == c,
        },
{
    let mut options = lzma_rust2::LzmaOptions::with_preset(preset);
    if let Some(d) = dict { options.dict_size = d; }
    if let Some(n) = nice { options.nice_len = n; }
    let mut writer = lzma_rust2::LzmaWriter::new_no_header(Vec::new(), &options, false).ok()?;
    std::io::Write::write_all(&mut writer, data).ok()?;
    let props = writer.props();
    Some((props, writer.finish().ok()?))
}

/// LZMA2 compression (`Lzma2Writer`).
#[verifier::external_body]
fn lzma2_compress_raw(data: &[u8], preset: u32, dict: Option<u32>, nice: Option<u32>, chunk: Option<u64>) -> (r: Option<Vec<u8>>)
    requires
        dict matches Some(d) ==> encoder_dict_ok(preset, d),
        nice matches Some(n) ==> 8 <= n <= 273,
    ensures
        match lzma2_encode(data@, preset, dict, nice, chunk) {
            None => r is None,
            Some(c) => r matches Some(v) && v@ == c,
        },
{
    let mut options = lzma_rust2::Lzma2Options::with_preset(preset);
    if let Some(d) = dict { options.lzma_options.dict_size = d; }
    if let Some(n) = nice { options.lzma_options.nice_len = n; }
    options.set_chunk_size(chunk.and_then(std::num::NonZeroU64::new));
    let mut writer = lzma_rust2::Lzma2Writer::new(Vec::new(), options);
    std::io::Write::write_all(&mut writer, data).ok()?;
    writer.finish().ok()
}

/// PPMd compression (`Ppmd7Encoder`, no end marker).
#[verifier::external_body]
fn ppmd_compress_raw(data: &[u8], order: u32, mem_size: u32) -> (r: Option<Vec<u8>>)
    ensures
        match ppmd_encode(data@, order, mem_size) {
            None => r is None,
            Some(c) => r matches Some(v) && v@ == c,
        },
{
    let mut writer = ppmd_rust::Ppmd7Encoder::new(Vec::new(), order, mem_size).ok()?;
    std::io::Write::write_all(&mut writer, data).ok()?;
    writer.finish(false).ok()
}

/// `n` bytes from the operating system's random source (`getrandom::fill`);
/// `None` when it fails. Nothing is promised of the bytes.
#[verifier::external_body]
fn random_bytes(n: usize) -> (r: Option<Vec<u8>>)
    ensures
        r matches Some(v) ==> v@.len() == n,
{
    let mut buf = vec![0u8; n];
    match getrandom::fill(&mut buf) {
        Ok(()) => Some(buf),
        Err(_) => None,
    }
}

/// The least PPMd order (`ppmd_rust::PPMD7_MIN_ORDER`).
#[verifier::external_body]
fn ppmd7_min_order() -> (r: u32)
    ensures
        r == 2,
{
    ppmd_rust::PPMD7_MIN_ORDER
}

/// The greatest PPMd order (`ppmd_rust::PPMD7_MAX_ORDER`).
#[verifier::external_body]
fn ppmd7_max_order() -> (r: u32)
    ensures
        r == 64,
{
    ppmd_rust::PPMD7_MAX_ORDER
}

/// The least PPMd memory size (`ppmd_rust::PPMD7_MIN_MEM_SIZE`).
#[verifier::external_body]
fn ppmd7_min_mem_size() -> (r: u32)
    ensures
        r == 2048,
{
    ppmd_rust::PPMD7_MIN_MEM_SIZE
}

/// The greatest PPMd memory size (`ppmd_rust::PPMD7_MAX_MEM_SIZE`).
#[verifier::external_body]
fn ppmd7_max_mem_size() -> (r: u32)
    ensures
        r == u32::MAX - 36,
{
    ppmd_rust::PPMD7_MAX_MEM_SIZE
}

/// The encoder preset for a compression level.
pub open spec fn spec_level_preset(level: CompressionLevel) -> u32 {
    match level {
        CompressionLevel::Store => 0,
        CompressionLevel::Fastest => 1,
        CompressionLevel::Fast => 3,
        CompressionLevel::Normal => 6,
        CompressionLevel::Maximum => 7,
        CompressionLevel::Ultra => 9,
    }
}

/// The encoder preset for a compression level.
pub fn compression_level_preset(level: CompressionLevel) -> (r: u32)
    ensures
        r == spec_level_preset(level),
{
    match level {
        CompressionLevel::Store => 0,
        CompressionLevel::Fastest => 1,
        CompressionLevel::Fast => 3,
        CompressionLevel::Normal => 6,
        CompressionLevel::Maximum => 7,
        CompressionLevel::Ultra => 9,
    }
}

/// The PPMd memory size for a compression level.
pub open spec fn spec_ppmd_memory_preset(level: CompressionLevel) -> u32 {
    match level {
        CompressionLevel::Store | CompressionLevel::Fastest => 0x10_0000,
        CompressionLevel::Fast => 0x40_0000,
        CompressionLevel::Normal => 0x100_0000,
        CompressionLevel::Maximum => 0x200_0000,
        CompressionLevel::Ultra => 0x400_0000,
    }
}

/// The PPMd memory size for a compression level.
pub fn ppmd_memory_size_preset(level: CompressionLevel) -> (r: u32)
    ensures
        r == spec_ppmd_memory_preset(level),
{
    match level {
        CompressionLevel::Store | CompressionLevel::Fastest => 0x10_0000,
        CompressionLevel::Fast => 0x40_0000,
        CompressionLevel::Normal => 0x100_0000,
        CompressionLevel::Maximum => 0x200_0000,
        CompressionLevel::Ultra => 0x400_0000,
    }
}

/// The LZMA dictionary size the options give: the override, else the preset's.
pub open spec fn spec_lzma_dict(c: CompressionOptions) -> u32 {
    match c.dictionary_size {
        Some(d) => d,
        None => lzma_preset_dict_size(spec_level_preset(c.level)),
    }
}

/// The LZMA dictionary size the options give.
pub fn lzma_dict_size(c: &CompressionOptions) -> (r: u32)
    ensures
        r == spec_lzma_dict(*c),
{
    match c.dictionary_size {
        Some(d) => d,
        None => preset_dict_size(compression_level_preset(c.level)),
    }
}

/// The dictionary size an LZMA2 properties byte stands for: `u32::MAX` for
/// 40, else `(2 | (p & 1)) << (p / 2 + 11)`.
pub open spec fn lzma2_prop_size(p: u8) -> u32 {
    if p >= 40 {
        u32::MAX
    } else {
        (2u32 | (p as u32 & 1u32)) << ((p as u32 >> 1u32) + 11u32)
    }
}

/// `p` is the smallest properties byte below 40 whose size covers `dict_size`.
pub open spec fn is_least_prop(p: u8, dict_size: u32) -> bool {
    p < 40 && lzma2_prop_size(p) >= dict_size && forall|q: u8| q < p ==> lzma2_prop_size(q) < dict_size
}

/// The LZMA2 properties byte for a dictionary size: the smallest that
/// covers it. Sizes under 4096 are refused.
pub open spec fn spec_encode_lzma2_dict_size(dict_size: u32) -> Result<u8, R7zError> {
    if dict_size < 4096 {
        Err(R7zError::InvalidOptions("dictionary_size must be at least 4096 bytes"))
    } else if dict_size == u32::MAX {
        Ok(40)
    } else if exists|p: u8| p < 40 && lzma2_prop_size(p) >= dict_size {
        Ok(choose|p: u8| is_least_prop(p, dict_size))
    } else {
        Err(R7zError::InvalidOptions("dictionary_size is too large"))
    }
}

/// The LZMA2 properties byte for a dictionary size.
pub fn encode_lzma2_dict_size(dict_size: u32) -> (r: Result<u8, R7zError>)
    ensures
        r == spec_encode_lzma2_dict_size(dict_size),
{
    if dict_size < 4096 {
        return Err(R7zError::InvalidOptions("dictionary_size must be at least 4096 bytes"));
    }
    if dict_size == u32::MAX {
        return Ok(40);
    }
    let mut prop: u8 = 0;
    while prop < 40
        invariant
            prop <= 40,
            dict_size >= 4096,
            dict_size != u32::MAX,
            forall|q: u8| q < prop ==> lzma2_prop_size(q) < dict_size,
        decreases 40 - prop,
    {
        assert(((prop as u32 >> 1u32) + 11u32) < 32) by (bit_vector)
            requires
                prop < 40,
        ;
        let size = (2u32 | (prop as u32 & 1)) << ((prop as u32 >> 1) + 11);
        if size >= dict_size {
            proof {
                assert(lzma2_prop_size(prop) >= dict_size);
                assert(is_least_prop(prop, dict_size));
                let w = choose|p: u8| is_least_prop(p, dict_size);
                assert(is_least_prop(w, dict_size));
                if w < prop {
                    assert(lzma2_prop_size(w) < dict_size);
                } else if w > prop {
                    assert(lzma2_prop_size(prop) < dict_size);
                }
                assert(w == prop);
                assert(exists|p: u8| p < 40 && lzma2_prop_size(p) >= dict_size);
                assert(dict_size >= 4096 && dict_size != u32::MAX);
                assert(spec_encode_lzma2_dict_size(dict_size) == Ok::<u8, R7zError>(prop));
            }
            return Ok(prop);
        }
        prop = prop + 1;
    }
    Err(R7zError::InvalidOptions("dictionary_size is too large"))
}

/// The dictionary sizes the LZMA encoder of `lzma-rust2` with preset
/// `preset` works with, as that crate checks them (`enc/microlzma.rs`): at
/// least 4 KiB; at most `i32::MAX` for the hash-chain match finder of presets
/// 0 to 3 and `(i32::MAX - 1) / 2` for the binary-tree finder of the others;
/// and an encoder buffer (`lz::get_buf_size`: the dictionary, up to 64 KiB +
/// 4 KiB before it, 4 KiB + 273 bytes after it, and a reserve of half the
/// dictionary plus 256 KiB, at most 512 MiB) of at most `i32::MAX` bytes.
pub open spec fn encoder_dict_ok(preset: u32, d: u32) -> bool {
    let reserve: int = if d / 2 + 0x4_0000 < 0x2000_0000 { d / 2 + 0x4_0000 } else { 0x2000_0000 };
    &&& 4096 <= d
    &&& (if preset <= 3 { d <= 0x7FFF_FFFF } else { d <= 0x3FFF_FFFF })
    &&& 0x1_1000 + d + 0x1000 + 273 + reserve <= 0x7FFF_FFFF
}

/// Encoder settings the LZMA/LZMA2 encoder works with: a dictionary it
/// accepts for the level's preset, a match length of 8 to 273.
pub open spec fn encoder_settings_ok(c: CompressionOptions) -> bool {
    &&& c.dictionary_size matches Some(d) ==> encoder_dict_ok(spec_level_preset(c.level), d)
    &&& c.fast_bytes matches Some(f) ==> 8 <= f <= 273
}

/// The settings a codec is encoded with are ones its encoder works with.
pub open spec fn method_settings_ok(method: Codec, c: CompressionOptions) -> bool {
    match method {
        Codec::Lzma | Codec::Lzma2 | Codec::Lzma2Bcj => encoder_settings_ok(c),
        _ => true,
    }
}

/// The dictionary the options give an LZMA or LZMA2 codec, when they give
/// one that validation lets through, is one the encoder works with (the
/// encoder fails on the others).
pub open spec fn encoder_dict_fits(o: ArchiveOptions) -> bool {
    match o.codec {
        Codec::Lzma | Codec::Lzma2 | Codec::Lzma2Bcj => match o.compression.dictionary_size {
            Some(d) => d < 4096 || encoder_dict_ok(spec_level_preset(o.compression.level), d),
            None => true,
        },
        _ => true,
    }
}

/// Whether [`encoder_dict_ok`] holds of `d` for preset `preset`.
pub fn encoder_dict_works(preset: u32, d: u32) -> (r: bool)
    ensures
        r == encoder_dict_ok(preset, d),
{
    let reserve: u64 = if (d / 2) as u64 + 0x4_0000 < 0x2000_0000 {
        (d / 2) as u64 + 0x4_0000
    } else {
        0x2000_0000
    };
    let cap: u32 = if preset <= 3 { 0x7FFF_FFFF } else { 0x3FFF_FFFF };
    4096 <= d && d <= cap && 0x1_1000 + d as u64 + 0x1000 + 273 + reserve <= 0x7FFF_FFFF
}

/// Whether the options give the encoder a dictionary it works with
/// ([`encoder_dict_fits`]); a writer is only handed options that do.
pub fn encoder_dict_fits_options(o: &ArchiveOptions) -> (r: bool)
    ensures
        r == encoder_dict_fits(*o),
{
    match o.codec {
        Codec::Lzma | Codec::Lzma2 | Codec::Lzma2Bcj => match o.compression.dictionary_size {
            Some(d) => d < 4096 || encoder_dict_works(compression_level_preset(o.compression.level), d),
            None => true,
        },
        _ => true,
    }
}

/// Options that pass validation, with a dictionary the encoder works with,
/// give settings their encoder accepts.
pub proof fn lemma_valid_settings(o: ArchiveOptions)
    requires
        spec_validate_archive(o) is Ok,
        encoder_dict_fits(o),
    ensures
        method_settings_ok(o.codec, o.compression),
{
}

/// The option checks of [`validate_compression_options`], in order: the
/// first that fails is the error.
pub open spec fn spec_validate_compression(o: ArchiveOptions) -> Result<(), R7zError> {
    let c = o.compression;
    if o.streaming.buffer_size == 0 {
        Err(R7zError::InvalidOptions("streaming buffer_size must be greater than zero"))
    } else if o.codec == Codec::Copy && (c.dictionary_size is Some || c.fast_bytes is Some
        || c.lzma2_chunk_size is Some) {
        Err(R7zError::InvalidOptions("Copy codec does not support compression tuning"))
    } else if c.dictionary_size matches Some(d) && d < (if o.codec == Codec::Ppmd {
        2048u32
    } else {
        4096u32
    }) {
        Err(R7zError::InvalidOptions("dictionary_size is too small for selected codec"))
    } else if o.codec == Codec::Ppmd && (c.fast_bytes matches Some(f) && !(2 <= f <= 64)) {
        Err(R7zError::InvalidOptions("PPMd order must be in 2..=64"))
    } else if o.codec != Codec::Ppmd && (c.fast_bytes matches Some(f) && !(8 <= f <= 273)) {
        Err(R7zError::InvalidOptions("fast_bytes must be in 8..=273"))
    } else if o.codec == Codec::Ppmd && c.lzma2_chunk_size is Some {
        Err(R7zError::InvalidOptions("PPMd does not support lzma2_chunk_size"))
    } else if c.lzma2_chunk_size matches Some(k) && k < spec_lzma_dict(c) {
        Err(R7zError::InvalidOptions("lzma2_chunk_size must be at least dictionary_size"))
    } else if c.solid == (SolidMode::Limit { max_files: None, max_bytes: None }) {
        Err(R7zError::InvalidOptions("solid limit requires max_files or max_bytes"))
    } else {
        Ok(())
    }
}

/// Check the compression options.
pub fn validate_compression_options(options: &ArchiveOptions) -> (r: Result<(), R7zError>)
    ensures
        r == spec_validate_compression(*options),
{
    let c = &options.compression;
    if options.streaming.buffer_size == 0 {
        return Err(R7zError::InvalidOptions("streaming buffer_size must be greater than zero"));
    }
    if options.codec == Codec::Copy && (c.dictionary_size.is_some() || c.fast_bytes.is_some()
        || c.lzma2_chunk_size.is_some()) {
        return Err(R7zError::InvalidOptions("Copy codec does not support compression tuning"));
    }
    if let Some(dict) = c.dictionary_size {
        let min_dict = if options.codec == Codec::Ppmd {
            ppmd7_min_mem_size()
        } else {
            4096
        };
        if dict < min_dict {
            return Err(R7zError::InvalidOptions("dictionary_size is too small for selected codec"));
        }
    }
    if let Some(fast_bytes) = c.fast_bytes {
        if options.codec == Codec::Ppmd {
            if !(ppmd7_min_order() <= fast_bytes && fast_bytes <= ppmd7_max_order()) {
                return Err(R7zError::InvalidOptions("PPMd order must be in 2..=64"));
            }
        } else if !(8 <= fast_bytes && fast_bytes <= 273) {
            return Err(R7zError::InvalidOptions("fast_bytes must be in 8..=273"));
        }
    }
    if options.codec == Codec::Ppmd && c.lzma2_chunk_size.is_some() {
        return Err(R7zError::InvalidOptions("PPMd does not support lzma2_chunk_size"));
    }
    if let Some(chunk_size) = c.lzma2_chunk_size {
        let dict = lzma_dict_size(c);
        if chunk_size < dict as u64 {
            return Err(R7zError::InvalidOptions("lzma2_chunk_size must be at least dictionary_size"));
        }
    }
    match &c.solid {
        SolidMode::Limit { max_files: None, max_bytes: None } => {
            return Err(R7zError::InvalidOptions("solid limit requires max_files or max_bytes"));
        },
        _ => {},
    }
    Ok(())
}

/// The checks of [`validate_archive_options`]: compression first, then the
/// encryption settings.
pub open spec fn spec_validate_archive(o: ArchiveOptions) -> Result<(), R7zError> {
    match spec_validate_compression(o) {
        Err(e) => Err(e),
        Ok(()) => match o.encryption {
            None => Ok(()),
            Some(enc) => if enc.num_cycles_power > MAX_AES_NUM_CYCLES_POWER {
                Err(R7zError::InvalidOptions("AES num_cycles_power must be <= 24"))
            } else if enc.salt_len > 16 {
                Err(R7zError::InvalidOptions("AES salt_len must be <= 16"))
            } else if enc.iv_len > 16 {
                Err(R7zError::InvalidOptions("AES iv_len must be <= 16"))
            } else if enc.encrypt_header && o.header_mode == HeaderMode::Plain {
                Err(R7zError::InvalidOptions("encrypt_header requires encoded headers"))
            } else {
                Ok(())
            },
        },
    }
}

/// Check all writer options.
pub fn validate_archive_options(options: &ArchiveOptions) -> (r: Result<(), R7zError>)
    ensures
        r == spec_validate_archive(*options),
{
    validate_compression_options(options)?;
    match &options.encryption {
        None => Ok(()),
        Some(enc) => {
            if enc.num_cycles_power > MAX_AES_NUM_CYCLES_POWER {
                return Err(R7zError::InvalidOptions("AES num_cycles_power must be <= 24"));
            }
            if enc.salt_len > 16 {
                return Err(R7zError::InvalidOptions("AES salt_len must be <= 16"));
            }
            if enc.iv_len > 16 {
                return Err(R7zError::InvalidOptions("AES iv_len must be <= 16"));
            }
            if enc.encrypt_header && options.header_mode == HeaderMode::Plain {
                return Err(R7zError::InvalidOptions("encrypt_header requires encoded headers"));
            }
            Ok(())
        },
    }
}

/// The PPMd order and memory size the options give: order from `fast_bytes`
/// (default 6), memory from `dictionary_size` (default by level).
pub open spec fn spec_ppmd_options(c: CompressionOptions) -> Result<(u8, u32), R7zError> {
    let order = match c.fast_bytes {
        Some(f) => f,
        None => 6u32,
    };
    let mem = match c.dictionary_size {
        Some(d) => d,
        None => spec_ppmd_memory_preset(c.level),
    };
    if !(2 <= order <= 64) {
        Err(R7zError::InvalidOptions("PPMd order must be in 2..=64"))
    } else if !(2048 <= mem <= u32::MAX - 36) {
        Err(R7zError::InvalidOptions("PPMd memory size is outside supported range"))
    } else {
        Ok((order as u8, mem))
    }
}

/// The PPMd order and memory size the options give.
pub fn ppmd_options(c: &CompressionOptions) -> (r: Result<(u8, u32), R7zError>)
    ensures
        r == spec_ppmd_options(*c),
{
    let order = match c.fast_bytes {
        Some(f) => f,
        None => 6,
    };
    if !(ppmd7_min_order() <= order && order <= ppmd7_max_order()) {
        return Err(R7zError::InvalidOptions("PPMd order must be in 2..=64"));
    }
    let mem_size = match c.dictionary_size {
        Some(d) => d,
        None => ppmd_memory_size_preset(c.level),
    };
    if !(ppmd7_min_mem_size() <= mem_size && mem_size <= ppmd7_max_mem_size()) {
        return Err(R7zError::InvalidOptions("PPMd memory size is outside supported range"));
    }
    Ok((order as u8, mem_size))
}

/// The coder description of a PPMd coder with its 5 property bytes.
pub open spec fn spec_coder_info_ppmd(props: Seq<u8>) -> Seq<u8> {
    crate::parsers::spec_varint_encode(1) + seq![0x23u8, 0x03u8, 0x04u8, 0x01u8]
        + crate::parsers::spec_varint_encode(5) + props
}

pub(crate) fn encode_coder_info_ppmd(props: &[u8]) -> (r: Vec<u8>)
    ensures
        r@ == spec_coder_info_ppmd(props@),
{
    let mut bytes: Vec<u8> = Vec::new();
    super::header::push_varint(&mut bytes, 1);
    bytes.push(0x23);
    bytes.push(0x03);
    bytes.push(0x04);
    bytes.push(0x01);
    super::header::push_varint(&mut bytes, 5);
    push_bytes(&mut bytes, props);
    proof {
        assert(bytes@ =~= spec_coder_info_ppmd(props@));
    }
    bytes
}

/// A folder payload: packed bytes, coder description, coder output sizes and
/// the coders (for an encryption layer to wrap).
pub struct Payload {
    pub pack: Vec<u8>,
    pub coder_info: Vec<u8>,
    pub unpack_sizes: Vec<u64>,
    pub specs: Vec<CoderSpec>,
}

/// LZMA compression with the options' preset and overrides; gives the five
/// property bytes (properties byte, dictionary size) and the stream.
pub fn compress_lzma(data: &[u8], c: &CompressionOptions) -> (r: Result<(Vec<u8>, Vec<u8>), R7zError>)
    requires
        encoder_settings_ok(*c),
    ensures
        match lzma_encode(data@, spec_level_preset(c.level), c.dictionary_size, c.fast_bytes) {
            None => r == Err::<(Vec<u8>, Vec<u8>), R7zError>(R7zError::Decompression),
            Some((p, s)) => r matches Ok((props, stream)) && props@ == seq![p] + le_bytes(
                spec_lzma_dict(*c) as nat,
                4,
            ) && stream@ == s,
        },
{
    let preset = compression_level_preset(c.level);
    let dict = lzma_dict_size(c);
    match lzma_compress_raw(data, preset, c.dictionary_size, c.fast_bytes) {
        None => Err(R7zError::Decompression),
        Some((p, stream)) => {
            let mut props: Vec<u8> = Vec::new();
            props.push(p);
            push_le(&mut props, dict as u64, 4);
            proof {
                assert(props@ =~= seq![p] + le_bytes(dict as nat, 4));
            }
            Ok((props, stream))
        },
    }
}

/// LZMA2 compression with the options; gives the properties byte and the stream.
pub fn compress_lzma2(data: &[u8], c: &CompressionOptions) -> (r: Result<(u8, Vec<u8>), R7zError>)
    requires
        encoder_settings_ok(*c),
    ensures
        match spec_encode_lzma2_dict_size(spec_lzma_dict(*c)) {
            Err(e) => r == Err::<(u8, Vec<u8>), R7zError>(e),
            Ok(p) => match lzma2_encode(data@, spec_level_preset(c.level), c.dictionary_size, c.fast_bytes, c.lzma2_chunk_size) {
                None => r == Err::<(u8, Vec<u8>), R7zError>(R7zError::Decompression),
                Some(s) => r matches Ok((q, stream)) && q == p && stream@ == s,
            },
        },
{
    let prop = encode_lzma2_dict_size(lzma_dict_size(c))?;
    let preset = compression_level_preset(c.level);
    match lzma2_compress_raw(data, preset, c.dictionary_size, c.fast_bytes, c.lzma2_chunk_size) {
        None => Err(R7zError::Decompression),
        Some(stream) => Ok((prop, stream)),
    }
}

/// PPMd compression with the options; gives the five property bytes
/// (order, memory size) and the stream.
pub fn compress_ppmd(data: &[u8], c: &CompressionOptions) -> (r: Result<(Vec<u8>, Vec<u8>), R7zError>)
    ensures
        match spec_ppmd_options(*c) {
            Err(e) => r == Err::<(Vec<u8>, Vec<u8>), R7zError>(e),
            Ok((order, mem)) => match ppmd_encode(data@, order as u32, mem) {
                None => r == Err::<(Vec<u8>, Vec<u8>), R7zError>(R7zError::Decompression),
                Some(s) => r matches Ok((props, stream)) && props@ == seq![order] + le_bytes(mem as nat, 4) && stream@ == s,
            },
        },
{
    let (order, mem_size) = ppmd_options(c)?;
    match ppmd_compress_raw(data, order as u32, mem_size) {
        None => Err(R7zError::Decompression),
        Some(stream) => {
            let mut props: Vec<u8> = Vec::new();
            props.push(order);
            push_le(&mut props, mem_size as u64, 4);
            proof {
                assert(props@ =~= seq![order] + le_bytes(mem_size as nat, 4));
            }
            Ok((props, stream))
        },
    }
}

/// A folder payload: the packed bytes, the coder description and the
/// coder output sizes, or the error.
pub open spec fn spec_payload(data: Seq<u8>, method: Codec, c: CompressionOptions) -> Result<
    (Seq<u8>, Seq<u8>, Seq<u64>),
    R7zError,
> {
    let n = data.len() as u64;
    match method {
        Codec::Copy => Ok((data, spec_coder_info_copy(), seq![n])),
        Codec::Lzma => match lzma_encode(data, spec_level_preset(c.level), c.dictionary_size, c.fast_bytes) {
            None => Err(R7zError::Decompression),
            Some((b, s)) => Ok(
                (s, spec_coder_info_lzma(seq![b] + le_bytes(spec_lzma_dict(c) as nat, 4)), seq![n]),
            ),
        },
        Codec::Lzma2 => match spec_encode_lzma2_dict_size(spec_lzma_dict(c)) {
            Err(e) => Err(e),
            Ok(b) => match lzma2_encode(data, spec_level_preset(c.level), c.dictionary_size, c.fast_bytes, c.lzma2_chunk_size) {
                None => Err(R7zError::Decompression),
                Some(s) => Ok((s, spec_coder_info_lzma2(b), seq![n])),
            },
        },
        Codec::Lzma2Bcj => match spec_encode_lzma2_dict_size(spec_lzma_dict(c)) {
            Err(e) => Err(e),
            Ok(b) => match lzma2_encode(
                spec_bcj_x86_convert(data, 0, 0, true).0,
                spec_level_preset(c.level),
                c.dictionary_size,
                c.fast_bytes,
                c.lzma2_chunk_size,
            ) {
                None => Err(R7zError::Decompression),
                Some(s) => Ok((s, spec_coder_info_bcj_lzma2(b), seq![n, n])),
            },
        },
        Codec::Ppmd => match spec_ppmd_options(c) {
            Err(e) => Err(e),
            Ok((order, mem)) => match ppmd_encode(data, order as u32, mem) {
                None => Err(R7zError::Decompression),
                Some(s) => Ok((s, spec_coder_info_ppmd(seq![order] + le_bytes(mem as nat, 4)), seq![n])),
            },
        },
    }
}

/// Compress a folder's data with the chosen codec.
pub fn encode_payload_with_options(data: &[u8], method: Codec, c: &CompressionOptions) -> (r: Result<Payload, R7zError>)
    requires
        method_settings_ok(method, *c),
    ensures
        match spec_payload(data@, method, *c) {
            Err(e) => r == Err::<Payload, R7zError>(e),
            Ok((pack, info, sizes)) => r matches Ok(p) && p.pack@ == pack && p.coder_info@ == info
                && p.unpack_sizes@ == sizes && p.specs@.len() < 3 && info == spec_coder_chain(p.specs@),
        },
{
    let n = data.len() as u64;
    match method {
        Codec::Copy => {
            let specs = vec![CoderSpec::Copy];
            let info = encode_coder_info_copy();
            proof {
                lemma_chain_one(specs@);
                assert(info@ =~= spec_coder_chain(specs@));
            }
            Ok(Payload { pack: slice_to_vec(data), coder_info: info, unpack_sizes: vec![n], specs })
        },
        Codec::Lzma => {
            let (props, compressed) = compress_lzma(data, c)?;
            let info = encode_coder_info_lzma(props.as_slice());
            let specs = vec![CoderSpec::Lzma(props)];
            proof {
                lemma_chain_one(specs@);
                assert(info@ =~= spec_coder_chain(specs@));
            }
            Ok(Payload { pack: compressed, coder_info: info, unpack_sizes: vec![n], specs })
        },
        Codec::Lzma2 => {
            let (prop, compressed) = compress_lzma2(data, c)?;
            let info = encode_coder_info_lzma2(prop);
            let specs = vec![CoderSpec::Lzma2(prop)];
            proof {
                lemma_chain_one(specs@);
                assert(info@ =~= spec_coder_chain(specs@));
            }
            Ok(Payload { pack: compressed, coder_info: info, unpack_sizes: vec![n], specs })
        },
        Codec::Ppmd => {
            let (props, compressed) = compress_ppmd(data, c)?;
            let info = encode_coder_info_ppmd(props.as_slice());
            let specs = vec![CoderSpec::Ppmd(props)];
            proof {
                lemma_chain_one(specs@);
                assert(info@ =~= spec_coder_chain(specs@));
            }
            Ok(Payload { pack: compressed, coder_info: info, unpack_sizes: vec![n], specs })
        },
        Codec::Lzma2Bcj => {
            let mut filtered = slice_to_vec(data);
            bcj_x86_encode(filtered.as_mut_slice());
            let (prop, compressed) = compress_lzma2(filtered.as_slice(), c)?;
            let info = encode_coder_info_bcj_lzma2(prop);
            let specs = vec![CoderSpec::Lzma2(prop), CoderSpec::Bcj];
            proof {
                lemma_chain_two(specs@);
                assert(info@ =~= spec_coder_chain(specs@));
            }
            Ok(Payload { pack: compressed, coder_info: info, unpack_sizes: vec![n, n], specs })
        },
    }
}

proof fn lemma_chain_one(inner: Seq<CoderSpec>)
    requires
        inner.len() == 1,
    ensures
        spec_coder_chain(inner) == spec_varint_encode(1) + spec_coder_spec_bytes(inner[0]),
{
    assert(inner.drop_last() =~= Seq::<CoderSpec>::empty());
    assert(spec_inner_coders(inner.drop_last()) =~= Seq::<u8>::empty());
    assert(inner.last() == inner[0]);
    assert(spec_inner_coders(inner) =~= spec_coder_spec_bytes(inner[0]));
    assert(spec_chain_pairs(0) =~= Seq::<u8>::empty());
    assert(spec_coder_chain(inner) =~= spec_varint_encode(1) + spec_coder_spec_bytes(inner[0]));
}

proof fn lemma_chain_two(inner: Seq<CoderSpec>)
    requires
        inner.len() == 2,
    ensures
        spec_coder_chain(inner) == spec_varint_encode(2) + spec_coder_spec_bytes(inner[0]) + spec_coder_spec_bytes(
            inner[1],
        ) + spec_varint_encode(1) + spec_varint_encode(0),
{
    assert(inner.drop_last().drop_last() =~= Seq::<CoderSpec>::empty());
    assert(inner.drop_last().last() == inner[0]);
    assert(inner.last() == inner[1]);
    assert(spec_inner_coders(inner.drop_last().drop_last()) =~= Seq::<u8>::empty());
    assert(spec_inner_coders(inner.drop_last()) =~= spec_coder_spec_bytes(inner[0]));
    assert(spec_inner_coders(inner) =~= spec_coder_spec_bytes(inner[0]) + spec_coder_spec_bytes(inner[1]));
    assert(spec_chain_pairs(0) =~= Seq::<u8>::empty());
    assert(spec_chain_pairs(1) =~= spec_varint_encode(1) + spec_varint_encode(0));
    assert(spec_coder_chain(inner) =~= spec_varint_encode(2) + spec_coder_spec_bytes(inner[0]) + spec_coder_spec_bytes(
        inner[1],
    ) + spec_varint_encode(1) + spec_varint_encode(0));
}

/// Key, IV and coder properties for one AES layer.
pub struct AesMaterial {
    pub key: [u8; 32],
    pub iv: [u8; 16],
    pub props: Vec<u8>,
}

/// The AES settings are within the format's bounds: at most 2^24 key
/// rounds, a salt and an IV of at most 16 bytes.
pub open spec fn aes_settings_ok(e: EncryptionOptions) -> bool {
    e.num_cycles_power <= MAX_AES_NUM_CYCLES_POWER && e.salt_len <= 16 && e.iv_len <= 16
}

/// `out_pack`, `out_info` and `out_sizes` are the payload `pack` (coder
/// info `info`, output sizes `sizes`) behind an AES layer of the settings
/// `e`, with the salt `salt` and IV `iv` of the requested lengths: the
/// zero-padded payload encrypted with the key derived from the password and
/// salt, an AES coder chained in front of the payload's coders `inner`, and
/// the payload's size in front of the output sizes.
pub open spec fn aes_wrapped(
    out_pack: Seq<u8>,
    out_info: Seq<u8>,
    out_sizes: Seq<u64>,
    pack: Seq<u8>,
    info: Seq<u8>,
    sizes: Seq<u64>,
    e: EncryptionOptions,
    inner: Seq<CoderSpec>,
    salt: Seq<u8>,
    iv: Seq<u8>,
) -> bool {
    &&& salt.len() == e.salt_len
    &&& iv.len() == e.iv_len
    &&& info == spec_coder_chain(inner)
    &&& out_pack == crate::aes::aes256_cbc_encrypt(
        crate::aes::zero_pad_16(pack),
        crate::aes::spec_derive_key(e.password@, salt, e.num_cycles_power),
        iv + Seq::new((16 - iv.len()) as nat, |i: int| 0u8),
    )
    &&& out_info == spec_coder_info_aes_then(inner, crate::aes::spec_encode_aes_properties(e.num_cycles_power, salt, iv))
    &&& out_sizes == seq![pack.len() as u64] + sizes
}

/// The payload `pack` behind an AES layer of the settings `e`, for some salt
/// and IV of the requested lengths (see [`aes_wrapped`]).
pub open spec fn aes_layer(
    out_pack: Seq<u8>,
    out_info: Seq<u8>,
    out_sizes: Seq<u64>,
    pack: Seq<u8>,
    info: Seq<u8>,
    sizes: Seq<u64>,
    e: EncryptionOptions,
) -> bool {
    exists|inner: Seq<CoderSpec>, salt: Seq<u8>, iv: Seq<u8>|
        #[trigger] aes_wrapped(out_pack, out_info, out_sizes, pack, info, sizes, e, inner, salt, iv)
}

/// Draw a salt and IV of the configured lengths and derive the key. With
/// valid settings the only failure is that of the random source, reported
/// as [`R7zError::Parse`].
pub fn make_aes_material(options: &EncryptionOptions) -> (r: Result<AesMaterial, R7zError>)
    ensures
        aes_settings_ok(*options) ==> (r is Ok || r == Err::<AesMaterial, R7zError>(R7zError::Parse)),
        options.num_cycles_power > MAX_AES_NUM_CYCLES_POWER ==> r == Err::<AesMaterial, R7zError>(
            R7zError::InvalidOptions("AES num_cycles_power must be <= 24"),
        ),
        options.num_cycles_power <= MAX_AES_NUM_CYCLES_POWER && options.salt_len > 16 ==> r
            == Err::<AesMaterial, R7zError>(R7zError::InvalidOptions("AES salt_len must be <= 16")),
        options.num_cycles_power <= MAX_AES_NUM_CYCLES_POWER && options.salt_len <= 16
            && options.iv_len > 16 ==> r == Err::<AesMaterial, R7zError>(
            R7zError::InvalidOptions("AES iv_len must be <= 16"),
        ),
        r matches Ok(m) ==> exists|salt: Seq<u8>, iv: Seq<u8>|
            salt.len() == options.salt_len && iv.len() == options.iv_len
                && m.key@ == crate::aes::spec_derive_key(options.password@, salt, options.num_cycles_power)
                && m.props@ == crate::aes::spec_encode_aes_properties(options.num_cycles_power, salt, iv)
                && m.iv@ == iv + Seq::new((16 - iv.len()) as nat, |i: int| 0u8),
{
    if options.num_cycles_power > MAX_AES_NUM_CYCLES_POWER {
        return Err(R7zError::InvalidOptions("AES num_cycles_power must be <= 24"));
    }
    if options.salt_len > 16 {
        return Err(R7zError::InvalidOptions("AES salt_len must be <= 16"));
    }
    if options.iv_len > 16 {
        return Err(R7zError::InvalidOptions("AES iv_len must be <= 16"));
    }
    let salt = match random_bytes(options.salt_len as usize) {
        Some(v) => v,
        None => {
            return Err(R7zError::Parse);
        },
    };
    let iv_bytes = match random_bytes(options.iv_len as usize) {
        Some(v) => v,
        None => {
            return Err(R7zError::Parse);
        },
    };
    let mut iv = [0u8; 16];
    let mut k: usize = 0;
    while k < iv_bytes.len()
        invariant
            k <= iv_bytes@.len() <= 16,
            forall|q: int| 0 <= q < k ==> iv@[q] == iv_bytes@[q],
            forall|q: int| k <= q < 16 ==> iv@[q] == 0u8,
        decreases iv_bytes@.len() - k,
    {
        iv[k] = iv_bytes[k];
        k = k + 1;
    }
    let key = derive_key(options.password.as_str(), salt.as_slice(), options.num_cycles_power);
    let props = encode_aes_properties(options.num_cycles_power, salt.as_slice(), iv_bytes.as_slice());
    proof {
        assert(iv@ =~= iv_bytes@ + Seq::new((16 - iv_bytes@.len()) as nat, |i: int| 0u8));
    }
    Ok(AesMaterial { key, iv, props })
}

/// The 32-byte signature header for a next header at `next_header_offset`.
pub open spec fn spec_signature_bytes(next_header_offset: u64, next_header: Seq<u8>) -> Seq<u8> {
    let size = next_header.len() as u64;
    let crc = crc32(next_header);
    seq![0x37u8, 0x7au8, 0xbcu8, 0xafu8, 0x27u8, 0x1cu8, 0x00u8, 0x04u8] + le_bytes(
        crc32(start_header_bytes(next_header_offset, size, crc)) as nat,
        4,
    ) + le_bytes(next_header_offset as nat, 8) + le_bytes(size as nat, 8) + le_bytes(crc as nat, 4)
}

/// The 32-byte signature header for a next header at `next_header_offset`.
pub fn signature_bytes(next_header_offset: u64, next_header: &[u8]) -> (r: Vec<u8>)
    ensures
        r@ == spec_signature_bytes(next_header_offset, next_header@),
{
    let next_header_size = next_header.len() as u64;
    let next_header_crc = crc32_of(next_header);
    let mut start_header: Vec<u8> = Vec::new();
    push_le(&mut start_header, next_header_offset, 8);
    push_le(&mut start_header, next_header_size, 8);
    push_le(&mut start_header, next_header_crc as u64, 4);
    proof {
        assert(start_header@ =~= start_header_bytes(next_header_offset, next_header_size, next_header_crc));
    }
    let start_header_crc = crc32_of(start_header.as_slice());
    let mut sig: Vec<u8> = Vec::new();
    sig.push(0x37);
    sig.push(0x7a);
    sig.push(0xbc);
    sig.push(0xaf);
    sig.push(0x27);
    sig.push(0x1c);
    sig.push(0x00);
    sig.push(0x04);
    push_le(&mut sig, start_header_crc as u64, 4);
    push_le(&mut sig, next_header_offset, 8);
    push_le(&mut sig, next_header_size, 8);
    push_le(&mut sig, next_header_crc as u64, 4);
    proof {
        assert(sig@ =~= spec_signature_bytes(next_header_offset, next_header@));
    }
    sig
}

/// The data of the files `idx` of `es`, concatenated; `None` when one has no data.
pub open spec fn folder_data(es: Seq<WriteEntry>, idx: Seq<usize>) -> Option<Seq<u8>>
    decreases idx.len(),
{
    if idx.len() == 0 {
        Some(Seq::empty())
    } else {
        match folder_data(es, idx.drop_last()) {
            None => None,
            Some(d) => match es[idx.last() as int].data {
                None => None,
                Some(v) => Some(d + v@),
            },
        }
    }
}

/// The sizes of the files `idx` of `es`.
pub open spec fn file_sizes_of(es: Seq<WriteEntry>, idx: Seq<usize>) -> Seq<u64> {
    Seq::new(
        idx.len(),
        |k: int|
            match es[idx[k] as int].data {
                Some(v) => v@.len() as u64,
                None => 0,
            },
    )
}

/// The digests of the files `idx` of `es`.
pub open spec fn file_crcs_of(es: Seq<WriteEntry>, idx: Seq<usize>) -> Seq<Option<u32>> {
    Seq::new(
        idx.len(),
        |k: int|
            match es[idx[k] as int].data {
                Some(v) => Some(crc32(v@)),
                None => None,
            },
    )
}

/// Compress (and, with encryption, encrypt) the files `file_indices` into one folder.
pub fn encode_folder(entries: &[WriteEntry], file_indices: Vec<usize>, options: &ArchiveOptions) -> (r: Result<
    PreparedFolder,
    R7zError,
>)
    requires
        forall|k: int| 0 <= k < file_indices@.len() ==> #[trigger] file_indices@[k] < entries@.len(),
        method_settings_ok(options.codec, options.compression),
    ensures
        folder_data(entries@, file_indices@) is None ==> r == Err::<PreparedFolder, R7zError>(R7zError::Parse),
        r matches Ok(pf) ==> ({
            &&& pf.metadata.file_indices@ == file_indices@
            &&& pf.metadata.file_sizes@ == file_sizes_of(entries@, file_indices@)
            &&& pf.metadata.file_crcs@ == file_crcs_of(entries@, file_indices@)
            &&& pf.metadata.folder_crc is None
            &&& pf.packed_streams@.len() == 1
            &&& pf.metadata.pack_sizes@ == seq![pf.packed_streams@[0]@.len() as u64]
        }),
        options.encryption is None ==> (folder_data(entries@, file_indices@) matches Some(d) ==> match spec_payload(
            d,
            options.codec,
            options.compression,
        ) {
            Err(e) => r == Err::<PreparedFolder, R7zError>(e),
            Ok((pack, info, sizes)) => r matches Ok(pf) && pf.packed_streams@[0]@ == pack
                && pf.metadata.coder_info@ == info && pf.metadata.coder_unpack_sizes@ == sizes,
        }),
        options.encryption matches Some(e) ==> (r matches Ok(pf) ==> folder_data(entries@, file_indices@) matches Some(d)
            && spec_payload(d, options.codec, options.compression) matches Ok((pack, info, sizes)) && aes_layer(
            pf.packed_streams@[0]@,
            pf.metadata.coder_info@,
            pf.metadata.coder_unpack_sizes@,
            pack,
            info,
            sizes,
            e,
        )),
        options.encryption matches Some(e) && aes_settings_ok(e) ==> (folder_data(entries@, file_indices@) matches Some(
            d,
        ) && spec_payload(d, options.codec, options.compression) is Ok ==> (r is Ok || r == Err::<
            PreparedFolder,
            R7zError,
        >(R7zError::Parse))),
{
    let mut data: Vec<u8> = Vec::new();
    let mut file_sizes: Vec<u64> = Vec::new();
    let mut file_crcs: Vec<Option<u32>> = Vec::new();
    let mut k: usize = 0;
    while k < file_indices.len()
        invariant
            k <= file_indices@.len(),
            forall|q: int| 0 <= q < file_indices@.len() ==> #[trigger] file_indices@[q] < entries@.len(),
            folder_data(entries@, file_indices@.take(k as int)) == Some(data@),
            file_sizes@ == file_sizes_of(entries@, file_indices@.take(k as int)),
            file_crcs@ == file_crcs_of(entries@, file_indices@.take(k as int)),
        decreases file_indices@.len() - k,
    {
        let idx = file_indices[k];
        proof {
            assert(file_indices@.take(k + 1).drop_last() =~= file_indices@.take(k as int));
        }
        let bytes = match &entries[idx].data {
            Some(b) => b,
            None => {
                proof {
                    lemma_folder_data_none(entries@, file_indices@, (k + 1) as nat);
                }
                return Err(R7zError::Parse);
            },
        };
        file_sizes.push(bytes.len() as u64);
        file_crcs.push(Some(crc32_of(bytes.as_slice())));
        push_bytes(&mut data, bytes.as_slice());
        proof {
            assert(file_sizes@ =~= file_sizes_of(entries@, file_indices@.take(k + 1)));
            assert(file_crcs@ =~= file_crcs_of(entries@, file_indices@.take(k + 1)));
        }
        k = k + 1;
    }
    proof {
        assert(file_indices@.take(file_indices@.len() as int) =~= file_indices@);
    }
    let payload = encode_payload_with_options(data.as_slice(), options.codec, &options.compression)?;
    let ghost p0 = payload.pack@;
    let ghost i0 = payload.coder_info@;
    let ghost s0 = payload.unpack_sizes@;
    let mut pack = payload.pack;
    let mut coder_info = payload.coder_info;
    let mut coder_unpack_sizes = payload.unpack_sizes;
    match &options.encryption {
        None => {},
        Some(enc) => {
            let aes = make_aes_material(enc)?;
            let before_padding = pack.len() as u64;
            pack = encrypt_aes256_cbc_zero_pad(pack.as_slice(), &aes.key, &aes.iv)?;
            coder_info = encode_coder_info_aes_then(payload.specs.as_slice(), aes.props.as_slice());
            let mut sizes: Vec<u64> = vec![before_padding];
            sizes.append(&mut coder_unpack_sizes);
            coder_unpack_sizes = sizes;
            proof {
                let (salt, iv) = choose|salt: Seq<u8>, iv: Seq<u8>|
                    salt.len() == enc.salt_len && iv.len() == enc.iv_len && aes.key@ == crate::aes::spec_derive_key(
                        enc.password@,
                        salt,
                        enc.num_cycles_power,
                    ) && aes.props@ == crate::aes::spec_encode_aes_properties(enc.num_cycles_power, salt, iv) && aes.iv@
                        == iv + Seq::new((16 - iv.len()) as nat, |i: int| 0u8);
                assert(coder_unpack_sizes@ =~= seq![p0.len() as u64] + s0);
                assert(aes_wrapped(pack@, coder_info@, coder_unpack_sizes@, p0, i0, s0, *enc, payload.specs@, salt, iv));
            }
        },
    }
    let pack_size = pack.len() as u64;
    let packed_streams = vec![pack];
    Ok(PreparedFolder {
        metadata: CompletedFolder {
            file_indices,
            pack_sizes: vec![pack_size],
            coder_info,
            coder_unpack_sizes,
            folder_crc: None,
            file_sizes,
            file_crcs,
        },
        packed_streams,
    })
}

/// A file without data makes the whole folder's data missing.
proof fn lemma_folder_data_none(es: Seq<WriteEntry>, idx: Seq<usize>, k: nat)
    requires
        1 <= k <= idx.len(),
        es[idx[k - 1] as int].data is None,
    ensures
        folder_data(es, idx) is None,
    decreases idx.len() - k,
{
    if k == idx.len() {
        assert(idx.take(k as int) =~= idx);
        assert(idx.drop_last().len() == k - 1);
    } else {
        lemma_folder_data_none(es, idx.drop_last(), k);
    }
}

/// An encoded header stream: packed bytes, coder description, coder output sizes.
pub struct HeaderEncoding {
    pub pack: Vec<u8>,
    pub coder_info: Vec<u8>,
    pub unpack_sizes: Vec<u64>,
}

/// The encryption settings behind an optional reference.
pub open spec fn opt_encryption(e: Option<&EncryptionOptions>) -> Option<EncryptionOptions> {
    match e {
        Some(x) => Some(*x),
        None => None,
    }
}

/// `pack`, `info` and `sizes` are the header `h` as stored compressed: LZMA
/// preset 6, behind an AES layer (see [`aes_layer`]) when `enc` asks for
/// the header to be encrypted.
pub open spec fn spec_header_stream(
    h: Seq<u8>,
    enc: Option<EncryptionOptions>,
    pack: Seq<u8>,
    info: Seq<u8>,
    sizes: Seq<u64>,
) -> bool {
    match lzma_encode(h, 6, None, None) {
        None => false,
        Some((b, z)) => {
            let li = spec_coder_info_lzma(seq![b] + le_bytes(lzma_preset_dict_size(6) as nat, 4));
            match enc {
                Some(e) => if e.encrypt_header {
                    aes_layer(pack, info, sizes, z, li, seq![h.len() as u64], e)
                } else {
                    pack == z && info == li && sizes == seq![h.len() as u64]
                },
                None => pack == z && info == li && sizes == seq![h.len() as u64],
            }
        },
    }
}

/// An archive whose header is stored as the stream `hp` (coder info `hi`,
/// output sizes `hs`) after the packed streams `p`: the signature header,
/// `p`, `hp`, then the encoded-header descriptor that points at `hp`.
pub open spec fn spec_archive_with_header(p: Seq<u8>, hp: Seq<u8>, hi: Seq<u8>, hs: Seq<u64>) -> Seq<u8> {
    let d = crate::write::header::spec_encoded_header_descriptor(p.len() as u64, hp.len() as u64, hi, hs);
    spec_signature_bytes((p + hp).len() as u64, d) + p + hp + d
}

/// Compress the raw header with LZMA preset 6 (and encrypt it when the
/// header is to be encrypted).
pub fn encode_header_stream(raw_header: &[u8], encryption: Option<&EncryptionOptions>) -> (r: Result<
    HeaderEncoding,
    R7zError,
>)
    ensures
        !(encryption matches Some(e) && e.encrypt_header) ==> match lzma_encode(raw_header@, 6, None, None) {
            None => r == Err::<HeaderEncoding, R7zError>(R7zError::Decompression),
            Some((b, s)) => r matches Ok(h) && h.pack@ == s && h.coder_info@ == spec_coder_info_lzma(
                seq![b] + le_bytes(lzma_preset_dict_size(6) as nat, 4),
            ) && h.unpack_sizes@ == seq![raw_header@.len() as u64],
        },
        encryption matches Some(e) && e.encrypt_header && aes_settings_ok(*e) ==> match lzma_encode(
            raw_header@,
            6,
            None,
            None,
        ) {
            None => r == Err::<HeaderEncoding, R7zError>(R7zError::Decompression),
            Some(_) => r is Ok || r == Err::<HeaderEncoding, R7zError>(R7zError::Parse),
        },
        r matches Ok(he) ==> spec_header_stream(
            raw_header@,
            opt_encryption(encryption),
            he.pack@,
            he.coder_info@,
            he.unpack_sizes@,
        ),
{
    let c = CompressionOptions {
        level: CompressionLevel::Normal,
        dictionary_size: None,
        fast_bytes: None,
        literal_context_bits: None,
        literal_position_bits: None,
        position_bits: None,
        match_finder: None,
        solid: SolidMode::Solid,
        lzma2_chunk_size: None,
        lzma_algorithm: None,
        match_cycles: None,
    };
    let (props, compressed) = compress_lzma(raw_header, &c)?;
    let coder_info = encode_coder_info_lzma(props.as_slice());
    let sizes: Vec<u64> = vec![raw_header.len() as u64];
    proof {
        let (b, z) = lzma_encode(raw_header@, 6, None, None)->Some_0;
        assert(compressed@ == z);
        assert(coder_info@ == spec_coder_info_lzma(seq![b] + le_bytes(lzma_preset_dict_size(6) as nat, 4)));
        assert(sizes@ == seq![raw_header@.len() as u64]);
    }
    let enc = match encryption {
        Some(e) => if e.encrypt_header {
            e
        } else {
            return Ok(HeaderEncoding { pack: compressed, coder_info, unpack_sizes: sizes });
        },
        None => {
            return Ok(HeaderEncoding { pack: compressed, coder_info, unpack_sizes: sizes });
        },
    };
    let aes = make_aes_material(enc)?;
    let before_padding = compressed.len() as u64;
    let encrypted = encrypt_aes256_cbc_zero_pad(compressed.as_slice(), &aes.key, &aes.iv)?;
    let specs = vec![CoderSpec::Lzma(props)];
    let info = encode_coder_info_aes_then(specs.as_slice(), aes.props.as_slice());
    let unpack_sizes = vec![before_padding, raw_header.len() as u64];
    proof {
        lemma_chain_one(specs@);
        assert(coder_info@ =~= spec_coder_chain(specs@));
        let (salt, iv) = choose|salt: Seq<u8>, iv: Seq<u8>|
            salt.len() == enc.salt_len && iv.len() == enc.iv_len && aes.key@ == crate::aes::spec_derive_key(
                enc.password@,
                salt,
                enc.num_cycles_power,
            ) && aes.props@ == crate::aes::spec_encode_aes_properties(enc.num_cycles_power, salt, iv) && aes.iv@ == iv
                + Seq::new((16 - iv.len()) as nat, |i: int| 0u8);
        assert(unpack_sizes@ =~= seq![compressed@.len() as u64] + sizes@);
        assert(aes_wrapped(encrypted@, info@, unpack_sizes@, compressed@, coder_info@, sizes@, *enc, specs@, salt, iv));
    }
    Ok(HeaderEncoding { pack: encrypted, coder_info: info, unpack_sizes })
}

/// Streams concatenated.
pub open spec fn concat_streams(ss: Seq<Vec<u8>>) -> Seq<u8>
    decreases ss.len(),
{
    if ss.len() == 0 {
        Seq::empty()
    } else {
        concat_streams(ss.drop_last()) + ss.last()@
    }
}

/// Whether the header is stored compressed.
pub open spec fn spec_should_encode(o: ArchiveOptions, num_entries: nat) -> bool {
    match o.header_mode {
        HeaderMode::Plain => false,
        HeaderMode::Encoded => true,
        HeaderMode::P7zipDefault => num_entries > 1 || o.encryption is Some,
    }
}

/// An archive whose header `h` is stored LZMA-compressed (preset 6) after
/// the packed streams `p`: the signature header, `p`, the compressed header,
/// then the encoded-header descriptor that points at it.
pub open spec fn spec_encoded_archive(p: Seq<u8>, h: Seq<u8>) -> Seq<u8> {
    let (b, z) = lzma_encode(h, 6, None, None)->Some_0;
    let d = crate::write::header::spec_encoded_header_descriptor(
        p.len() as u64,
        z.len() as u64,
        spec_coder_info_lzma(seq![b] + le_bytes(lzma_preset_dict_size(6) as nat, 4)),
        seq![h.len() as u64],
    );
    spec_signature_bytes((p + z).len() as u64, d) + p + z + d
}

/// Assemble an archive: signature header, packed streams, then the header
/// (stored plainly, or compressed after the packed streams and described by
/// an encoded-header descriptor). `metadata` describes the folders whose
/// packed streams are `packed`, in order.
pub fn build_archive_from_prepared(
    entries: &[WriteEntry],
    metadata: &[CompletedFolder],
    packed: &[Vec<u8>],
    options: &ArchiveOptions,
) -> (r: Result<Vec<u8>, R7zError>)
    requires
        entries@.len() * 16 + 64 < usize::MAX,
    ensures
        spec_validate_archive(*options) matches Err(e) ==> r == Err::<Vec<u8>, R7zError>(e),
        spec_validate_archive(*options) is Ok && !spec_should_encode(*options, entries@.len())
            && crate::write::header::spec_name_data(entries@).len() < u64::MAX ==> ({
            let p = concat_streams(packed@);
            let h = crate::write::header::spec_header_bytes(entries@, metadata@);
            r matches Ok(a) && a@ == spec_signature_bytes(p.len() as u64, h) + p + h
        }),
        r matches Ok(a) ==> a@.len() >= 32 && a@.subrange(0, 6) == seq![0x37u8, 0x7au8, 0xbcu8, 0xafu8, 0x27u8, 0x1cu8],
        spec_validate_archive(*options) is Ok && spec_should_encode(*options, entries@.len()) && options.encryption is None
            && crate::write::header::spec_name_data(entries@).len() < u64::MAX ==> (r is Ok <==> lzma_encode(
            crate::write::header::spec_header_bytes(entries@, metadata@),
            6,
            None,
            None,
        ) is Some),
        spec_validate_archive(*options) is Ok && spec_should_encode(*options, entries@.len()) && options.encryption is None
            && crate::write::header::spec_name_data(entries@).len() < u64::MAX ==> (r matches Ok(a) ==> a@
            == spec_encoded_archive(concat_streams(packed@), crate::write::header::spec_header_bytes(entries@, metadata@))),
        spec_validate_archive(*options) is Ok && spec_should_encode(*options, entries@.len())
            && crate::write::header::spec_name_data(entries@).len() < u64::MAX ==> (r matches Ok(a) ==> exists|
            hp: Seq<u8>,
            hi: Seq<u8>,
            hs: Seq<u64>,
        |
            #[trigger] spec_header_stream(
                crate::write::header::spec_header_bytes(entries@, metadata@),
                options.encryption,
                hp,
                hi,
                hs,
            ) && a@ == spec_archive_with_header(concat_streams(packed@), hp, hi, hs)),
        spec_validate_archive(*options) is Ok && options.encryption is Some && crate::write::header::spec_name_data(
            entries@,
        ).len() < u64::MAX ==> (r is Ok || r == Err::<Vec<u8>, R7zError>(R7zError::Parse) || r == Err::<
            Vec<u8>,
            R7zError,
        >(R7zError::Decompression)),
{
    validate_archive_options(options)?;
    let mut packed_data: Vec<u8> = Vec::new();
    let mut k: usize = 0;
    proof {
        assert(packed@.take(0) =~= Seq::<Vec<u8>>::empty());
    }
    while k < packed.len()
        invariant
            k <= packed@.len(),
            packed_data@ == concat_streams(packed@.take(k as int)),
        decreases packed@.len() - k,
    {
        push_bytes(&mut packed_data, packed[k].as_slice());
        proof {
            assert(packed@.take(k + 1).drop_last() =~= packed@.take(k as int));
        }
        k = k + 1;
    }
    proof {
        assert(packed@.take(packed@.len() as int) =~= packed@);
    }
    let raw_header = build_header(entries, metadata);
    let should_encode = match options.header_mode {
        HeaderMode::Plain => false,
        HeaderMode::Encoded => true,
        HeaderMode::P7zipDefault => entries.len() > 1 || options.encryption.is_some(),
    };
    let mut archive: Vec<u8> = Vec::new();
    if should_encode {
        let enc = match &options.encryption {
            Some(e) => Some(e),
            None => None,
        };
        let he = encode_header_stream(raw_header.as_slice(), enc)?;
        let ghost p0 = packed_data@;
        let pack_pos = packed_data.len() as u64;
        push_bytes(&mut packed_data, he.pack.as_slice());
        let descriptor = build_encoded_header_descriptor(
            pack_pos,
            he.pack.len() as u64,
            he.coder_info.as_slice(),
            he.unpack_sizes.as_slice(),
        );
        let sig = signature_bytes(packed_data.len() as u64, descriptor.as_slice());
        push_bytes(&mut archive, sig.as_slice());
        push_bytes(&mut archive, packed_data.as_slice());
        push_bytes(&mut archive, descriptor.as_slice());
        proof {
            lemma_signature_len(packed_data@.len() as u64, descriptor@);
            assert(archive@.subrange(0, 6) =~= sig@.subrange(0, 6));
            assert(opt_encryption(enc) == options.encryption);
            assert(packed_data@ =~= p0 + he.pack@);
            assert(archive@ =~= spec_archive_with_header(p0, he.pack@, he.coder_info@, he.unpack_sizes@));
        }
    } else {
        let sig = signature_bytes(packed_data.len() as u64, raw_header.as_slice());
        push_bytes(&mut archive, sig.as_slice());
        push_bytes(&mut archive, packed_data.as_slice());
        push_bytes(&mut archive, raw_header.as_slice());
        proof {
            lemma_signature_len(packed_data@.len() as u64, raw_header@);
            assert(archive@.subrange(0, 6) =~= sig@.subrange(0, 6));
        }
    }
    Ok(archive)
}

/// The signature header is 32 bytes and starts with the 7z magic.
pub proof fn lemma_signature_len(offset: u64, next_header: Seq<u8>)
    ensures
        spec_signature_bytes(offset, next_header).len() == 32,
        spec_signature_bytes(offset, next_header).subrange(0, 6) == seq![0x37u8, 0x7au8, 0xbcu8, 0xafu8, 0x27u8, 0x1cu8],
{
    crate::parsers::lemma_le_bytes_len(crc32(start_header_bytes(offset, next_header.len() as u64, crc32(next_header))) as nat, 4);
    crate::parsers::lemma_le_bytes_len(offset as nat, 8);
    crate::parsers::lemma_le_bytes_len((next_header.len() as u64) as nat, 8);
    crate::parsers::lemma_le_bytes_len(crc32(next_header) as nat, 4);
    assert(spec_signature_bytes(offset, next_header).subrange(0, 6) =~= seq![0x37u8, 0x7au8, 0xbcu8, 0xafu8, 0x27u8, 0x1cu8]);
}

/// The signature header the writer puts in front of an archive reads back
/// as written: the magic, version 0.4, the next header's offset, size and
/// digest, and a start-header digest that checks.
pub proof fn lemma_signature_reads_back(offset: u64, next_header: Seq<u8>)
    requires
        next_header.len() <= u64::MAX,
    ensures
        ({
            let s = spec_signature_bytes(offset, next_header);
            let v = crate::headers::spec_signature_header(s);
            &&& s.len() == 32
            &&& v.signature == seq![0x37u8, 0x7au8, 0xbcu8, 0xafu8, 0x27u8, 0x1cu8]
            &&& v.major_version == 0
            &&& v.minor_version == 4
            &&& v.next_header_offset == offset
            &&& v.next_header_size == next_header.len()
            &&& v.next_header_crc == crc32(next_header)
            &&& crate::archive::sig_valid_at(s, 0)
        }),
{
    let size = next_header.len() as u64;
    let crc = crc32(next_header);
    let sc = crc32(start_header_bytes(offset, size, crc));
    let s = spec_signature_bytes(offset, next_header);
    lemma_signature_len(offset, next_header);
    crate::parsers::lemma_le_bytes_len(sc as nat, 4);
    crate::parsers::lemma_le_bytes_len(offset as nat, 8);
    crate::parsers::lemma_le_bytes_len(size as nat, 8);
    crate::parsers::lemma_le_bytes_len(crc as nat, 4);
    crate::parsers::lemma_le_value_le_bytes(sc as nat, 4);
    crate::parsers::lemma_le_value_le_bytes(offset as nat, 8);
    crate::parsers::lemma_le_value_le_bytes(size as nat, 8);
    crate::parsers::lemma_le_value_le_bytes(crc as nat, 4);
    assert(crate::parsers::pow256(4) == 0x1_0000_0000) by {
        reveal_with_fuel(crate::parsers::pow256, 5);
    }
    assert(crate::parsers::pow256(8) == 0x1_0000_0000_0000_0000) by {
        reveal_with_fuel(crate::parsers::pow256, 9);
    }
    assert(s.subrange(8, 12) =~= le_bytes(sc as nat, 4));
    assert(s.subrange(12, 20) =~= le_bytes(offset as nat, 8));
    assert(s.subrange(20, 28) =~= le_bytes(size as nat, 8));
    assert(s.subrange(28, 32) =~= le_bytes(crc as nat, 4));
    assert(s.subrange(0, 32) =~= s);
}

/// An archive laid out as the signature header, the packed streams `p`,
/// then the header `h` is found by the reader's signature scan at offset 0,
/// and its signature header points at `h`: right after `p`, of `h`'s size.
pub proof fn lemma_built_archive_signature(p: Seq<u8>, h: Seq<u8>)
    requires
        p.len() <= u64::MAX,
        h.len() <= u64::MAX,
    ensures
        ({
            let a = spec_signature_bytes(p.len() as u64, h) + p + h;
            let v = crate::headers::spec_signature_header(a.subrange(0, 32));
            &&& crate::archive::spec_scan_signature(a, a.len() as int, 0, false) == Ok::<nat, R7zError>(0)
            &&& v.next_header_offset == p.len()
            &&& v.next_header_size == h.len()
            &&& v.next_header_crc == crc32(h)
            &&& a.subrange(32 + p.len() as int, 32 + p.len() + h.len() as int) == h
        }),
{
    let s = spec_signature_bytes(p.len() as u64, h);
    let a = s + p + h;
    lemma_signature_reads_back(p.len() as u64, h);
    assert(a.subrange(0, 32) =~= s);
    assert(a.subrange(0, 6) =~= s.subrange(0, 6));
    assert(crate::archive::sig_valid_at(a, 0)) by {
        assert(a.subrange(0, 0int + 32) =~= s.subrange(0, 32));
    }
    assert(a.subrange(32 + p.len() as int, 32 + p.len() + h.len() as int) =~= h);
}

/// An archive laid out as the signature header, the packed streams `p`,
/// then a plain header `h` (its first byte the `Header` tag) of at most
/// `max` bytes opens: the reader finds the signature header at offset 0 and
/// parses exactly `h` as the main header.
pub proof fn lemma_plain_archive_opens(p: Seq<u8>, h: Seq<u8>, password: Option<Seq<char>>, max: u64)
    requires
        h.len() > 0,
        h[0] == 0x01u8,
        h.len() <= max,
        32 + p.len() + h.len() <= u64::MAX,
    ensures
        crate::archive::spec_open(spec_signature_bytes(p.len() as u64, h) + p + h, password, max)
            == crate::archive::OpenOutcome::Located(0, h),
{
    let a = spec_signature_bytes(p.len() as u64, h) + p + h;
    lemma_built_archive_signature(p, h);
    lemma_signature_len(p.len() as u64, h);
    let scan: int = if a.len() < crate::archive::DEFAULT_MAX_METADATA_BYTES {
        a.len() as int
    } else {
        crate::archive::DEFAULT_MAX_METADATA_BYTES as int
    };
    let sig = spec_signature_bytes(p.len() as u64, h);
    lemma_signature_reads_back(p.len() as u64, h);
    assert(a.subrange(0, 6) =~= sig.subrange(0, 6));
    assert(crate::archive::sig_valid_at(a, 0)) by {
        assert(a.subrange(0, 0int + 32) =~= sig.subrange(0, 32));
    }
    assert(crate::archive::spec_scan_signature(a, scan, 0, false) == Ok::<nat, R7zError>(0));
    assert(a.subrange(0, 0int + 32) == a.subrange(0, 32));
    assert(a.subrange(32 + p.len() as int, 32 + p.len() + h.len() as int) == h);
    assert(crate::property::spec_parse_property(h) == Some(crate::property::Property::Header));
}

/// A plain-header archive that [`build_archive`] writes for `es` opens: the
/// reader locates, at offset 0, exactly the header the writer wrote for
/// `es` and the folders it made, when that header is within `max` bytes.
pub proof fn lemma_built_plain_archive_opens(
    a: Seq<u8>,
    es: Seq<WriteEntry>,
    o: ArchiveOptions,
    password: Option<Seq<char>>,
    max: u64,
)
    requires
        built_archive(a, es, o),
        !spec_should_encode(o, es.len()),
        crate::write::header::spec_name_data(es).len() < u64::MAX,
        a.len() <= u64::MAX,
    ensures
        exists|ms: Seq<CompletedFolder>, p: Seq<u8>|
            a == #[trigger] spec_signature_bytes(p.len() as u64, crate::write::header::spec_header_bytes(es, ms)) + p
                + crate::write::header::spec_header_bytes(es, ms) && (crate::write::header::spec_header_bytes(es, ms).len()
                <= max ==> crate::archive::spec_open(a, password, max) == crate::archive::OpenOutcome::Located(
                0,
                crate::write::header::spec_header_bytes(es, ms),
            )),
{
    let (ids, ms, ps) = choose|ids: Seq<usize>, ms: Seq<CompletedFolder>, ps: Seq<Vec<u8>>| #[trigger] archive_layout(a, es, o, ids, ms, ps);
    let p = concat_streams(ps);
    let h = crate::write::header::spec_header_bytes(es, ms);
    assert(a == spec_signature_bytes(p.len() as u64, h) + p + h);
    assert(h[0] == 0x01u8);
    lemma_signature_len(p.len() as u64, h);
    if h.len() <= max {
        lemma_plain_archive_opens(p, h, password, max);
    }
}

/// Indices of the entries with data in folder `id`, in order.
pub open spec fn stream_indices_of(es: Seq<WriteEntry>, id: usize) -> Seq<usize>
    decreases es.len(),
{
    if es.len() == 0 {
        Seq::empty()
    } else if es.last().has_stream && es.last().folder_id == id {
        stream_indices_of(es.drop_last(), id).push((es.len() - 1) as usize)
    } else {
        stream_indices_of(es.drop_last(), id)
    }
}

/// The indices of the entries with data in folder `id`.
pub(crate) fn indices_in_folder(entries: &[WriteEntry], id: usize) -> (r: Vec<usize>)
    ensures
        r@ == stream_indices_of(entries@, id),
        forall|k: int| 0 <= k < r@.len() ==> #[trigger] r@[k] < entries@.len(),
{
    let mut r: Vec<usize> = Vec::new();
    let mut i: usize = 0;
    while i < entries.len()
        invariant
            i <= entries@.len(),
            r@ == stream_indices_of(entries@.take(i as int), id),
            forall|k: int| 0 <= k < r@.len() ==> #[trigger] r@[k] < i,
        decreases entries@.len() - i,
    {
        proof {
            assert(entries@.take(i + 1).drop_last() =~= entries@.take(i as int));
        }
        if entries[i].has_stream && entries[i].folder_id == id {
            r.push(i);
        }
        i = i + 1;
    }
    proof {
        assert(entries@.take(entries@.len() as int) =~= entries@);
    }
    r
}

/// No entry of `es` has data.
pub open spec fn no_streams(es: Seq<WriteEntry>) -> bool {
    forall|i: int| 0 <= i < es.len() ==> !(#[trigger] es[i]).has_stream
}

/// Folder `id` holds the data of at least one entry of `es`.
pub open spec fn is_stream_folder(es: Seq<WriteEntry>, id: usize) -> bool {
    exists|i: int| 0 <= i < es.len() && (#[trigger] es[i]).has_stream && es[i].folder_id == id
}

/// `ids` are the folders of `es` that hold data, in increasing order.
pub open spec fn folder_ids_in_order(es: Seq<WriteEntry>, ids: Seq<usize>) -> bool {
    &&& forall|j: int, k: int| 0 <= j < k < ids.len() ==> ids[j] < ids[k]
    &&& forall|k: int| 0 <= k < ids.len() ==> is_stream_folder(es, #[trigger] ids[k])
    &&& forall|i: int| 0 <= i < es.len() && (#[trigger] es[i]).has_stream ==> ids.contains(es[i].folder_id)
}

/// The folder `m`, with packed stream `p`, is folder `id` of `es` encoded
/// with `o`: its streams, their sizes and digests, and the packed data,
/// description and sizes that [`spec_payload`] gives, behind an AES layer
/// (see [`aes_layer`]) when `o` asks for encryption.
pub open spec fn folder_made(m: CompletedFolder, p: Vec<u8>, es: Seq<WriteEntry>, id: usize, o: ArchiveOptions) -> bool {
    let idx = stream_indices_of(es, id);
    &&& folder_data(es, idx) matches Some(d) && spec_payload(d, o.codec, o.compression) matches Ok((pack, info, sizes))
        && (match o.encryption {
        None => p@ == pack && m.coder_info@ == info && m.coder_unpack_sizes@ == sizes,
        Some(e) => aes_layer(p@, m.coder_info@, m.coder_unpack_sizes@, pack, info, sizes, e),
    }) && m.pack_sizes@ == seq![p@.len() as u64]
    &&& m.file_indices@ == idx
    &&& m.file_sizes@ == file_sizes_of(es, idx)
    &&& m.file_crcs@ == file_crcs_of(es, idx)
    &&& m.folder_crc is None
}

/// Every folder of `es` that holds data has all of it, and it encodes.
pub open spec fn folders_encodable(es: Seq<WriteEntry>, o: ArchiveOptions) -> bool {
    forall|i: int|
        0 <= i < es.len() && (#[trigger] es[i]).has_stream ==> (folder_data(es, stream_indices_of(es, es[i].folder_id))
            matches Some(d) && spec_payload(d, o.codec, o.compression) is Ok)
}

/// The folders `ms` (with packed streams `ps`) are those of `es`, one for
/// each of the ids `ids`, made as [`folder_made`] says.
pub open spec fn folders_laid_out(
    es: Seq<WriteEntry>,
    o: ArchiveOptions,
    ids: Seq<usize>,
    ms: Seq<CompletedFolder>,
    ps: Seq<Vec<u8>>,
) -> bool {
    &&& folder_ids_in_order(es, ids)
    &&& ms.len() == ids.len()
    &&& ps.len() == ids.len()
    &&& forall|k: int| 0 <= k < ids.len() ==> folder_made(#[trigger] ms[k], ps[k], es, ids[k], o)
}

/// The archive `a` built from `es` with `o` lays out its folders as
/// [`folders_laid_out`] says; with a plain header it is the signature
/// header, the packed streams in order, then the header; with a compressed
/// header it is [`spec_archive_with_header`] of the packed streams and the
/// header stream that [`spec_header_stream`] describes (without encryption,
/// exactly [`spec_encoded_archive`] of them).
pub open spec fn archive_layout(
    a: Seq<u8>,
    es: Seq<WriteEntry>,
    o: ArchiveOptions,
    ids: Seq<usize>,
    ms: Seq<CompletedFolder>,
    ps: Seq<Vec<u8>>,
) -> bool {
    &&& folders_laid_out(es, o, ids, ms, ps)
    &&& !spec_should_encode(o, es.len()) && crate::write::header::spec_name_data(es).len() < u64::MAX ==> {
        let p = concat_streams(ps);
        let h = crate::write::header::spec_header_bytes(es, ms);
        a == spec_signature_bytes(p.len() as u64, h) + p + h
    }
    &&& spec_should_encode(o, es.len()) && o.encryption is None && crate::write::header::spec_name_data(es).len()
        < u64::MAX ==> a == spec_encoded_archive(concat_streams(ps), crate::write::header::spec_header_bytes(es, ms))
    &&& spec_should_encode(o, es.len()) && crate::write::header::spec_name_data(es).len() < u64::MAX ==> exists|
        hp: Seq<u8>,
        hi: Seq<u8>,
        hs: Seq<u64>,
    |
        #[trigger] spec_header_stream(crate::write::header::spec_header_bytes(es, ms), o.encryption, hp, hi, hs) && a
            == spec_archive_with_header(concat_streams(ps), hp, hi, hs)
}

/// `a` is an archive that [`build_archive`] gives for `es` and `o`.
pub open spec fn built_archive(a: Seq<u8>, es: Seq<WriteEntry>, o: ArchiveOptions) -> bool {
    exists|ids: Seq<usize>, ms: Seq<CompletedFolder>, ps: Seq<Vec<u8>>| #[trigger] archive_layout(a, es, o, ids, ms, ps)
}

/// The compressed header of the folders of `es` did not encode.
pub open spec fn header_refused(es: Seq<WriteEntry>, o: ArchiveOptions) -> bool {
    exists|ids: Seq<usize>, ms: Seq<CompletedFolder>, ps: Seq<Vec<u8>>| #[trigger] folders_laid_out(es, o, ids, ms, ps)
        && lzma_encode(crate::write::header::spec_header_bytes(es, ms), 6, None, None) is None
}

/// Encode every folder (in ascending folder id) and assemble the archive.
pub fn build_archive(entries: &[WriteEntry], options: &ArchiveOptions) -> (r: Result<Vec<u8>, R7zError>)
    requires
        entries@.len() * 16 + 64 < usize::MAX,
        encoder_dict_fits(*options),
    ensures
        spec_validate_archive(*options) matches Err(e) ==> r == Err::<Vec<u8>, R7zError>(e),
        spec_validate_archive(*options) is Ok && !spec_should_encode(*options, entries@.len()) && no_streams(entries@)
            && crate::write::header::spec_name_data(entries@).len() < u64::MAX ==> ({
            let h = crate::write::header::spec_header_bytes(entries@, Seq::<CompletedFolder>::empty());
            r matches Ok(a) && a@ == spec_signature_bytes(0, h) + h
        }),
        r matches Ok(a) ==> a@.len() >= 32 && a@.subrange(0, 6) == seq![0x37u8, 0x7au8, 0xbcu8, 0xafu8, 0x27u8, 0x1cu8],
        r matches Ok(a) ==> built_archive(a@, entries@, *options),
        spec_validate_archive(*options) is Ok && options.encryption is None && folders_encodable(entries@, *options)
            && crate::write::header::spec_name_data(entries@).len() < u64::MAX ==> (r is Ok || (spec_should_encode(
            *options,
            entries@.len(),
        ) && header_refused(entries@, *options))),
        spec_validate_archive(*options) is Ok && options.encryption is Some && folders_encodable(entries@, *options)
            && crate::write::header::spec_name_data(entries@).len() < u64::MAX ==> (r is Ok || r == Err::<
            Vec<u8>,
            R7zError,
        >(R7zError::Parse) || (spec_should_encode(*options, entries@.len()) && r == Err::<Vec<u8>, R7zError>(
            R7zError::Decompression,
        ))),
{
    validate_archive_options(options)?;
    proof {
        lemma_valid_settings(*options);
    }
    let ghost es = entries@;
    let mut metadata: Vec<CompletedFolder> = Vec::new();
    let mut packed: Vec<Vec<u8>> = Vec::new();
    let mut last: Option<usize> = None;
    let ghost mut ids: Seq<usize> = Seq::empty();
    loop
        invariant
            es == entries@,
            entries@.len() * 16 + 64 < usize::MAX,
            spec_validate_archive(*options) is Ok,
            method_settings_ok(options.codec, options.compression),
            no_streams(entries@) ==> last is None && metadata@.len() == 0 && packed@.len() == 0,
            metadata@.len() == ids.len(),
            packed@.len() == ids.len(),
            last == (if ids.len() == 0 { None::<usize> } else { Some(ids.last()) }),
            forall|j: int, k: int| 0 <= j < k < ids.len() ==> ids[j] < ids[k],
            forall|k: int| 0 <= k < ids.len() ==> is_stream_folder(es, #[trigger] ids[k]),
            forall|i: int|
                0 <= i < es.len() && (#[trigger] es[i]).has_stream && (last matches Some(l) && es[i].folder_id <= l)
                    ==> ids.contains(es[i].folder_id),
            forall|k: int| 0 <= k < ids.len() ==> folder_made(#[trigger] metadata@[k], packed@[k], es, ids[k], *options),
            folders_encodable(es, *options) ==> forall|i: int|
                0 <= i < es.len() && (#[trigger] es[i]).has_stream ==> (folder_data(
                    es,
                    stream_indices_of(es, es[i].folder_id),
                ) matches Some(d) && spec_payload(d, options.codec, options.compression) is Ok),
        ensures
            forall|i: int| 0 <= i < es.len() && (#[trigger] es[i]).has_stream ==> ids.contains(es[i].folder_id),
        decreases (match last {
            None => usize::MAX as int + 1,
            Some(l) => usize::MAX - l,
        }),
    {
        let mut next: Option<usize> = None;
        let mut i: usize = 0;
        while i < entries.len()
            invariant
                es == entries@,
                i <= entries@.len(),
                next matches Some(n) ==> (last matches Some(l) ==> n > l),
                no_streams(entries@) ==> next is None,
                next matches Some(n) ==> is_stream_folder(es, n),
                forall|j: int|
                    0 <= j < i && (#[trigger] es[j]).has_stream && (last matches Some(l) ==> es[j].folder_id > l) ==> (next
                        matches Some(n) && n <= es[j].folder_id),
            decreases entries@.len() - i,
        {
            let e = &entries[i];
            if e.has_stream {
                let above = match last {
                    None => true,
                    Some(l) => e.folder_id > l,
                };
                let below = match next {
                    None => true,
                    Some(n) => e.folder_id < n,
                };
                if above && below {
                    next = Some(e.folder_id);
                }
                proof {
                    assert(es[i as int].has_stream);
                }
            }
            i = i + 1;
        }
        match next {
            None => {
                proof {
                    assert forall|i: int| 0 <= i < es.len() && (#[trigger] es[i]).has_stream implies ids.contains(
                        es[i].folder_id,
                    ) by {
                        assert(last matches Some(l) && es[i].folder_id <= l);
                    }
                }
                break;
            },
            Some(id) => {
                let indices = indices_in_folder(entries, id);
                let pf = encode_folder(entries, indices, options)?;
                let PreparedFolder { metadata: m, packed_streams: mut ps } = pf;
                let ghost old_ids = ids;
                let ghost old_last = last;
                proof {
                    assert(folder_made(m, ps@[0], es, id, *options));
                }
                let ghost p0 = ps@[0];
                metadata.push(m);
                packed.append(&mut ps);
                last = Some(id);
                proof {
                    ids = ids.push(id);
                    assert(packed@[packed@.len() - 1] == p0);
                    assert forall|j: int, k: int| 0 <= j < k < ids.len() implies ids[j] < ids[k] by {
                        if k == ids.len() - 1 && j < k {
                            assert(old_last matches Some(l) && l == old_ids.last());
                            if j < old_ids.len() - 1 {
                                assert(old_ids[j] < old_ids[old_ids.len() - 1]);
                            }
                        }
                    }
                    assert forall|k: int| 0 <= k < ids.len() implies is_stream_folder(es, #[trigger] ids[k]) by {
                        if k < old_ids.len() {
                            assert(ids[k] == old_ids[k]);
                        }
                    }
                    assert forall|i: int|
                        0 <= i < es.len() && (#[trigger] es[i]).has_stream && (last matches Some(l) && es[i].folder_id
                            <= l) implies ids.contains(es[i].folder_id) by {
                        if old_last matches Some(l) && es[i].folder_id <= l {
                            assert(old_ids.contains(es[i].folder_id));
                            let q = choose|q: int| 0 <= q < old_ids.len() && old_ids[q] == es[i].folder_id;
                            assert(ids[q] == es[i].folder_id);
                        } else {
                            assert(id <= es[i].folder_id);
                            assert(ids[ids.len() - 1] == es[i].folder_id);
                        }
                    }
                    assert forall|k: int| 0 <= k < ids.len() implies folder_made(
                        #[trigger] metadata@[k],
                        packed@[k],
                        es,
                        ids[k],
                        *options,
                    ) by {
                        if k < old_ids.len() {
                            assert(ids[k] == old_ids[k]);
                        }
                    }
                }
            },
        }
    }
    proof {
        if no_streams(entries@) {
            assert(metadata@ =~= Seq::<CompletedFolder>::empty());
            assert(packed@ =~= Seq::<Vec<u8>>::empty());
            assert(concat_streams(packed@) =~= Seq::<u8>::empty());
        }
        assert(folders_laid_out(es, *options, ids, metadata@, packed@));
    }
    let r = build_archive_from_prepared(entries, metadata.as_slice(), packed.as_slice(), options);
    proof {
        if r is Ok {
            assert(archive_layout(r->Ok_0@, es, *options, ids, metadata@, packed@));
        } else if spec_should_encode(*options, entries@.len()) && options.encryption is None
            && crate::write::header::spec_name_data(entries@).len() < u64::MAX {
            assert(folders_laid_out(es, *options, ids, metadata@, packed@));
        }
    }
    r
}

} // verus!
