//! Options and entry descriptions for writing archives.
use vstd::prelude::*;

verus! {

/// The compression chain used for file data.
#[derive(Clone, Copy, Debug, PartialEq, Eq, Structural)]
pub enum Codec {
    Copy,
    Lzma,
    Lzma2,
    Ppmd,
    Lzma2Bcj,
}

impl Default for Codec {
    fn default() -> (r: Self)
        ensures
            r == Codec::Lzma2,
    {
        Codec::Lzma2
    }
}

/// How the header is stored.
#[derive(Clone, Copy, Debug, PartialEq, Eq, Structural)]
pub enum HeaderMode {
    P7zipDefault,
    Plain,
    Encoded,
}

impl Default for HeaderMode {
    fn default() -> (r: Self)
        ensures
            r == HeaderMode::P7zipDefault,
    {
        HeaderMode::P7zipDefault
    }
}

/// Everything that decides how an archive is written.
#[derive(Clone, Debug, PartialEq, Eq)]
pub struct ArchiveOptions {
    pub codec: Codec,
    pub header_mode: HeaderMode,
    pub encryption: Option<EncryptionOptions>,
    pub compression: CompressionOptions,
    pub streaming: StreamingOptions,
}

impl Default for ArchiveOptions {
    fn default() -> (r: Self)
        ensures
            r.codec == Codec::Lzma2,
            r.header_mode == HeaderMode::P7zipDefault,
            r.encryption is None,
            is_default_compression(r.compression),
            r.streaming.buffer_size == 8192,
            r.streaming.spool == (SpoolMode::Auto { memory_threshold: 0x100_0000u64, dir: None }),
    {
        ArchiveOptions {
            codec: Codec::default(),
            header_mode: HeaderMode::default(),
            encryption: None,
            compression: CompressionOptions::default(),
            streaming: StreamingOptions::default(),
        }
    }
}

/// Tuning of the LZMA/LZMA2/PPMd encoders and of solid blocks.
#[derive(Clone, Debug, PartialEq, Eq, Structural)]
pub struct CompressionOptions {
    pub level: CompressionLevel,
    pub dictionary_size: Option<u32>,
    pub fast_bytes: Option<u32>,
    pub literal_context_bits: Option<u32>,
    pub literal_position_bits: Option<u32>,
    pub position_bits: Option<u32>,
    pub match_finder: Option<MatchFinder>,
    pub solid: SolidMode,
    /// LZMA2 chunk size; when given, it is non-zero.
    pub lzma2_chunk_size: Option<u64>,
    /// The LZMA encoder's search algorithm.
    pub lzma_algorithm: Option<LzmaAlgorithm>,
    /// The match finder's cycle limit (at most `i32::MAX`).
    pub match_cycles: Option<u32>,
}

/// The LZMA encoder's search algorithm.
#[derive(Clone, Copy, Debug, PartialEq, Eq, Structural)]
pub enum LzmaAlgorithm {
    Fast,
    Normal,
}

/// Normal level, everything else left to the level, fully solid.
pub open spec fn is_default_compression(c: CompressionOptions) -> bool {
    &&& c.level == CompressionLevel::Normal
    &&& c.dictionary_size is None
    &&& c.fast_bytes is None
    &&& c.literal_context_bits is None
    &&& c.literal_position_bits is None
    &&& c.position_bits is None
    &&& c.match_finder is None
    &&& c.solid == SolidMode::Solid
    &&& c.lzma2_chunk_size is None
    &&& c.lzma_algorithm is None
    &&& c.match_cycles is None
}

impl Default for CompressionOptions {
    fn default() -> (r: Self)
        ensures
            is_default_compression(r),
    {
        CompressionOptions {
            level: CompressionLevel::Normal,
            dictionary_size: None,
            fast_bytes: None,
            literal_context_bits: None,
            literal_position_bits: None,
            position_bits: None,
            match_finder: None,
            solid: SolidMode::Solid,
            lzma2_chunk_size: None,
            lzma_algorithm: None,
            match_cycles: None,
        }
    }
}

/// The LZMA match finder.
#[derive(Clone, Copy, Debug, PartialEq, Eq, Structural)]
pub enum MatchFinder {
    Hc4,
    Bt4,
}

/// Compression level, as the `-mx` switch names them.
#[derive(Clone, Copy, Debug, PartialEq, Eq, Structural)]
pub enum CompressionLevel {
    Store,
    Fastest,
    Fast,
    Normal,
    Maximum,
    Ultra,
}

impl Default for CompressionLevel {
    fn default() -> (r: Self)
        ensures
            r == CompressionLevel::Normal,
    {
        CompressionLevel::Normal
    }
}

/// How files are grouped into folders.
#[derive(Clone, Debug, PartialEq, Eq, Structural)]
pub enum SolidMode {
    Solid,
    NonSolid,
    /// A new folder starts when either limit would be passed; limits that
    /// are given are non-zero.
    Limit { max_files: Option<u64>, max_bytes: Option<u64> },
}

impl Default for SolidMode {
    fn default() -> (r: Self)
        ensures
            r == SolidMode::Solid,
    {
        SolidMode::Solid
    }
}

/// Buffering of streamed input.
#[derive(Clone, Debug, PartialEq, Eq)]
pub struct StreamingOptions {
    pub buffer_size: usize,
    pub spool: SpoolMode,
}

impl Default for StreamingOptions {
    fn default() -> (r: Self)
        ensures
            r.buffer_size == 8192,
            r.spool == (SpoolMode::Auto { memory_threshold: 0x100_0000u64, dir: None }),
    {
        StreamingOptions {
            buffer_size: 8192,
            spool: SpoolMode::Auto { memory_threshold: 16 * 1024 * 1024, dir: None },
        }
    }
}

/// Where streamed input waits before it is compressed.
#[derive(Clone, Debug, PartialEq, Eq)]
pub enum SpoolMode {
    Memory,
    /// A temporary file, in the directory given or the system's.
    TempFile { dir: Option<String> },
    Auto { memory_threshold: u64, dir: Option<String> },
}

/// Sizes of the volumes of a split archive; each is non-zero.
#[derive(Clone, Debug, PartialEq, Eq)]
pub struct VolumeOptions {
    pub sizes: Vec<u64>,
}

/// Password-based AES-256 encryption of data (and optionally of the header).
#[derive(Clone, Debug, PartialEq, Eq)]
pub struct EncryptionOptions {
    pub password: String,
    pub encrypt_header: bool,
    pub num_cycles_power: u8,
    pub salt_len: u8,
    pub iv_len: u8,
}

impl EncryptionOptions {
    /// The usual settings for `password`: 2^19 key-derivation rounds, no
    /// salt, a 16-byte IV, header not encrypted.
    #[must_use]
    pub fn default_for_password(password: &str) -> (r: Self)
        ensures
            r.password@ == password@,
            !r.encrypt_header,
            r.num_cycles_power == 19,
            r.salt_len == 0,
            r.iv_len == 16,
    {
        EncryptionOptions {
            password: password.to_owned(),
            encrypt_header: false,
            num_cycles_power: 19,
            salt_len: 0,
            iv_len: 16,
        }
    }
}

/// What an entry is.
#[derive(Clone, Copy, Debug, PartialEq, Eq, Structural)]
pub enum EntryKind {
    File,
    Directory,
    Anti,
}

/// Per-entry metadata. Times are Windows FILETIME values (100 ns since
/// 1601-01-01).
#[derive(Clone, Copy, Debug, PartialEq, Eq, Structural)]
pub struct EntryMeta {
    pub ctime: Option<u64>,
    pub atime: Option<u64>,
    pub mtime: Option<u64>,
    pub attributes: Option<u32>,
    pub start_pos: Option<u64>,
}

/// Windows attribute "archive" (a regular file).
pub const FILE_ATTRIBUTE_ARCHIVE: u32 = 0x20;

/// Windows attribute "directory".
pub const FILE_ATTRIBUTE_DIRECTORY: u32 = 0x10;

/// Unix mode of a symbolic link with all permissions.
pub const SYMLINK_UNIX_MODE: u32 = 0o120777;

/// Metadata carrying only `attributes`.
pub open spec fn meta_with_attributes(a: Option<u32>) -> EntryMeta {
    EntryMeta { ctime: None, atime: None, mtime: None, attributes: a, start_pos: None }
}

impl Default for EntryMeta {
    fn default() -> (r: Self)
        ensures
            r == meta_with_attributes(None),
    {
        EntryMeta { ctime: None, atime: None, mtime: None, attributes: None, start_pos: None }
    }
}

impl EntryMeta {
    /// A regular file with Unix mode `mode` (kept in the high 16 bits).
    #[must_use]
    pub fn from_unix_mode(mode: u32) -> (r: Self)
        ensures
            r == meta_with_attributes(Some((mode << 16u32) | FILE_ATTRIBUTE_ARCHIVE)),
    {
        EntryMeta { attributes: Some((mode << 16) | FILE_ATTRIBUTE_ARCHIVE), ..Self::default() }
    }

    /// A directory with Unix mode `mode` (kept in the high 16 bits).
    #[must_use]
    pub fn directory_unix_mode(mode: u32) -> (r: Self)
        ensures
            r == meta_with_attributes(Some((mode << 16u32) | FILE_ATTRIBUTE_DIRECTORY)),
    {
        EntryMeta { attributes: Some((mode << 16) | FILE_ATTRIBUTE_DIRECTORY), ..Self::default() }
    }

    /// A plain archived file.
    #[must_use]
    pub fn archive_file() -> (r: Self)
        ensures
            r == meta_with_attributes(Some(FILE_ATTRIBUTE_ARCHIVE)),
    {
        EntryMeta { attributes: Some(FILE_ATTRIBUTE_ARCHIVE), ..Self::default() }
    }

    /// A symbolic link (`0o120777` in the high 16 bits).
    #[must_use]
    pub fn symlink() -> (r: Self)
        ensures
            r == meta_with_attributes(Some((SYMLINK_UNIX_MODE << 16u32) | FILE_ATTRIBUTE_ARCHIVE)),
    {
        EntryMeta {
            attributes: Some((SYMLINK_UNIX_MODE << 16) | FILE_ATTRIBUTE_ARCHIVE),
            ..Self::default()
        }
    }

    /// This metadata, with the symbolic-link attributes when it has none.
    pub(crate) fn with_symlink_default(self) -> (r: Self)
        ensures
            r == (if self.attributes is None {
                EntryMeta {
                    attributes: Some((SYMLINK_UNIX_MODE << 16u32) | FILE_ATTRIBUTE_ARCHIVE),
                    ..self
                }
            } else {
                self
            }),
    {
        let mut m = self;
        if m.attributes.is_none() {
            m.attributes = Some((SYMLINK_UNIX_MODE << 16) | FILE_ATTRIBUTE_ARCHIVE);
        }
        m
    }
}

/// A named entry to be written.
#[derive(Clone, Debug, PartialEq, Eq)]
pub struct ArchiveEntry {
    pub name: String,
    pub kind: EntryKind,
    pub meta: EntryMeta,
}

impl ArchiveEntry {
    /// A regular file named `name`.
    #[must_use]
    pub fn file(name: &str, meta: EntryMeta) -> (r: Self)
        ensures
            r.name@ == name@,
            r.kind == EntryKind::File,
            r.meta == meta,
    {
        ArchiveEntry { name: name.to_owned(), kind: EntryKind::File, meta }
    }

    /// A directory named `name`.
    #[must_use]
    pub fn directory(name: &str, meta: EntryMeta) -> (r: Self)
        ensures
            r.name@ == name@,
            r.kind == EntryKind::Directory,
            r.meta == meta,
    {
        ArchiveEntry { name: name.to_owned(), kind: EntryKind::Directory, meta }
    }

    /// An anti-item (a deletion marker) named `name`.
    #[must_use]
    pub fn anti(name: &str, meta: EntryMeta) -> (r: Self)
        ensures
            r.name@ == name@,
            r.kind == EntryKind::Anti,
            r.meta == meta,
    {
        ArchiveEntry { name: name.to_owned(), kind: EntryKind::Anti, meta }
    }
}

/// An entry on its way into the archive.
#[derive(Clone, Debug)]
pub struct WriteEntry {
    pub name: String,
    pub kind: EntryKind,
    pub meta: EntryMeta,
    pub has_stream: bool,
    pub data: Option<Vec<u8>>,
    pub folder_id: usize,
}

/// A folder that has been encoded: what the header needs to describe it.
#[derive(Clone, Debug)]
pub struct CompletedFolder {
    pub file_indices: Vec<usize>,
    pub pack_sizes: Vec<u64>,
    pub coder_info: Vec<u8>,
    pub coder_unpack_sizes: Vec<u64>,
    pub folder_crc: Option<u32>,
    pub file_sizes: Vec<u64>,
    pub file_crcs: Vec<Option<u32>>,
}

/// An encoded folder together with its packed streams.
#[derive(Clone, Debug)]
pub struct PreparedFolder {
    pub metadata: CompletedFolder,
    pub packed_streams: Vec<Vec<u8>>,
}

} // verus!
