//! Reading and writing `.7z` archives.
//!
//! The header grammar of the 7z format (variable-length integers, property
//! tags, pack/unpack/substream descriptors, file listings) is parsed here by
//! functions on bytes whose contracts state, over mathematical models, what
//! they accept and what they produce.

pub mod aes;
pub mod archive;
pub mod bcj;
pub mod bcj2;
pub mod bcj2_folder;
pub mod cli;
pub mod codec;
pub mod commands;
pub mod byte_swap;
pub mod coder_info;
pub mod crc;
pub mod delta;
pub mod error;
pub mod files_info;
pub mod listing;
pub mod folder;
pub mod headers;
pub mod method;
pub mod pack_info;
pub mod parsers;
pub mod property;
pub mod stream_info;
pub mod switches;
pub mod text;
pub mod write;

pub use error::{ParseError, R7zError};
pub use parsers::{sevenzip_varuint64_decode, sevenzip_varuint64_encode, usize_cap};
pub use property::{find_next_property_id, Property};
pub use bcj::{bcj_x86_convert, bcj_x86_decode, bcj_x86_encode};
pub use codec::{decompress, decompress_folder, decompress_folder_with_password};
pub use coder_info::CoderInfo;
pub use folder::Folder;
pub use files_info::{EntryType, FilesInfo};
pub use headers::{EncodedHeader, Header, SignatureHeader};
pub use method::{method_from_id, method_from_name, MethodKind, SevenZMethod};

pub use pack_info::{PackInfo, UnpackInfo};
pub use stream_info::{StreamInfo, SubstreamInfo};
pub use write::builder::ArchiveBuilder;
pub use write::writer::{
    build_streaming, build_streaming_to_writer, build_streaming_volumes, build_streaming_with_options, ArchiveWriter,
};
pub use write::preserve::{
    build_archive_with_preserved_folders, PreservedArchiveEntry, PreservedEntryStream, RawFolderBlock,
};
pub use write::{
    ArchiveEntry, ArchiveOptions, Codec, CompressionLevel, CompressionOptions, EncryptionOptions, EntryKind,
    EntryMeta, HeaderMode, LzmaAlgorithm, MatchFinder, SolidMode, SpoolMode, StreamingOptions, VolumeOptions,
};
pub use archive::{
    Archive, ArchiveListing, ArchiveListingEntry, ArchiveMetadata, ArchiveOpenOptions, ArchiveStorageMode, ListingEntryKind,
};
