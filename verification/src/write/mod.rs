//! Writing archives: options, entries, header encoding and the builder.
pub mod builder;
pub mod encode;
pub mod header;
pub mod model;
pub mod preserve;
pub mod read_back;
pub mod writer;

pub use builder::ArchiveBuilder;
pub use model::{
    ArchiveEntry, ArchiveOptions, Codec, CompressionLevel, CompressionOptions, EncryptionOptions,
    EntryKind, EntryMeta, HeaderMode, LzmaAlgorithm, MatchFinder, SolidMode, SpoolMode, StreamingOptions,
    VolumeOptions,
};
