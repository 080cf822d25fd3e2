use r7z::write::encode::{encoder_dict_fits_options, encoder_dict_works};
use r7z::{
    build_streaming, build_streaming_to_writer, build_streaming_volumes, Archive, ArchiveEntry, ArchiveOptions,
    ArchiveWriter, Codec, EntryKind, EntryMeta, R7zError, SolidMode, VolumeOptions,
};

#[test]
fn writer_folders_follow_new_folder_requests() {
    let mut writer = ArchiveWriter::new(ArchiveOptions::default()).unwrap().compression(Codec::Lzma2);
    writer.append_file("a.txt", b"hello", EntryMeta::default()).unwrap();
    writer.append_empty_file("empty.txt", EntryMeta::default()).unwrap();
    writer.new_folder().unwrap();
    writer.append_entry("b.txt", b"world", EntryMeta::default()).unwrap();
    let bytes = writer.finish().unwrap();
    let archive = Archive::from_bytes(bytes).unwrap();
    assert_eq!(archive.num_files(), 3);
    let listing = archive.listing(None).unwrap();
    assert_eq!(listing.blocks, 2);
    assert_eq!(archive.extract_to_memory(0).unwrap(), b"hello");
    assert_eq!(archive.extract_to_memory(1).unwrap(), b"");
    assert_eq!(archive.extract_to_memory(2).unwrap(), b"world");
}

#[test]
fn writer_non_solid_gives_each_file_a_folder() {
    let mut o = ArchiveOptions::default();
    o.compression.solid = SolidMode::NonSolid;
    let mut writer = ArchiveWriter::new(o).unwrap();
    writer.append("one", b"1111").unwrap();
    writer.append("two", b"2222").unwrap();
    writer.append_directory("dir", EntryMeta::default()).unwrap();
    writer.new_folder().unwrap();
    let archive = Archive::from_bytes(writer.finish().unwrap()).unwrap();
    assert_eq!(archive.listing(None).unwrap().blocks, 2);
    assert_eq!(archive.extract_to_memory(1).unwrap(), b"2222");
}

#[test]
fn writer_refuses_data_for_non_file_entries() {
    let mut writer = ArchiveWriter::new_default().unwrap();
    let dir = ArchiveEntry::directory("d", EntryMeta::default());
    assert_eq!(
        writer.append_archive_entry(dir, b"x"),
        Err(R7zError::InvalidOptions("only file entries can have stream data"))
    );
    let anti = ArchiveEntry { name: "gone".to_string(), kind: EntryKind::Anti, meta: EntryMeta::default() };
    writer.append_empty_entry(anti).unwrap();
    writer.append_symlink("link", "target", EntryMeta::default()).unwrap();
    let archive = Archive::from_bytes(writer.finish().unwrap()).unwrap();
    assert_eq!(archive.num_files(), 2);
    assert_eq!(archive.extract_to_memory(1).unwrap(), b"target");
}

#[test]
fn streaming_builders_read_back() {
    let entries = vec![("a".to_string(), b"alpha".to_vec()), ("b".to_string(), b"beta".to_vec())];
    let bytes = build_streaming(entries.clone()).unwrap();
    let archive = Archive::from_bytes(bytes).unwrap();
    assert_eq!(archive.extract_to_memory(1).unwrap(), b"beta");
    let mut copy = ArchiveOptions::default();
    copy.codec = Codec::Copy;
    let stored = build_streaming_to_writer(entries, copy).unwrap();
    assert_eq!(Archive::from_bytes(stored).unwrap().extract_to_memory(0).unwrap(), b"alpha");
}

#[test]
fn streaming_volumes_split_the_archive() {
    let entries = vec![("a".to_string(), vec![7u8; 300])];
    let whole = build_streaming_to_writer(entries.clone(), ArchiveOptions::default()).unwrap();
    let volumes = build_streaming_volumes(entries.clone(), ArchiveOptions::default(), &VolumeOptions { sizes: vec![40] }).unwrap();
    assert!(volumes.iter().all(|v| v.len() <= 40 && !v.is_empty()));
    assert_eq!(volumes.concat(), whole);
    assert_eq!(
        build_streaming_volumes(entries, ArchiveOptions::default(), &VolumeOptions { sizes: vec![] }),
        Err(R7zError::InvalidOptions("volume options require at least one size"))
    );
}

#[test]
fn empty_streaming_archive_is_written_and_reads_back() {
    let bytes = build_streaming(Vec::new()).unwrap();
    assert_eq!(&bytes[..6], &[0x37, 0x7a, 0xbc, 0xaf, 0x27, 0x1c]);
    let finished = ArchiveWriter::new_default().unwrap().finish().unwrap();
    assert_eq!(bytes, finished);
    let archive = Archive::from_bytes(bytes).unwrap();
    assert_eq!(archive.num_files(), 0);
}

#[test]
fn raw_folder_block_reads_stored_folders_only() {
    let mut writer = ArchiveWriter::new_default().unwrap();
    writer.append("a.txt", b"hello").unwrap();
    let archive = Archive::from_bytes(writer.finish().unwrap()).unwrap();
    let raw = archive.raw_folder_block(0).unwrap();
    assert_eq!(raw.folder_index, 0);
    assert_eq!(raw.packed_streams.len(), 1);
    assert!(archive.raw_folder_block(1).is_err());
}

#[test]
fn archive_metadata_reads_encoded_outer_headers_only() {
    let mut writer = ArchiveWriter::new_default().unwrap();
    writer.append("a.txt", b"hello").unwrap();
    writer.append("b.txt", b"world").unwrap();
    let encoded = writer.finish().unwrap();
    let meta = r7z::ArchiveMetadata::parse(&encoded).unwrap();
    assert_eq!(meta.signature.major_version, 0);
    assert_eq!(meta.encoded_header.pack_info.pack_size.len(), 1);
    let plain = build_streaming(Vec::new()).unwrap();
    assert_eq!(r7z::ArchiveMetadata::parse(&plain).err(), Some(R7zError::Parse));
    assert_eq!(r7z::ArchiveMetadata::parse(b"not an archive").err(), Some(R7zError::Parse));
}

#[test]
fn built_signature_header_points_at_its_next_header() {
    let mut writer = ArchiveWriter::new_default().unwrap();
    writer.append("a.txt", b"hello").unwrap();
    writer.append("b.txt", b"world").unwrap();
    let bytes = writer.finish().unwrap();
    assert_eq!(&bytes[6..8], &[0, 4]);
    let start_crc = u32::from_le_bytes(bytes[8..12].try_into().unwrap());
    assert_eq!(start_crc, crc32fast::hash(&bytes[12..32]));
    let offset = u64::from_le_bytes(bytes[12..20].try_into().unwrap()) as usize;
    let size = u64::from_le_bytes(bytes[20..28].try_into().unwrap()) as usize;
    assert_eq!(32 + offset + size, bytes.len());
    let next_crc = u32::from_le_bytes(bytes[28..32].try_into().unwrap());
    assert_eq!(next_crc, crc32fast::hash(&bytes[32 + offset..]));
    assert_eq!(bytes[32 + offset], 0x17);
}

#[test]
fn encoder_dictionary_limits_follow_the_match_finder() {
    assert!(encoder_dict_fits_options(&ArchiveOptions::default()));
    assert!(encoder_dict_works(6, 0x3FFF_FFFF));
    assert!(!encoder_dict_works(6, 0x4000_0000));
    assert!(encoder_dict_works(1, 0x4000_0000));
    assert!(!encoder_dict_works(1, 0x7000_0000));
    assert!(!encoder_dict_works(1, 1024));
    let mut big = ArchiveOptions::default();
    big.compression.dictionary_size = Some(0x7000_0000);
    assert!(!encoder_dict_fits_options(&big));
    assert!(r7z::write::encode::validate_archive_options(&big).is_ok());
}
