use r7z::write::header::build_header;
use r7z::write::model::WriteEntry;
use r7z::{
    build_archive_with_preserved_folders, Archive, ArchiveBuilder, ArchiveEntry, ArchiveOptions, Codec, EntryKind,
    EntryMeta, Header, HeaderMode, ListingEntryKind, PreservedArchiveEntry, PreservedEntryStream, SolidMode,
};

fn entry(name: &str, kind: EntryKind, has_stream: bool, meta: EntryMeta) -> WriteEntry {
    WriteEntry {
        name: name.to_string(),
        kind,
        meta,
        has_stream,
        data: if has_stream { Some(vec![0xAA]) } else { None },
        folder_id: 0,
    }
}

fn filetime_from_unix_secs(secs: u64) -> u64 {
    (secs + 11_644_473_600) * 10_000_000
}

fn parse_header(header: Vec<u8>) -> Header {
    let (_, parsed) = Header::parse(&header).unwrap();
    parsed
}

#[test]
fn files_info_writer_emits_empty_stream_empty_file_and_anti_bitmaps() {
    let entries = vec![
        entry("dir", EntryKind::Directory, false, EntryMeta::default()),
        entry("empty.txt", EntryKind::File, false, EntryMeta::default()),
        entry("deleted.txt", EntryKind::Anti, false, EntryMeta::default()),
        entry("data.txt", EntryKind::File, true, EntryMeta::default()),
    ];

    let header = parse_header(build_header(&entries, &[]));
    let fi = header.files_info().unwrap();

    assert_eq!(fi.empty_streams.as_slice(), &[0b1110_0000]);
    assert_eq!(fi.empty_files.as_slice(), &[0b0100_0000]);
    assert_eq!(fi.anti_items.as_slice(), &[0b0010_0000]);
    assert!(fi.is_directory(0));
    assert!(fi.is_empty_file(1));
    assert!(fi.is_anti(2));
    assert!(!fi.is_empty_stream(3));
}

#[test]
fn files_info_writer_emits_partial_metadata_definition_bitmaps() {
    let ctime_secs = 1_577_836_800;
    let atime_secs = 1_609_459_200;
    let mtime_secs = 1_640_995_200;
    let entries = vec![
        entry(
            "ctime-mtime.txt",
            EntryKind::File,
            true,
            EntryMeta {
                ctime: Some(filetime_from_unix_secs(ctime_secs)),
                mtime: Some(filetime_from_unix_secs(mtime_secs)),
                ..EntryMeta::default()
            },
        ),
        entry(
            "atime-attrs.txt",
            EntryKind::File,
            true,
            EntryMeta { atime: Some(filetime_from_unix_secs(atime_secs)), attributes: Some(0x20), ..EntryMeta::default() },
        ),
        entry(
            "start-pos.txt",
            EntryKind::File,
            true,
            EntryMeta { mtime: Some(filetime_from_unix_secs(mtime_secs + 60)), start_pos: Some(77), ..EntryMeta::default() },
        ),
    ];

    let header = parse_header(build_header(&entries, &[]));
    let fi = header.files_info().unwrap();

    assert_eq!(fi.ctimes, vec![Some(filetime_from_unix_secs(ctime_secs)), None, None]);
    assert_eq!(fi.atimes, vec![None, Some(filetime_from_unix_secs(atime_secs)), None]);
    assert_eq!(
        fi.mtimes,
        vec![Some(filetime_from_unix_secs(mtime_secs)), None, Some(filetime_from_unix_secs(mtime_secs + 60))]
    );
    assert_eq!(fi.start_positions, vec![None, None, Some(77)]);
    assert_eq!(fi.attributes, vec![None, Some(0x20), None]);
}

fn roundtrip(options: ArchiveOptions) {
    let big: Vec<u8> = (0..5000u32).map(|i| (i * 7 % 251) as u8).collect();
    let bytes = ArchiveBuilder::new()
        .options(options)
        .add_file("hello.txt", b"Hello, world!")
        .add_directory("dir", EntryMeta::default())
        .add_empty_file("dir/empty.txt", EntryMeta::default())
        .add_file("dir/big.bin", &big)
        .build()
        .unwrap();
    assert_eq!(&bytes[..6], &[0x37, 0x7a, 0xbc, 0xaf, 0x27, 0x1c]);

    let archive = Archive::from_bytes(bytes).unwrap();
    assert_eq!(archive.num_files(), 4);
    let fi = archive.files_info().unwrap();
    assert_eq!(fi.name(0).as_deref(), Some("hello.txt"));
    assert_eq!(fi.name(3).as_deref(), Some("dir/big.bin"));
    assert!(fi.is_directory(1));
    assert!(fi.is_empty_file(2));

    assert_eq!(archive.extract_to_memory(0).unwrap(), b"Hello, world!");
    assert!(archive.extract_to_memory(1).is_err());
    assert_eq!(archive.extract_to_memory(2).unwrap(), Vec::<u8>::new());
    assert_eq!(archive.extract_to_memory(3).unwrap(), big);
    assert!(archive.extract_to_memory(4).is_err());

    let listing = archive.listing(None).unwrap();
    assert_eq!(listing.archive_type, "7z");
    assert_eq!(listing.entries.len(), 4);
    assert_eq!(listing.entries[0].path, "hello.txt");
    assert_eq!(listing.entries[0].size, Some(13));
    assert_eq!(listing.entries[1].kind, ListingEntryKind::Directory);
    assert_eq!(listing.entries[2].crc, Some(0));
    assert_eq!(listing.entries[3].size, Some(5000));
}

#[test]
fn builder_roundtrip_lzma2() {
    roundtrip(ArchiveOptions::default());
}

#[test]
fn builder_roundtrip_copy_plain_header() {
    let mut o = ArchiveOptions::default();
    o.codec = Codec::Copy;
    o.header_mode = HeaderMode::Plain;
    roundtrip(o);
}

#[test]
fn builder_roundtrip_lzma_non_solid() {
    let mut o = ArchiveOptions::default();
    o.codec = Codec::Lzma;
    o.compression.solid = SolidMode::NonSolid;
    roundtrip(o);
}

#[test]
fn builder_roundtrip_bcj_lzma2() {
    let mut o = ArchiveOptions::default();
    o.codec = Codec::Lzma2Bcj;
    roundtrip(o);
}

#[test]
fn builder_roundtrip_ppmd() {
    let mut o = ArchiveOptions::default();
    o.codec = Codec::Ppmd;
    let bytes = ArchiveBuilder::new().options(o).add_file("a.txt", b"abracadabra abracadabra").build().unwrap();
    let archive = Archive::from_bytes(bytes).unwrap();
    assert_eq!(archive.extract_to_memory(0).unwrap(), b"abracadabra abracadabra");
}

#[test]
fn add_entry_refuses_data_for_directories() {
    let b = ArchiveBuilder::new();
    assert!(b.add_entry(ArchiveEntry::directory("d", EntryMeta::default()), Some(b"x")).is_err());
    let b = ArchiveBuilder::new();
    let b = b.add_entry(ArchiveEntry::file("f", EntryMeta::default()), Some(b"x")).unwrap();
    let bytes = b.build().unwrap();
    let archive = Archive::from_bytes(bytes).unwrap();
    assert_eq!(archive.extract_to_memory(0).unwrap(), b"x");
}

#[test]
fn symlink_entries_read_back_as_links() {
    let bytes = ArchiveBuilder::new()
        .add_symlink("link", "target/file", EntryMeta::default())
        .build()
        .unwrap();
    let archive = Archive::from_bytes(bytes).unwrap();
    assert_eq!(archive.symlink_target(0).unwrap().as_deref(), Some("target/file"));
    let listing = archive.listing(None).unwrap();
    assert_eq!(listing.entries[0].kind, ListingEntryKind::Symlink);
}

#[test]
fn corrupt_signature_and_truncated_archives_are_refused() {
    let bytes = ArchiveBuilder::new().add_file("a", b"abc").build().unwrap();
    let mut bad = bytes.clone();
    bad[9] ^= 0xff;
    assert!(Archive::from_bytes(bad).is_err());
    assert!(Archive::from_bytes(bytes[..20].to_vec()).is_err());
    assert!(Archive::from_bytes(vec![0u8; 64]).is_err());
    let mut prefixed = vec![0x55u8; 100];
    prefixed.extend_from_slice(&bytes);
    let archive = Archive::from_bytes(prefixed).unwrap();
    assert_eq!(archive.extract_to_memory(0).unwrap(), b"abc");
}

#[test]
fn encrypted_archive_needs_the_password() {
    let mut o = ArchiveOptions::default();
    o.encryption = Some(r7z::EncryptionOptions::default_for_password("pw"));
    o.encryption.as_mut().unwrap().num_cycles_power = 4;
    let bytes = ArchiveBuilder::new().options(o).add_file("s.txt", b"secret data").build().unwrap();
    let archive = Archive::from_bytes(bytes).unwrap();
    assert!(archive.extract_to_memory(0).is_err());
    assert_eq!(archive.extract_to_memory_with_password(0, Some("pw")).unwrap(), b"secret data");
}

#[test]
fn preserved_rewrite_keeps_folders_and_adds_new_data() {
    let mut o = ArchiveOptions::default();
    o.compression.solid = SolidMode::NonSolid;
    let bytes = ArchiveBuilder::new()
        .options(o.clone())
        .add_file("keep.txt", b"kept contents")
        .add_file("drop.txt", b"dropped")
        .build()
        .unwrap();
    let archive = Archive::from_bytes(bytes).unwrap();
    let listing = archive.listing(None).unwrap();
    let keep = &listing.entries[0];
    let folder = keep.block.unwrap();
    let raw = archive.raw_folder_block(folder).unwrap();
    let entries = vec![
        PreservedArchiveEntry {
            name: "keep.txt".to_string(),
            kind: EntryKind::File,
            meta: EntryMeta::default(),
            stream: PreservedEntryStream::Raw { folder_id: folder, size: keep.size.unwrap(), crc: keep.crc },
        },
        PreservedArchiveEntry {
            name: "new.txt".to_string(),
            kind: EntryKind::File,
            meta: EntryMeta::default(),
            stream: PreservedEntryStream::Data(b"fresh".to_vec()),
        },
    ];
    let rewritten = build_archive_with_preserved_folders(entries, vec![raw], &o).unwrap();
    let again = Archive::from_bytes(rewritten).unwrap();
    assert_eq!(again.num_files(), 2);
    assert_eq!(again.extract_to_memory(0).unwrap(), b"kept contents");
    assert_eq!(again.extract_to_memory(1).unwrap(), b"fresh");
}

#[test]
fn solid_limits_split_folders() {
    let mut o = ArchiveOptions::default();
    o.compression.solid = SolidMode::Limit { max_files: Some(2), max_bytes: None };
    let mut b = ArchiveBuilder::new().options(o);
    for i in 0..5 {
        b = b.add_file(&format!("f{i}"), &[i as u8; 10]);
    }
    let archive = Archive::from_bytes(b.build().unwrap()).unwrap();
    let listing = archive.listing(None).unwrap();
    assert_eq!(listing.blocks, 3);
    assert!(listing.solid);
    for i in 0..5 {
        assert_eq!(archive.extract_to_memory(i).unwrap(), vec![i as u8; 10]);
    }
}
