use r7z::{Archive, ArchiveBuilder, ArchiveOptions, EntryMeta, HeaderMode, R7zError};

#[test]
fn entries_without_data_read_back_with_names_kinds_and_metadata() {
    let mut o = ArchiveOptions::default();
    o.header_mode = HeaderMode::Plain;
    let dir_meta = EntryMeta { mtime: Some(132_000_000_000_000_000), attributes: Some(0x10), ..EntryMeta::default() };
    let file_meta = EntryMeta { ctime: Some(5), ..EntryMeta::default() };
    let bytes = ArchiveBuilder::new()
        .options(o)
        .add_directory("dir", dir_meta)
        .add_empty_file("dir/empty.txt", file_meta)
        .add_anti_item("gone", EntryMeta::default())
        .add_directory("ünï", EntryMeta::default())
        .build()
        .unwrap();
    let archive = Archive::from_bytes(bytes).unwrap();
    assert_eq!(archive.num_files(), 4);
    let fi = archive.files_info().unwrap();
    assert_eq!(fi.name(0), Some("dir".to_string()));
    assert_eq!(fi.name(1), Some("dir/empty.txt".to_string()));
    assert_eq!(fi.name(2), Some("gone".to_string()));
    assert_eq!(fi.name(3), Some("ünï".to_string()));
    assert!(fi.is_directory(0) && !fi.is_anti(0) && !fi.is_empty_file(0));
    assert!(fi.is_empty_file(1) && !fi.is_directory(1));
    assert!(fi.is_anti(2) && !fi.is_directory(2));
    assert!(fi.is_directory(3));
    assert_eq!(fi.mtimes[0], Some(132_000_000_000_000_000));
    assert_eq!(fi.attributes[0], Some(0x10));
    assert_eq!(fi.ctimes[1], Some(5));
    assert_eq!(archive.extract_to_memory(1).unwrap(), Vec::<u8>::new());
    assert_eq!(archive.extract_to_memory(0), Err(R7zError::Directory));
    assert_eq!(archive.extract_to_memory(2), Err(R7zError::Directory));
}
