use r7z::archive::check_archive_path;
use r7z::listing::archive_method_names;
use r7z::{Archive, ArchiveBuilder, ArchiveOptions, Codec, EntryMeta, R7zError};

#[test]
fn safe_names_are_accepted() {
    for name in ["a.txt", "dir/file", "./x", "a/./b", "dir/", "a\\b", "...", "a..b"] {
        assert!(check_archive_path(name).is_ok(), "{name}");
    }
}

#[test]
fn unsafe_names_are_refused() {
    for name in ["", "/etc/passwd", "../x", "a/../b", "a\\..\\b", "..", "C:\\x", "c:y", "\\\\server\\share", ".", "./", "//"] {
        match check_archive_path(name) {
            Err(R7zError::UnsafePath(n)) => assert_eq!(n, name),
            other => panic!("{name}: {other:?}"),
        }
    }
}

#[test]
fn method_names_are_sorted_and_distinct() {
    let mut o = ArchiveOptions::default();
    o.codec = Codec::Lzma2Bcj;
    let bytes = ArchiveBuilder::new().options(o).add_file("a", b"0123456789").add_file("b", b"x").build().unwrap();
    let archive = Archive::from_bytes(bytes).unwrap();
    let names = archive_method_names(archive.streams_info().as_ref()).unwrap();
    assert_eq!(names, vec!["BCJ".to_string(), "LZMA2".to_string()]);
    let listing = archive.listing(Some(1_000_000)).unwrap();
    assert_eq!(listing.methods, names);
    assert_eq!(listing.physical_size, Some(1_000_000));
}

#[test]
fn archive_without_data_lists_copy() {
    let bytes = ArchiveBuilder::new().add_directory("d", EntryMeta::default()).build().unwrap();
    let archive = Archive::from_bytes(bytes).unwrap();
    assert_eq!(archive_method_names(archive.streams_info().as_ref()).unwrap(), vec!["Copy".to_string()]);
}
