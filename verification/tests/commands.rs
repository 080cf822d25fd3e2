use r7z::cli::CliError;
use r7z::commands::{
    archive_name_from, build_archive_bytes, extract_all_step, extract_name, ExtractAllStep, drop_named, drop_selected, entry_is_selected, entry_meta_from_archive,
    entry_packed_for_row, entry_packed_for_summary, extract_step, flat_name, has_wildcard, human_attributes,
    listing_rows, listing_time, listing_totals, newest_time, pending_file, pending_to_preserved_entry,
    preserved_entry_kind, rewrite_entries, safe_parts, size_text, summary_text, technical_attributes, test_entries,
    unix_mode_text, volume_bounds, with_forward_slashes, ExtractStep, PendingEntry, PendingKind,
};
use r7z::text::{decimal_string, push_hex};
use r7z::{
    build_archive_with_preserved_folders, Archive, ArchiveBuilder, ArchiveListingEntry, ArchiveOptions, EntryKind,
    EntryMeta, ListingEntryKind, PreservedArchiveEntry, PreservedEntryStream, R7zError, SolidMode,
};

fn strings(items: &[&str]) -> Vec<String> {
    items.iter().map(|s| s.to_string()).collect()
}

fn listing_entry(kind: ListingEntryKind) -> ArchiveListingEntry {
    ArchiveListingEntry {
        index: 0,
        path: "x".to_string(),
        kind,
        size: Some(5),
        packed_size: Some(3),
        modified: None,
        attributes: None,
        crc: None,
        encrypted: false,
        methods: Vec::new(),
        block: Some(0),
    }
}

fn non_solid() -> ArchiveOptions {
    let mut o = ArchiveOptions::default();
    o.compression.solid = SolidMode::NonSolid;
    o
}

#[test]
fn wildcards_are_detected() {
    assert!(has_wildcard("*.txt"));
    assert!(has_wildcard("a?c"));
    assert!(!has_wildcard("plain/name.txt"));
}

#[test]
fn selection_by_patterns() {
    assert!(entry_is_selected("anything", &Vec::new()));
    assert!(entry_is_selected("dir/a.txt", &strings(&["*.bin", "dir/*.txt"])));
    assert!(!entry_is_selected("dir/a.txt", &strings(&["*.bin"])));
}

#[test]
fn backslashes_become_slashes() {
    assert_eq!(with_forward_slashes("a\\b\\c"), "a/b/c");
    assert_eq!(archive_name_from("dir\\file").unwrap(), "dir/file");
    match archive_name_from("") {
        Err(CliError::Usage(m)) => assert_eq!(m, "empty archive entry name"),
        _ => panic!("an empty name is refused"),
    }
}

#[test]
fn safe_parts_skip_dots_and_refuse_escapes() {
    assert_eq!(safe_parts("a/./b//c").unwrap(), strings(&["a", "b", "c"]));
    assert_eq!(safe_parts("./x").unwrap(), strings(&["x"]));
    for bad in ["/etc/passwd", "a/../b", ".."] {
        match safe_parts(bad) {
            Err(CliError::Fatal(R7zError::UnsafePath(s))) => assert_eq!(s, bad),
            _ => panic!("{bad} must be refused"),
        }
    }
}

#[test]
fn flat_names_are_the_last_component() {
    assert_eq!(flat_name("dir/sub/file.txt").unwrap(), "file.txt");
    assert_eq!(flat_name("dir/sub/").unwrap(), "sub");
    assert!(matches!(flat_name("a/.."), Err(CliError::Fatal(R7zError::UnsafePath(_)))));
    assert!(matches!(flat_name("/"), Err(CliError::Fatal(R7zError::UnsafePath(_)))));
}

#[test]
fn listing_texts() {
    assert_eq!(summary_text(3, 0), "3 files");
    assert_eq!(summary_text(0, 2), "2 folders");
    assert_eq!(summary_text(4, 1), "4 files, 1 folders");
    assert_eq!(summary_text(0, 0), "0 files");
    assert_eq!(unix_mode_text(0o100644), "-rw-r--r--");
    assert_eq!(unix_mode_text(0o040755), "drwxr-xr-x");
    assert_eq!(unix_mode_text(0o120777), "lrwxrwxrwx");
    assert_eq!(size_text(Some(1234)), "1234");
    assert_eq!(size_text(None), "");
    assert_eq!(decimal_string(0), "0");
    assert_eq!(decimal_string(1_000_007), "1000007");
    let mut v = Vec::new();
    push_hex(&mut v, 0x2f, 4, false);
    assert_eq!(v.iter().collect::<String>(), "002F");
}

#[test]
fn attribute_columns() {
    let mut e = listing_entry(ListingEntryKind::File);
    assert_eq!(human_attributes(&e), ".....");
    assert_eq!(technical_attributes(&e), None);
    e.attributes = Some(0x20);
    assert_eq!(human_attributes(&e), "....A");
    assert_eq!(technical_attributes(&e).unwrap(), "A 00000020");
    e.attributes = Some((0o100644 << 16) | 0x20);
    assert_eq!(technical_attributes(&e).unwrap(), "A_ -rw-r--r--");
    e.kind = ListingEntryKind::Symlink;
    e.attributes = Some((0o120777 << 16) | 0x20);
    assert_eq!(technical_attributes(&e).unwrap(), "A lrwxrwxrwx");
    let mut d = listing_entry(ListingEntryKind::Directory);
    d.attributes = Some((0o040755 << 16) | 0x10);
    assert_eq!(human_attributes(&d), "D....");
    assert_eq!(technical_attributes(&d).unwrap(), "D_ drwxr-xr-x");
    let mut a = listing_entry(ListingEntryKind::Anti);
    a.attributes = Some(0x20);
    assert_eq!(technical_attributes(&a), None);
}

#[test]
fn packed_sizes_and_times_of_rows() {
    let f = listing_entry(ListingEntryKind::File);
    assert_eq!(entry_packed_for_row(&f), Some(3));
    assert_eq!(entry_packed_for_summary(&f), 3);
    let d = listing_entry(ListingEntryKind::Directory);
    assert_eq!(entry_packed_for_row(&d), Some(0));
    let a = listing_entry(ListingEntryKind::Anti);
    assert_eq!(entry_packed_for_summary(&a), 0);
    let epoch = 116_444_736_000_000_000u64;
    assert_eq!(listing_time(Some(epoch - 1)), None);
    assert_eq!(listing_time(Some(epoch)), Some(epoch));
    assert_eq!(newest_time(Some(5), Some(9)), Some(9));
    assert_eq!(newest_time(None, Some(9)), Some(9));
    assert_eq!(newest_time(None, None), None);
}

#[test]
fn volumes_split_with_the_last_size_repeating() {
    assert_eq!(volume_bounds(10, &vec![4]).unwrap(), vec![(0, 4), (4, 8), (8, 10)]);
    assert_eq!(volume_bounds(10, &vec![3, 5]).unwrap(), vec![(0, 3), (3, 8), (8, 10)]);
    assert_eq!(volume_bounds(0, &vec![3]).unwrap(), vec![]);
    assert!(matches!(volume_bounds(10, &vec![0]), Err(CliError::Usage(_))));
}

#[test]
fn error_messages() {
    assert_eq!(R7zError::Parse.message(), "parse error");
    assert_eq!(R7zError::InvalidProperty(0x1f).message(), "invalid property: 0x1f");
    assert_eq!(R7zError::UnsupportedCodec(vec![3, 1, 1]).message(), "unsupported codec: [3, 1, 1]");
    assert_eq!(R7zError::UnsupportedCodec(vec![]).message(), "unsupported codec: []");
    assert_eq!(R7zError::Crc.message(), "CRC mismatch");
    assert_eq!(R7zError::UnsafePath("../x".to_string()).message(), "unsafe archive path: ../x");
    assert_eq!(R7zError::PasswordRequired.message(), "password required");
}

#[test]
fn pending_entries_become_preserved_entries() {
    let e = pending_file("a.txt".to_string(), Vec::new(), EntryMeta::default());
    assert!(matches!(e.kind, PendingKind::EmptyFile));
    let f = pending_file("b.txt".to_string(), b"xy".to_vec(), EntryMeta::default());
    let p = pending_to_preserved_entry(f);
    assert_eq!(p.kind, EntryKind::File);
    assert!(matches!(p.stream, PreservedEntryStream::Data(ref d) if d == b"xy"));
    let link = PendingEntry { name: "l".to_string(), kind: PendingKind::Symlink("t/x".to_string()), meta: EntryMeta::default() };
    let p = pending_to_preserved_entry(link);
    assert!(matches!(p.stream, PreservedEntryStream::Data(ref d) if d == b"t/x"));
    let dir = PendingEntry { name: "d".to_string(), kind: PendingKind::Directory, meta: EntryMeta::default() };
    let p = pending_to_preserved_entry(dir);
    assert_eq!(p.kind, EntryKind::Directory);
    assert!(matches!(p.stream, PreservedEntryStream::Empty));
}

#[test]
fn archive_from_pending_entries_reads_back() {
    let entries = vec![
        PendingEntry { name: "dir".to_string(), kind: PendingKind::Directory, meta: EntryMeta::default() },
        pending_file("dir/a.txt".to_string(), b"alpha".to_vec(), EntryMeta::default()),
        pending_file("dir/empty".to_string(), Vec::new(), EntryMeta::default()),
    ];
    let bytes = build_archive_bytes(entries, ArchiveOptions::default()).unwrap();
    let archive = Archive::from_bytes(bytes).unwrap();
    assert_eq!(archive.num_files(), 3);
    assert_eq!(archive.extract_to_memory(1).unwrap(), b"alpha");
    assert_eq!(archive.extract_to_memory(2).unwrap(), b"");
    let files = archive.files_info().unwrap();
    assert_eq!(preserved_entry_kind(&files, 0), EntryKind::Directory);
    assert_eq!(preserved_entry_kind(&files, 1), EntryKind::File);
}

#[test]
fn metadata_before_1970_is_dropped_when_kept() {
    let old = 100u64;
    let new = 130_000_000_000_000_000u64;
    let meta = EntryMeta { mtime: Some(new), ctime: Some(old), atime: None, attributes: Some(0x20), start_pos: None };
    let bytes = ArchiveBuilder::new().add_file_entry("f", b"data", meta).build().unwrap();
    let archive = Archive::from_bytes(bytes).unwrap();
    let files = archive.files_info().unwrap();
    let kept = entry_meta_from_archive(&files, 0);
    assert_eq!(kept.mtime, Some(new));
    assert_eq!(kept.ctime, None);
    assert_eq!(kept.attributes, Some(0x20));
}

#[test]
fn testing_reports_selection_and_failures() {
    let bytes = ArchiveBuilder::new()
        .add_file("a.txt", b"first")
        .add_directory("d", EntryMeta::default())
        .add_file("b.bin", b"second")
        .build()
        .unwrap();
    let archive = Archive::from_bytes(bytes).unwrap();
    let all = test_entries(&archive, &Vec::new(), None);
    assert_eq!(all.matched, 3);
    assert!(all.failures.is_empty());
    let some = test_entries(&archive, &strings(&["*.txt"]), None);
    assert_eq!(some.matched, 1);
    let none = test_entries(&archive, &strings(&["*.zip"]), None);
    assert_eq!(none.matched, 0);
}

#[test]
fn testing_an_encrypted_archive_without_password_fails() {
    let mut o = ArchiveOptions::default();
    o.encryption = Some(r7z::EncryptionOptions::default_for_password("pw"));
    o.encryption.as_mut().unwrap().num_cycles_power = 4;
    let bytes = ArchiveBuilder::new().options(o).add_file("s.txt", b"secret").build().unwrap();
    let archive = Archive::from_bytes(bytes).unwrap();
    let report = test_entries(&archive, &Vec::new(), None);
    assert_eq!(report.failures.len(), 1);
    assert_eq!(report.failures[0].0, 0);
    assert_eq!(report.failures[0].1, R7zError::PasswordRequired);
    assert!(test_entries(&archive, &Vec::new(), Some("pw")).failures.is_empty());
}

#[test]
fn extract_steps() {
    let bytes = ArchiveBuilder::new()
        .add_directory("d", EntryMeta::default())
        .add_file("d/f.txt", b"x")
        .add_empty_file("d/e", EntryMeta::default())
        .add_file("../evil", b"x")
        .build()
        .unwrap();
    let archive = Archive::from_bytes(bytes).unwrap();
    let none = Vec::new();
    match extract_step(&archive, 0, &none, false).unwrap() {
        ExtractStep::Directory(parts) => assert_eq!(parts, strings(&["d"])),
        _ => panic!("a directory is made"),
    }
    assert!(matches!(extract_step(&archive, 0, &none, true).unwrap(), ExtractStep::Skipped));
    match extract_step(&archive, 1, &none, false).unwrap() {
        ExtractStep::File { parts, empty } => {
            assert_eq!(parts, strings(&["d", "f.txt"]));
            assert!(!empty);
        }
        _ => panic!("a file is written"),
    }
    match extract_step(&archive, 1, &none, true).unwrap() {
        ExtractStep::File { parts, .. } => assert_eq!(parts, strings(&["f.txt"])),
        _ => panic!("a file is written"),
    }
    assert!(matches!(extract_step(&archive, 2, &none, false).unwrap(), ExtractStep::File { empty: true, .. }));
    assert!(matches!(extract_step(&archive, 3, &none, false), Err(CliError::Fatal(R7zError::UnsafePath(_)))));
    assert!(matches!(extract_step(&archive, 3, &strings(&["d/*"]), false).unwrap(), ExtractStep::Unselected));
}

#[test]
fn drop_flags_by_name_and_pattern() {
    let bytes = ArchiveBuilder::new().add_file("a.txt", b"1").add_file("b.bin", b"2").build().unwrap();
    let archive = Archive::from_bytes(bytes).unwrap();
    assert_eq!(drop_named(&archive, &strings(&["b.bin", "zzz"])), vec![false, true]);
    assert_eq!(drop_selected(&archive, &strings(&["*.txt"])), vec![true, false]);
}

#[test]
fn rewrite_keeps_whole_folders_raw() {
    let bytes = ArchiveBuilder::new()
        .options(non_solid())
        .add_file("keep.txt", b"kept contents")
        .add_file("drop.txt", b"dropped")
        .build()
        .unwrap();
    let archive = Archive::from_bytes(bytes).unwrap();
    let drop = drop_named(&archive, &strings(&["drop.txt"]));
    let (entries, raws) = rewrite_entries(&archive, None, &drop, Vec::new()).unwrap();
    assert_eq!(entries.len(), 1);
    assert_eq!(entries[0].name, "keep.txt");
    assert!(matches!(entries[0].stream, PreservedEntryStream::Raw { size: 13, .. }));
    assert_eq!(raws.len(), 1);
    let rewritten = build_archive_with_preserved_folders(entries, raws, &non_solid()).unwrap();
    let again = Archive::from_bytes(rewritten).unwrap();
    assert_eq!(again.num_files(), 1);
    assert_eq!(again.extract_to_memory(0).unwrap(), b"kept contents");
}

#[test]
fn rewrite_decodes_entries_of_partly_dropped_folders() {
    let bytes = ArchiveBuilder::new().add_file("a.txt", b"aaa").add_file("b.txt", b"bbb").build().unwrap();
    let archive = Archive::from_bytes(bytes).unwrap();
    let drop = drop_selected(&archive, &strings(&["a.txt"]));
    let added = vec![PreservedArchiveEntry {
        name: "c.txt".to_string(),
        kind: EntryKind::File,
        meta: EntryMeta::default(),
        stream: PreservedEntryStream::Data(b"ccc".to_vec()),
    }];
    let (entries, raws) = rewrite_entries(&archive, None, &drop, added).unwrap();
    assert!(raws.is_empty());
    assert_eq!(entries.len(), 2);
    assert_eq!(entries[0].name, "b.txt");
    assert!(matches!(entries[0].stream, PreservedEntryStream::Data(ref d) if d == b"bbb"));
    assert_eq!(entries[1].name, "c.txt");
}

#[test]
fn rewrite_refuses_to_decode_without_the_password() {
    let mut o = ArchiveOptions::default();
    o.encryption = Some(r7z::EncryptionOptions::default_for_password("pw"));
    o.encryption.as_mut().unwrap().num_cycles_power = 4;
    let bytes = ArchiveBuilder::new().options(o).add_file("a", b"one").add_file("b", b"two").build().unwrap();
    let archive = Archive::from_bytes(bytes).unwrap();
    let drop = drop_named(&archive, &strings(&["a"]));
    match rewrite_entries(&archive, None, &drop, Vec::new()) {
        Err(CliError::FatalMessage(m)) => assert_eq!(
            m,
            "operation would require decoding retained entry 'b' in a partially changed archive folder: password required"
        ),
        _ => panic!("the rewrite must stop"),
    }
}

#[test]
fn listing_rows_and_totals() {
    let bytes = ArchiveBuilder::new()
        .add_directory("d", EntryMeta::default())
        .add_file("d/a.txt", b"12345")
        .add_file("d/b.bin", b"123")
        .build()
        .unwrap();
    let archive = Archive::from_bytes(bytes).unwrap();
    let listing = archive.listing(None).unwrap();
    let rows = listing_rows(&listing, &Vec::new());
    assert_eq!(rows, vec![0, 1, 2]);
    let totals = listing_totals(&listing, &rows);
    assert_eq!(totals.size, 8);
    assert_eq!(totals.files, 2);
    assert_eq!(totals.folders, 1);
    let txt = listing_rows(&listing, &strings(&["*.txt"]));
    assert_eq!(txt, vec![1]);
    let t = listing_totals(&listing, &txt);
    assert_eq!((t.size, t.files, t.folders), (5, 1, 0));
}

#[test]
fn extract_all_steps_check_names() {
    let bytes = ArchiveBuilder::new()
        .add_directory("d", EntryMeta::default())
        .add_empty_file("d/e", EntryMeta::default())
        .add_file("d/f", b"x")
        .add_anti_item("gone", EntryMeta::default())
        .add_file("../evil", b"x")
        .build()
        .unwrap();
    let archive = Archive::from_bytes(bytes).unwrap();
    let files = archive.files_info();
    let step = |i: usize| extract_all_step(files.as_ref(), i, &extract_name(files.as_ref(), i));
    assert_eq!(step(0), Ok(ExtractAllStep::Directory));
    assert_eq!(step(1), Ok(ExtractAllStep::EmptyFile));
    assert_eq!(step(2), Ok(ExtractAllStep::File));
    assert_eq!(step(3), Ok(ExtractAllStep::Skip));
    assert_eq!(step(4), Err(R7zError::UnsafePath("../evil".to_string())));
    assert_eq!(extract_name(None, 0), "unknown");
}
