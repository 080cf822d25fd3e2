use r7z::{Archive, ArchiveBuilder, ArchiveOptions, EncryptionOptions, EntryMeta, HeaderMode};

fn encrypted_options(encrypt_header: bool, header_mode: HeaderMode) -> ArchiveOptions {
    let mut o = ArchiveOptions::default();
    let mut e = EncryptionOptions::default_for_password("secret");
    e.num_cycles_power = 4;
    e.encrypt_header = encrypt_header;
    o.encryption = Some(e);
    o.header_mode = header_mode;
    o
}

#[test]
fn encrypted_archives_build_and_read_back_with_the_password() {
    for (encrypt_header, mode) in [(false, HeaderMode::Plain), (false, HeaderMode::Encoded), (true, HeaderMode::Encoded)] {
        let bytes = ArchiveBuilder::new()
            .options(encrypted_options(encrypt_header, mode))
            .add_file("a.txt", b"alpha")
            .add_directory("d", EntryMeta::default())
            .build()
            .unwrap();
        let archive = Archive::from_bytes_with_password(bytes, Some("secret")).unwrap();
        assert_eq!(archive.num_files(), 2);
        assert_eq!(archive.extract_to_memory_with_password(0, Some("secret")).unwrap(), b"alpha".to_vec());
    }
}
