use r7z::files_info::{scan_files_info, FilesInfo};
use r7z::folder::scan_folder;
use r7z::pack_info::{scan_pack_info, scan_unpack_info, PackInfo};
use r7z::parsers::scan_digests;
use r7z::{sevenzip_varuint64_decode, sevenzip_varuint64_encode, Property};

#[test]
fn scan_files_info_no_props() {
    let input = [0x05u8, 0x03, 0x00];
    let (rem, n) = scan_files_info(&input).unwrap();
    assert!(rem.is_empty());
    assert_eq!(n, 3);
}

#[test]
fn scan_files_info_zero_files() {
    let input = [0x05u8, 0x00, 0x00];
    let (rem, n) = scan_files_info(&input).unwrap();
    assert!(rem.is_empty());
    assert_eq!(n, 0);
}

#[test]
fn scan_files_info_with_sub_property() {
    let input = [0x05u8, 0x02, 0x14, 0x05, 0x01, 0x02, 0x03, 0x04, 0x05, 0x00];
    let (rem, n) = scan_files_info(&input).unwrap();
    assert!(rem.is_empty());
    assert_eq!(n, 2);
}

#[test]
fn scan_files_info_trailing_bytes() {
    let input = [0x05u8, 0x07, 0x00, 0xFF];
    let (rem, n) = scan_files_info(&input).unwrap();
    assert_eq!(rem, &[0xFF]);
    assert_eq!(n, 7);
}

#[test]
fn scan_files_info_wrong_tag() {
    assert!(scan_files_info(&[0x06u8]).is_err());
}

#[test]
fn files_info_classifies_directory_zero_file_and_anti_items() {
    let fi = FilesInfo {
        num_files: 4,
        name_data: Vec::new(),
        ctimes: Vec::new(),
        atimes: Vec::new(),
        mtimes: Vec::new(),
        start_positions: Vec::new(),
        attributes: Vec::new(),
        empty_streams: vec![0b1110_0000],
        empty_files: vec![0b0100_0000],
        anti_items: vec![0b0010_0000],
        empty_stream_ordinals: vec![Some(0), Some(1), Some(2), None],
    };

    assert!(fi.is_directory(0));
    assert!(!fi.is_empty_file(0));
    assert!(!fi.is_directory(1));
    assert!(fi.is_empty_file(1));
    assert!(fi.is_anti(2));
    assert!(!fi.is_directory(2));
    assert!(!fi.is_empty_stream(9));
    assert!(!fi.is_empty_file(9));
    assert!(!fi.is_directory(9));
    assert!(!fi.is_anti(9));
}

#[test]
fn scan_folder_copy_codec() {
    let input = [0x01u8, 0x01, 0x00];
    let (rem, out) = scan_folder(&input).unwrap();
    assert!(rem.is_empty());
    assert_eq!(out, 1);
}

#[test]
fn scan_folder_lzma_with_props() {
    let input = [0x01u8, 0x23, 0x03, 0x01, 0x01, 0x05, 0x5d, 0x00, 0x10, 0x00, 0x00];
    let (rem, out) = scan_folder(&input).unwrap();
    assert!(rem.is_empty());
    assert_eq!(out, 1);
}

#[test]
fn scan_folder_trailing_bytes() {
    let input = [0x01u8, 0x01, 0x00, 0xDE, 0xAD];
    let (rem, out) = scan_folder(&input).unwrap();
    assert_eq!(rem, &[0xDE, 0xAD]);
    assert_eq!(out, 1);
}

#[test]
fn scan_folder_complex_two_in_one_out() {
    let input = [0x01u8, 0x12, 0x21, 0x00, 0x02, 0x01, 0x00, 0x01];
    let (rem, out) = scan_folder(&input).unwrap();
    assert!(rem.is_empty());
    assert_eq!(out, 1);
}

#[test]
fn scan_folder_truncated() {
    assert!(scan_folder(&[0x01u8]).is_err());
}

#[test]
fn scan_folder_empty() {
    assert!(scan_folder(&[]).is_err());
}

#[test]
fn scan_pack_info_one_stream() {
    let input = [0x06u8, 0x00, 0x01, 0x09, 0x64, 0x00];
    let (rem, ()) = scan_pack_info(&input).unwrap();
    assert!(rem.is_empty());
}

#[test]
fn scan_pack_info_three_streams_trailing() {
    let input = [0x06u8, 0x00, 0x03, 0x09, 0x64, 0x32, 0x19, 0x00, 0xFF];
    let (rem, ()) = scan_pack_info(&input).unwrap();
    assert_eq!(rem, &[0xFF]);
}

#[test]
fn parse_pack_info_with_crc() {
    let input = [
        0x06u8, 0x00, 0x02, 0x09, 0x56, 0x81, 0x6A, 0x0A, 0x01, 0xA3, 0x52, 0x01, 0x40, 0x5C, 0x5F, 0x6E, 0x3E, 0x00,
    ];
    let (rem, pack_info) = PackInfo::parse(&input).unwrap();
    assert!(rem.is_empty());
    assert_eq!(pack_info.pack_pos, 0);
    assert_eq!(pack_info.num_pack_streams, 2);
    assert_eq!(pack_info.pack_size.as_slice(), &[86, 362]);
}

#[test]
fn scan_pack_info_with_crc() {
    let input = [
        0x06u8, 0x00, 0x02, 0x09, 0x56, 0x81, 0x6A, 0x0A, 0x01, 0xA3, 0x52, 0x01, 0x40, 0x5C, 0x5F, 0x6E, 0x3E, 0x00,
        0xFF,
    ];
    let (rem, ()) = scan_pack_info(&input).unwrap();
    assert_eq!(rem, &[0xFF]);
}

#[test]
fn scan_pack_info_wrong_tag() {
    assert!(scan_pack_info(&[0x07u8]).is_err());
}

#[test]
fn scan_pack_info_truncated() {
    let input = [0x06u8, 0x00, 0x01, 0x09];
    assert!(scan_pack_info(&input).is_err());
}

#[test]
fn scan_unpack_info_one_folder() {
    let input = [0x07u8, 0x0B, 0x01, 0x00, 0x01, 0x01, 0x00, 0x0C, 0x64, 0x00];
    let (rem, nf) = scan_unpack_info(&input).unwrap();
    assert!(rem.is_empty());
    assert_eq!(nf, 1);
}

#[test]
fn scan_unpack_info_two_folders() {
    let input = [0x07u8, 0x0B, 0x02, 0x00, 0x01, 0x01, 0x00, 0x01, 0x01, 0x00, 0x0C, 0x64, 0x32, 0x00];
    let (rem, nf) = scan_unpack_info(&input).unwrap();
    assert!(rem.is_empty());
    assert_eq!(nf, 2);
}

#[test]
fn scan_unpack_info_with_crc() {
    let input = [0x07u8, 0x0B, 0x01, 0x00, 0x01, 0x01, 0x00, 0x0C, 0x64, 0x0A, 0x01, 0xAA, 0xBB, 0xCC, 0xDD, 0x00];
    let (rem, nf) = scan_unpack_info(&input).unwrap();
    assert!(rem.is_empty());
    assert_eq!(nf, 1);
}

#[test]
fn scan_unpack_info_wrong_tag() {
    assert!(scan_unpack_info(&[0x06u8]).is_err());
}

#[test]
fn scan_digests_all_defined() {
    let input = [0x01u8, 0xAA, 0xBB, 0xCC, 0xDD, 0x11, 0x22, 0x33, 0x44, 0xFF];
    let (rem, ()) = scan_digests(&input, 2).unwrap();
    assert_eq!(rem, &[0xFF]);
}

#[test]
fn scan_digests_bitmap_all_set() {
    let input = [0x00u8, 0xC0, 0xAA, 0xBB, 0xCC, 0xDD, 0x11, 0x22, 0x33, 0x44];
    let (rem, ()) = scan_digests(&input, 2).unwrap();
    assert!(rem.is_empty());
}

#[test]
fn scan_digests_bitmap_sparse() {
    let input = [0x00u8, 0x20, 0xDE, 0xAD, 0xBE, 0xEF];
    let (rem, ()) = scan_digests(&input, 3).unwrap();
    assert!(rem.is_empty());
}

#[test]
fn scan_digests_zero_count() {
    let input = [0x01u8];
    let (rem, ()) = scan_digests(&input, 0).unwrap();
    assert!(rem.is_empty());
}

#[test]
fn scan_digests_truncated() {
    let input = [0x01u8];
    assert!(scan_digests(&input, 1).is_err());
}

#[test]
fn scan_digests_empty() {
    assert!(scan_digests(&[], 1).is_err());
}

#[test]
fn varint_encode_then_decode_gives_back_the_value() {
    for v in [0u64, 1, 0x7f, 0x80, 0x3fff, 0x4000, 0x1234_5678, u64::MAX] {
        let bytes = sevenzip_varuint64_encode(v);
        let (rest, back) = sevenzip_varuint64_decode(&bytes).unwrap();
        assert!(rest.is_empty());
        assert_eq!(back, v);
    }
}

#[test]
fn varint_known_encodings() {
    assert_eq!(sevenzip_varuint64_encode(0x7f), vec![0x7f]);
    assert_eq!(sevenzip_varuint64_encode(0x80), vec![0x80, 0x80]);
    assert_eq!(sevenzip_varuint64_encode(u64::MAX).len(), 9);
}

#[test]
fn property_tags_read_back() {
    let (rest, p) = Property::parse(&[0x01, 0x02]).unwrap();
    assert_eq!(p, Property::Header);
    assert_eq!(rest, &[0x02]);
    assert!(Property::parse(&[0xF0]).is_err());
}
