use r7z::bcj2_folder::{bcj2_coder, decompress_bcj2_folder};
use r7z::coder_info::CoderInfo;
use r7z::folder::Folder;
use r7z::{Archive, R7zError};

fn coder(id: &[u8], num_in: u64) -> CoderInfo {
    CoderInfo { codec_id: id.to_vec(), num_in_streams: num_in, num_out_streams: 1, properties: None }
}

fn bcj2_copy_folder() -> Folder {
    Folder {
        coders: vec![coder(&[0x03, 0x03, 0x01, 0x1B], 4), coder(&[0x00], 1), coder(&[0x00], 1), coder(&[0x00], 1)],
        bind_pairs: vec![(0, 1), (1, 2), (2, 3)],
        packed_indices: vec![4, 5, 6, 3],
    }
}

// main, call, jump and range-coder streams of one converted call.
const PACKED: [u8; 10] = [0xE8, 0, 0, 0, 0x15, 0, 0x7F, 0xFF, 0xFC, 0x00];
const RANGES: [(usize, usize); 4] = [(0, 1), (1, 5), (5, 5), (5, 10)];

#[test]
fn bcj2_folder_layout_is_recognised() {
    assert_eq!(bcj2_coder(&bcj2_copy_folder()), Some(0));
    let mut other = bcj2_copy_folder();
    other.coders[1].num_in_streams = 2;
    assert_eq!(bcj2_coder(&other), None);
}

#[test]
fn bcj2_folder_decodes_its_four_streams() {
    let out = decompress_bcj2_folder(&bcj2_copy_folder(), 0, &PACKED, &RANGES, &[5, 1, 4, 0], None).unwrap();
    assert_eq!(out, vec![0xE8, 0x10, 0, 0, 0]);
}

#[test]
fn bcj2_folder_with_a_bound_main_output_is_refused() {
    let mut f = bcj2_copy_folder();
    f.bind_pairs = vec![(0, 1), (1, 2), (4, 0)];
    assert_eq!(decompress_bcj2_folder(&f, 0, &PACKED, &RANGES, &[5, 1, 4, 0], None), Err(R7zError::Parse));
}

fn le(v: u64, n: usize) -> Vec<u8> {
    v.to_le_bytes()[..n].to_vec()
}

#[test]
fn archive_with_a_bcj2_folder_extracts() {
    let header: Vec<u8> = vec![
        0x01, // header
        0x04, // main streams
        0x06, 0x00, 0x04, 0x09, 0x01, 0x04, 0x00, 0x05, 0x00, // pack info
        0x07, 0x0B, 0x01, 0x00, // unpack info, one folder
        0x04, 0x14, 0x03, 0x03, 0x01, 0x1B, 0x04, 0x01, 0x01, 0x00, 0x01, 0x00, 0x01, 0x00, // coders
        0x00, 0x01, 0x01, 0x02, 0x02, 0x03, // bind pairs
        0x04, 0x05, 0x06, 0x03, // packed streams
        0x0C, 0x05, 0x01, 0x04, 0x00, // unpack sizes
        0x00, // end of unpack info
        0x00, // end of streams
        0x05, 0x01, 0x11, 0x05, 0x00, 0x61, 0x00, 0x00, 0x00, 0x00, // files: one named "a"
        0x00, // end of header
    ];
    let mut start = le(PACKED.len() as u64, 8);
    start.extend(le(header.len() as u64, 8));
    start.extend(le(crc32fast::hash(&header) as u64, 4));
    let mut bytes = vec![0x37, 0x7A, 0xBC, 0xAF, 0x27, 0x1C, 0x00, 0x04];
    bytes.extend(le(crc32fast::hash(&start) as u64, 4));
    bytes.extend(start);
    bytes.extend(PACKED);
    bytes.extend(header);
    let archive = Archive::from_bytes(bytes).unwrap();
    assert_eq!(archive.num_files(), 1);
    assert_eq!(archive.extract_to_memory(0).unwrap(), vec![0xE8, 0x10, 0, 0, 0]);
}
