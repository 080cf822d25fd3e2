use r7z::write::encode::compress_ppmd;
use r7z::{decompress, CompressionOptions, R7zError};

#[test]
fn decompress_undoes_delta_and_swap_filters() {
    assert_eq!(decompress(&[0x03], Some(&[0]), &[1, 1, 1, 250, 10], 5).unwrap(), vec![1, 2, 3, 253, 7]);
    assert_eq!(decompress(&[0x03], Some(&[1]), &[1, 2, 1, 1], 4).unwrap(), vec![1, 2, 2, 3]);
    assert_eq!(decompress(&[0x03], None, &[1], 1), Err(R7zError::Decompression));
    assert_eq!(decompress(&[0x02, 0x03, 0x02], None, &[1, 2, 3, 4, 5], 5).unwrap(), vec![2, 1, 4, 3, 5]);
    assert_eq!(decompress(&[0x02, 0x03, 0x04], None, &[1, 2, 3, 4, 5], 5).unwrap(), vec![4, 3, 2, 1, 5]);
}

#[test]
fn decompress_branch_filters_pass_plain_bytes() {
    let data = vec![0u8; 64];
    for id in [
        vec![0x03, 0x03, 0x05, 0x01],
        vec![0x03, 0x03, 0x07, 0x01],
        vec![0x03, 0x03, 0x02, 0x05],
        vec![0x03, 0x03, 0x08, 0x05],
        vec![0x03, 0x03, 0x04, 0x01],
    ] {
        assert_eq!(decompress(&id, None, &data, 64).unwrap(), data, "{id:?}");
    }
}

#[test]
fn decompress_reads_ppmd_streams() {
    let text = b"abracadabra abracadabra abracadabra".to_vec();
    let (props, stream) = compress_ppmd(&text, &CompressionOptions::default()).unwrap();
    let out = decompress(&[0x03, 0x04, 0x01], Some(&props), &stream, text.len() as u64).unwrap();
    assert_eq!(out, text);
    assert!(decompress(&[0x03, 0x04, 0x01], Some(&[6]), &stream, 3).is_err());
}

#[test]
fn decompress_reads_deflate_deflate64_and_bzip2() {
    let text = b"hello hello hello hello deflate and bzip2".to_vec();
    let deflated = miniz_oxide::deflate::compress_to_vec(&text, 6);
    assert_eq!(decompress(&[0x04, 0x01, 0x08], None, &deflated, text.len() as u64).unwrap(), text);
    assert_eq!(decompress(&[0x04, 0x01, 0x08], None, &deflated, 3), Err(R7zError::Decompression));
    let stored = miniz_oxide::deflate::compress_to_vec(&text, 0);
    assert_eq!(decompress(&[0x04, 0x01, 0x09], None, &stored, text.len() as u64).unwrap(), text);
    let mut enc = bzip2::write::BzEncoder::new(Vec::new(), bzip2::Compression::default());
    std::io::Write::write_all(&mut enc, &text).unwrap();
    let bz = enc.finish().unwrap();
    assert_eq!(decompress(&[0x04, 0x02, 0x02], None, &bz, text.len() as u64).unwrap(), text);
    assert_eq!(decompress(&[0x04, 0x02, 0x02], None, &[1, 2, 3], 3), Err(R7zError::Decompression));
}

#[test]
fn decompress_refuses_unknown_codecs() {
    let id = vec![0x04, 0xF7, 0x11, 0x01];
    assert_eq!(decompress(&id, None, &[1, 2, 3], 3), Err(R7zError::UnsupportedCodec(id.clone())));
}
