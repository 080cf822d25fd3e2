use r7z::bcj::{bcj_x86_decode, bcj_x86_encode, test86_msb, BcjX86Reader, BcjX86Writer};

#[test]
fn test86_msb_check() {
    assert!(test86_msb(0x00));
    assert!(test86_msb(0xFF));
    assert!(!test86_msb(0x01));
    assert!(!test86_msb(0xFE));
    assert!(!test86_msb(0x80));
}

#[test]
fn encode_decode_roundtrip() {
    let mut original = vec![0x90u8; 64];
    original[10] = 0xE8;
    original[11] = 0xF1;
    original[12] = 0x0F;
    original[13] = 0x00;
    original[14] = 0x00;
    original[32] = 0xE9;
    original[33] = 0xDB;
    original[34] = 0x1F;
    original[35] = 0x00;
    original[36] = 0x00;

    let saved = original.clone();
    bcj_x86_encode(&mut original);
    assert_ne!(&original[11..15], &saved[11..15]);
    assert_ne!(&original[33..37], &saved[33..37]);
    bcj_x86_decode(&mut original);
    assert_eq!(original, saved);
}

#[test]
fn no_modification_without_e8_e9() {
    let mut data = vec![0x90u8; 32];
    let saved = data.clone();
    bcj_x86_encode(&mut data);
    assert_eq!(data, saved);
}

#[test]
fn short_buffer_noop() {
    let mut data = vec![0xE8, 0x00, 0x00, 0x00];
    let saved = data.clone();
    bcj_x86_encode(&mut data);
    assert_eq!(data, saved);
}

#[test]
fn non_near_target_not_converted() {
    let mut data = vec![0x90u8; 16];
    data[5] = 0xE8;
    data[6] = 0x00;
    data[7] = 0x00;
    data[8] = 0x00;
    data[9] = 0x80;
    let saved = data.clone();
    bcj_x86_encode(&mut data);
    assert_eq!(data, saved);
}

#[test]
fn multiple_calls_roundtrip() {
    let mut data = vec![0x90u8; 256];
    for &pos in &[10u32, 30, 60, 100, 150, 200] {
        let p = pos as usize;
        if p + 5 <= data.len() {
            data[p] = 0xE8;
            data[p + 1] = (pos * 7) as u8;
            data[p + 2] = ((pos * 7) >> 8) as u8;
            data[p + 3] = 0x00;
            data[p + 4] = 0x00;
        }
    }
    let saved = data.clone();
    bcj_x86_encode(&mut data);
    assert_ne!(data, saved);
    bcj_x86_decode(&mut data);
    assert_eq!(data, saved);
}

#[test]
fn encode_produces_absolute_addresses() {
    let mut data = vec![0x90u8; 16];
    data[0] = 0xE8;
    data[1] = 0x00;
    data[2] = 0x01;
    data[3] = 0x00;
    data[4] = 0x00;
    bcj_x86_encode(&mut data);
    let disp = u32::from_le_bytes([data[1], data[2], data[3], 0]);
    assert_eq!(disp, 0x0105);
}

fn read_all(reader: &mut BcjX86Reader, chunk_size: usize) -> Vec<u8> {
    let mut actual = Vec::new();
    let mut buf = vec![0u8; chunk_size];
    loop {
        let n = reader.read(&mut buf);
        if n == 0 {
            break;
        }
        actual.extend_from_slice(&buf[..n]);
    }
    actual
}

#[test]
fn streaming_decode_matches_batch_for_chunk_sizes() {
    let mut original = vec![0x90u8; 4096];
    for &pos in &[3usize, 10, 63, 127, 512, 1021, 2048, 3070] {
        original[pos] = if pos % 2 == 0 { 0xE8 } else { 0xE9 };
        original[pos + 1] = (pos * 5) as u8;
        original[pos + 2] = ((pos * 5) >> 8) as u8;
        original[pos + 3] = 0;
        original[pos + 4] = 0;
    }
    let mut encoded = original.clone();
    bcj_x86_encode(&mut encoded);
    let mut expected = encoded.clone();
    bcj_x86_decode(&mut expected);

    for chunk_size in [1usize, 2, 3, 4, 5, 7, 16, 64] {
        let mut reader = BcjX86Reader::new(encoded.clone());
        let actual = read_all(&mut reader, chunk_size);
        assert_eq!(actual, expected, "chunk_size={chunk_size}");
    }
}

#[test]
fn streaming_decode_handles_split_instruction() {
    let mut original = vec![0x90u8; 32];
    original[4] = 0xE8;
    original[5] = 0x40;
    original[6] = 0x00;
    original[7] = 0x00;
    original[8] = 0x00;
    let mut encoded = original.clone();
    bcj_x86_encode(&mut encoded);
    let mut reader = BcjX86Reader::new(encoded);
    let actual = read_all(&mut reader, 2);
    assert_eq!(actual, original);
}

#[test]
fn streaming_encode_matches_batch_for_chunk_sizes() {
    let mut data = vec![0x90u8; 4096];
    for pos in (3..data.len().saturating_sub(5)).step_by(37) {
        data[pos] = if pos % 2 == 0 { 0xE8 } else { 0xE9 };
        let target = (pos as u32).wrapping_mul(11);
        data[pos + 1..pos + 5].copy_from_slice(&target.to_le_bytes());
    }
    let mut batch = data.clone();
    bcj_x86_encode(&mut batch);

    for chunk_size in [1, 2, 3, 4, 5, 7, 31, 1024] {
        let mut writer = BcjX86Writer::new();
        let mut streamed = Vec::new();
        for chunk in data.chunks(chunk_size) {
            streamed.extend(writer.write(chunk));
        }
        streamed.extend(writer.finish());
        assert_eq!(streamed, batch, "chunk_size={chunk_size}");
    }
}

#[test]
fn bcj_reader_on_empty_input_gives_nothing() {
    let mut reader = BcjX86Reader::new(Vec::new());
    assert!(read_all(&mut reader, 8).is_empty());
}
