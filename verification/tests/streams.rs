use r7z::byte_swap::ByteSwapReader;
use r7z::delta::DeltaReader;

fn drain_swap(reader: &mut ByteSwapReader, chunk: usize) -> Vec<u8> {
    let mut out = Vec::new();
    let mut buf = vec![0u8; chunk];
    loop {
        let n = reader.read(&mut buf);
        if n == 0 {
            break;
        }
        out.extend_from_slice(&buf[..n]);
    }
    out
}

fn drain_delta(reader: &mut DeltaReader, chunk: usize) -> Vec<u8> {
    let mut out = Vec::new();
    let mut buf = vec![0u8; chunk];
    loop {
        let n = reader.read(&mut buf);
        if n == 0 {
            break;
        }
        out.extend_from_slice(&buf[..n]);
    }
    out
}

#[test]
fn byte_swap_reader_handles_split_reads() {
    let mut reader = ByteSwapReader::new("badcfe".as_bytes().to_vec(), 2);
    let out = drain_swap(&mut reader, 1);
    assert_eq!(out, b"abcdef");
}

#[test]
fn byte_swap_reader_leaves_trailing_partial_group_unchanged() {
    let mut reader = ByteSwapReader::new("dcbae".as_bytes().to_vec(), 4);
    let out = drain_swap(&mut reader, 4096);
    assert_eq!(out, b"abcde");
}

#[test]
fn byte_swap_reader_same_result_for_every_chunk_size() {
    let data: Vec<u8> = (0u8..=250).collect();
    let whole = drain_swap(&mut ByteSwapReader::new(data.clone(), 4), 1000);
    for chunk in [1usize, 2, 3, 5, 7, 64] {
        assert_eq!(drain_swap(&mut ByteSwapReader::new(data.clone(), 4), chunk), whole);
    }
    assert_eq!(&whole[..4], &[3, 2, 1, 0]);
    assert_eq!(&whole[248..], &[248, 249, 250]);
}

fn encode_delta(data: &[u8], delta: usize) -> Vec<u8> {
    let mut state = [0u8; 256];
    let mut pos = 0usize;
    data.iter()
        .map(|&byte| {
            let encoded = byte.wrapping_sub(state[pos]);
            state[pos] = byte;
            pos += 1;
            if pos == delta {
                pos = 0;
            }
            encoded
        })
        .collect()
}

#[test]
fn delta_reader_decodes_across_reads() {
    let original = b"abcdefabcdefabcdef";
    let encoded = encode_delta(original, 3);
    let mut reader = DeltaReader::new(encoded, &[2]).unwrap();
    let out = drain_delta(&mut reader, 2);
    assert_eq!(out, original);
}

#[test]
fn delta_reader_rejects_invalid_properties() {
    assert!(DeltaReader::new(Vec::new(), &[]).is_err());
    assert!(DeltaReader::new(Vec::new(), &[0, 1]).is_err());
}

#[test]
fn delta_reader_distance_one_is_running_sum() {
    let mut reader = DeltaReader::new(vec![1, 1, 1, 1], &[0]).unwrap();
    assert_eq!(drain_delta(&mut reader, 3), vec![1, 2, 3, 4]);
}
