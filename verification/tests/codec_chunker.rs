use p2p_file_deployer::protocol::codec::{encode_frame, parse_frame_prefix, CodecError, MAX_DATA_SIZE, MAX_HEADER_SIZE};
use p2p_file_deployer::transfer::chunker::{
    build_chunk_map, chunk_count, chunk_offset, sha1_hex, verify_chunk, ChunkMapBuilder, ChunkerError,
    Sha1Stream,
    CHUNK_SIZE,
};

#[test]
fn encode_frame_layout() {
    let frame = encode_frame(b"{\"a\":1}", &[9, 8, 7]);
    let mut expected = vec![0, 0, 0, 7, 0, 0, 0, 3];
    expected.extend_from_slice(b"{\"a\":1}");
    expected.extend_from_slice(&[9, 8, 7]);
    assert_eq!(frame, expected);
}

#[test]
fn encode_frame_empty_data() {
    let frame = encode_frame(b"{}", &[]);
    assert_eq!(frame, vec![0, 0, 0, 2, 0, 0, 0, 0, b'{', b'}']);
}

#[test]
fn frame_roundtrip_through_prefix() {
    let header = b"{\"msg_type\":\"chunk_request\"}".to_vec();
    let data: Vec<u8> = (0..300u32).map(|i| (i % 251) as u8).collect();
    let frame = encode_frame(&header, &data);
    let mut prefix = [0u8; 8];
    prefix.copy_from_slice(&frame[..8]);
    let (h, d) = parse_frame_prefix(&prefix).unwrap();
    assert_eq!(h as usize, header.len());
    assert_eq!(d as usize, data.len());
    assert_eq!(&frame[8..8 + header.len()], &header[..]);
    assert_eq!(&frame[8 + header.len()..], &data[..]);
}

#[test]
fn prefix_big_endian() {
    let prefix = [0x00, 0x01, 0x00, 0x00, 0x00, 0x18, 0x00, 0x00];
    match parse_frame_prefix(&prefix) {
        Ok((h, d)) => {
            assert_eq!(h, 65536);
            assert_eq!(d, 1572864);
        }
        Err(e) => panic!("unexpected error {:?}", e),
    }
}

#[test]
fn prefix_header_too_large() {
    let prefix = [0x00, 0x01, 0x00, 0x01, 0xff, 0xff, 0xff, 0xff];
    match parse_frame_prefix(&prefix) {
        Err(CodecError::FrameTooLarge(n)) => assert_eq!(n, MAX_HEADER_SIZE + 1),
        other => panic!("unexpected {:?}", other),
    }
}

#[test]
fn prefix_data_too_large() {
    let prefix = [0, 0, 0, 5, 0x00, 0x18, 0x00, 0x01];
    match parse_frame_prefix(&prefix) {
        Err(CodecError::FrameTooLarge(n)) => assert_eq!(n, MAX_DATA_SIZE + 1),
        other => panic!("unexpected {:?}", other),
    }
}

#[test]
fn chunk_count_values() {
    assert_eq!(chunk_count(0, CHUNK_SIZE), 0);
    assert_eq!(chunk_count(1, CHUNK_SIZE), 1);
    assert_eq!(chunk_count(524288, CHUNK_SIZE), 1);
    assert_eq!(chunk_count(524289, CHUNK_SIZE), 2);
    assert_eq!(chunk_count(2_097_152, 1_048_576), 2);
    assert_eq!(chunk_count(10, 3), 4);
}

#[test]
fn chunk_count_exact_multiples() {
    for n in 0..20u64 {
        assert_eq!(chunk_count(n * 7, 7), n as u32);
        for r in 1..7u64 {
            assert_eq!(chunk_count(n * 7 + r, 7), n as u32 + 1);
        }
    }
}

#[test]
fn chunk_offset_values() {
    assert_eq!(chunk_offset(0, CHUNK_SIZE), 0);
    assert_eq!(chunk_offset(3, CHUNK_SIZE), 3 * 524288);
    assert_eq!(chunk_offset(u32::MAX, u32::MAX), (u32::MAX as u64) * (u32::MAX as u64));
}

#[test]
fn sha1_known_values() {
    assert_eq!(sha1_hex(b""), "da39a3ee5e6b4b0d3255bfef95601890afd80709");
    assert_eq!(sha1_hex(b"abc"), "a9993e364706816aba3e25717850c26c9cd0d89d");
}

#[test]
fn sha1_stream_matches_one_shot() {
    let data = b"The quick brown fox jumps over the lazy dog";
    let mut s = Sha1Stream::new();
    s.update(&data[..10]);
    s.update(&data[10..]);
    assert_eq!(s.finish_hex(), sha1_hex(data));
    assert_eq!(sha1_hex(data), "2fd4e1c67a2d28fced849ee1bb76e7391b93eb12");
}

#[test]
fn verify_chunk_ok_and_mismatch() {
    assert!(verify_chunk(b"abc", "a9993e364706816aba3e25717850c26c9cd0d89d").is_ok());
    match verify_chunk(b"abd", "a9993e364706816aba3e25717850c26c9cd0d89d") {
        Err(ChunkerError::HashMismatch { expected, actual }) => {
            assert_eq!(expected, "a9993e364706816aba3e25717850c26c9cd0d89d");
            assert_eq!(actual, sha1_hex(b"abd"));
        }
        other => panic!("unexpected {:?}", other),
    }
}

#[test]
fn chunk_map_verifies_each_chunk() {
    let data: Vec<u8> = (0..1000u32).map(|i| (i * 7 % 256) as u8).collect();
    let map = build_chunk_map(&data, 300);
    assert_eq!(map.len(), 4);
    for (i, h) in map.iter().enumerate() {
        let start = i * 300;
        let end = if start + 300 < data.len() { start + 300 } else { data.len() };
        assert!(verify_chunk(&data[start..end], h).is_ok());
        assert_eq!(*h, sha1_hex(&data[start..end]));
    }
    let mut joined = Vec::new();
    for i in 0..map.len() {
        let start = chunk_offset(i as u32, 300) as usize;
        let end = if start + 300 < data.len() { start + 300 } else { data.len() };
        joined.extend_from_slice(&data[start..end]);
    }
    assert_eq!(joined, data);
}

#[test]
fn chunk_map_empty_file() {
    let map = build_chunk_map(&[], CHUNK_SIZE);
    assert!(map.is_empty());
}

#[test]
fn chunk_map_wrong_chunk_fails() {
    let data = b"aaaabbbb".to_vec();
    let map = build_chunk_map(&data, 4);
    assert_eq!(map.len(), 2);
    assert!(verify_chunk(b"bbbb", &map[0]).is_err());
    assert!(verify_chunk(b"bbbb", &map[1]).is_ok());
}

#[test]
fn chunk_map_builder_matches_whole_map() {
    let data: Vec<u8> = (0..1000u32).map(|i| (i * 13 % 256) as u8).collect();
    let mut b = ChunkMapBuilder::new(300);
    for start in (0..data.len()).step_by(300) {
        let end = if start + 300 < data.len() { start + 300 } else { data.len() };
        b.push_chunk(&data[start..end]);
    }
    assert_eq!(b.size(), 1000);
    assert_eq!(b.chunks(), 4);
    assert_eq!(b.chunk_size(), 300);
    let (size, count, hashes) = b.into_parts();
    assert_eq!(size, 1000);
    assert_eq!(count, chunk_count(1000, 300));
    assert_eq!(hashes, build_chunk_map(&data, 300));
}

#[test]
fn chunk_map_builder_exact_and_empty() {
    let (size, count, hashes) = ChunkMapBuilder::new(CHUNK_SIZE).into_parts();
    assert_eq!((size, count), (0, 0));
    assert!(hashes.is_empty());
    let mut b = ChunkMapBuilder::new(4);
    b.push_chunk(b"aaaa");
    b.push_chunk(b"bbbb");
    let (size, count, hashes) = b.into_parts();
    assert_eq!((size, count), (8, 2));
    assert_eq!(hashes, vec![sha1_hex(b"aaaa"), sha1_hex(b"bbbb")]);
}
