use rsmt2d::codec::{new_medium_leo_rs_codec, new_small_leo_rs_codec};
use rsmt2d::{new_leo_rs_codec, new_test_leo_rs_codec, Codec, CodecError, CodecResult, LeoRSCodec};

#[test]
fn test_encode_decode_roundtrip() {
    let codec = new_leo_rs_codec();
    let chunk_size = 32;

    // Create test data
    let mut data = Vec::new();
    for i in 0..codec.max_chunks() {
        let mut chunk = vec![i as u8; chunk_size];
        chunk[0] = i as u8; // Make chunks distinguishable
        data.push(chunk);
    }

    // Encode
    let encoded = codec.encode(data.clone()).unwrap();
    assert_eq!(encoded.len(), codec.max_chunks() + codec.parity_chunks());

    // Convert to Option format for decoding
    let to_decode: Vec<Option<Vec<u8>>> = encoded.into_iter().map(Some).collect();

    // Decode
    let decoded = codec.decode(to_decode).unwrap();
    assert_eq!(decoded, data);
}

#[test]
fn test_error_correction() {
    let codec = new_leo_rs_codec();
    let chunk_size = 32;

    // Create test data
    let mut data = Vec::new();
    for i in 0..codec.max_chunks() {
        let mut chunk = vec![i as u8; chunk_size];
        chunk[0] = i as u8;
        data.push(chunk);
    }

    // Encode
    let encoded = codec.encode(data.clone()).unwrap();

    // Simulate corruption by removing some chunks (within error correction capacity)
    let mut corrupted: Vec<Option<Vec<u8>>> = encoded.into_iter().map(Some).collect();

    // Remove up to parity_shards chunks
    let corruption_count = codec.parity_chunks().min(8); // Remove 8 chunks
    for i in 0..corruption_count {
        corrupted[i] = None;
    }

    // Should still be able to decode
    let decoded = codec.decode(corrupted).unwrap();
    assert_eq!(decoded, data);
}

#[test]
fn test_beyond_error_limit() {
    let codec = new_leo_rs_codec();
    let chunk_size = 32;

    // Create test data
    let mut data = Vec::new();
    for i in 0..codec.max_chunks() {
        data.push(vec![i as u8; chunk_size]);
    }

    // Encode
    let encoded = codec.encode(data).unwrap();

    // Simulate corruption beyond repair capacity
    let mut corrupted: Vec<Option<Vec<u8>>> = encoded.into_iter().map(Some).collect();

    // Remove more chunks than we can recover
    let corruption_count = codec.parity_chunks() + 1;
    for i in 0..corruption_count {
        corrupted[i] = None;
    }

    // Should fail to decode
    assert!(codec.decode(corrupted).is_err());
}

#[test]
fn test_invalid_chunk_sizes() {
    let codec = new_leo_rs_codec();

    // Test encoding with wrong number of chunks
    let data = vec![vec![1, 2, 3]]; // Too few chunks
    assert!(codec.encode(data).is_err());

    // Test encoding with mismatched chunk sizes
    let mut data = Vec::new();
    for i in 0..codec.max_chunks() {
        let size = if i == 0 { 32 } else { 31 }; // One chunk different size
        data.push(vec![i as u8; size]);
    }
    assert!(codec.encode(data).is_err());
}

#[test]
fn test_codec_parameters() {
    let codec = new_leo_rs_codec();
    assert_eq!(codec.max_chunks(), 16);
    assert_eq!(codec.parity_chunks(), 16);
}

// Mock implementation for testing
struct MockCodec;

impl Codec for MockCodec {
    fn encode(&self, data: Vec<Vec<u8>>) -> CodecResult<Vec<Vec<u8>>> {
        // Simple mock: just duplicate the input as "parity"
        let mut result = data.clone();
        result.extend(data);
        Ok(result)
    }

    fn decode(&self, data: Vec<Option<Vec<u8>>>) -> CodecResult<Vec<Vec<u8>>> {
        // Simple mock: just take the first half of non-None entries
        let non_none: Vec<_> = data.into_iter().flatten().collect();
        let half = non_none.len() / 2;
        Ok(non_none.into_iter().take(half).collect())
    }

    fn max_chunks(&self) -> usize {
        16
    }

    fn parity_chunks(&self) -> usize {
        16
    }
}

#[test]
fn test_codec_trait() {
    let codec = MockCodec;
    let data = vec![vec![1, 2, 3], vec![4, 5, 6]];

    let encoded = codec.encode(data.clone()).unwrap();
    assert_eq!(encoded.len(), 4); // original + parity

    let to_decode = encoded.into_iter().map(Some).collect();
    let decoded = codec.decode(to_decode).unwrap();
    assert_eq!(decoded, data);
}

#[test]
fn factories_have_their_shard_counts() {
    let test = new_test_leo_rs_codec();
    assert_eq!((test.max_chunks(), test.parity_chunks()), (2, 2));
    let small = new_small_leo_rs_codec();
    assert_eq!((small.max_chunks(), small.parity_chunks()), (4, 4));
    let medium = new_medium_leo_rs_codec();
    assert_eq!((medium.max_chunks(), medium.parity_chunks()), (8, 8));
}

#[test]
fn new_refuses_bad_shard_counts() {
    assert!(LeoRSCodec::new(0, 2).is_err());
    assert!(LeoRSCodec::new(2, 0).is_err());
    assert!(LeoRSCodec::new(200, 57).is_err());
    assert!(LeoRSCodec::new(200, 56).is_ok());
    match LeoRSCodec::new(0, 1) {
        Err(CodecError::EncodingFailed(m)) => {
            assert!(m.starts_with("Failed to create Reed-Solomon codec: "));
        }
        _ => panic!("expected an encoding error"),
    }
}

#[test]
fn encode_keeps_data_in_front() {
    let codec = new_test_leo_rs_codec();
    let data = vec![vec![7u8, 8, 9], vec![1u8, 2, 3]];
    let encoded = codec.encode(data.clone()).unwrap();
    assert_eq!(encoded.len(), 4);
    assert_eq!(encoded[0], data[0]);
    assert_eq!(encoded[1], data[1]);
    assert_eq!(encoded[2].len(), 3);
    assert_eq!(encoded[3].len(), 3);
    // The parity changes with the data.
    let other = codec.encode(vec![vec![7u8, 8, 9], vec![1u8, 2, 4]]).unwrap();
    assert_ne!(other[2..], encoded[2..]);
}

#[test]
fn encode_errors() {
    let codec = new_test_leo_rs_codec();
    match codec.encode(vec![vec![1u8]]) {
        Err(CodecError::InvalidChunkSize { expected, actual }) => assert_eq!((expected, actual), (2, 1)),
        _ => panic!("expected a chunk count error"),
    }
    match codec.encode(vec![vec![1u8, 2], vec![3u8]]) {
        Err(CodecError::EncodingFailed(m)) => assert_eq!(m, "Chunk 1 has size 1 but expected 2"),
        _ => panic!("expected an uneven chunk error"),
    }
    assert!(matches!(codec.encode(vec![vec![], vec![]]), Err(CodecError::EncodingFailed(_))));
}

#[test]
fn decode_recovers_any_two_of_four() {
    let codec = new_test_leo_rs_codec();
    let data = vec![vec![10u8, 20, 30, 40], vec![50u8, 60, 70, 80]];
    let encoded = codec.encode(data.clone()).unwrap();
    for a in 0..4 {
        for b in (a + 1)..4 {
            let mut partial: Vec<Option<Vec<u8>>> = vec![None; 4];
            partial[a] = Some(encoded[a].clone());
            partial[b] = Some(encoded[b].clone());
            assert_eq!(codec.decode(partial).unwrap(), data);
        }
    }
}

#[test]
fn decode_errors() {
    let codec = new_test_leo_rs_codec();
    match codec.decode(vec![Some(vec![1u8]); 3]) {
        Err(CodecError::InvalidChunkSize { expected, actual }) => assert_eq!((expected, actual), (4, 3)),
        _ => panic!("expected a chunk count error"),
    }
    assert!(matches!(
        codec.decode(vec![Some(vec![1u8]), None, None, None]),
        Err(CodecError::InsufficientData)
    ));
    assert!(matches!(
        codec.decode(vec![Some(vec![1u8]), Some(vec![1u8, 2]), None, None]),
        Err(CodecError::DecodingFailed(_))
    ));
}
