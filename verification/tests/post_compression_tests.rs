use gbam_tools::post_compression::{PostTokenizationCompressor, PostTokenizationConfig};
use gbam_tools::tokenizer::IlluminaTokenizer;

fn compressor() -> PostTokenizationCompressor {
    PostTokenizationCompressor::new(PostTokenizationConfig::default())
}

fn plain_compressor() -> PostTokenizationCompressor {
    PostTokenizationCompressor::new(PostTokenizationConfig {
        use_rle: true,
        use_huffman: true,
        use_delta_encoding: true,
        use_deflate: false,
        rle_threshold_hundredths: 20,
    })
}

#[test]
fn test_varint_round_trip() {
    let c = compressor();
    for &v in &[0i32, 1, -1, 2, -2, 127, 128, 300, -300, i32::MAX, i32::MIN] {
        let encoded = c.encode_varint(v);
        assert!(encoded.len() <= 5);
        let (decoded, consumed) = c.decode_varint(&encoded, 0).unwrap();
        assert_eq!(decoded, v);
        assert_eq!(consumed, encoded.len());
    }
}

#[test]
fn test_varint_exact_bytes() {
    let c = compressor();
    assert_eq!(c.encode_varint(0), vec![0]);
    assert_eq!(c.encode_varint(-1), vec![1]);
    assert_eq!(c.encode_varint(1), vec![2]);
    assert_eq!(c.encode_varint(300), vec![216, 4]);
}

#[test]
fn test_rle_round_trip() {
    let c = compressor();
    let cases: Vec<Vec<u8>> = vec![
        vec![],
        vec![7],
        vec![1, 1, 1, 1, 2, 2, 3],
        vec![0; 100],
        (0..255).collect(),
    ];
    for data in cases {
        let encoded = c.run_length_encode(&data);
        let decoded = c.run_length_decode(&encoded).unwrap();
        assert_eq!(decoded, data);
    }
}

#[test]
fn test_rle_exact_bytes() {
    let c = compressor();
    // a run of twenty fives: count 20 zig-zags to 40, then the value byte
    assert_eq!(c.run_length_encode(&[5; 20]), vec![40, 5]);
}

#[test]
fn test_rle_benefit() {
    let c = compressor();
    // twenty equal bytes save 18 of 20: well over the default threshold
    let (saved, len) = c.calculate_rle_benefit(&[5; 20]);
    assert_eq!((saved, len), (18, 20));
    // below ten bytes the benefit is reported as zero
    let (saved_small, len_small) = c.calculate_rle_benefit(&[5; 9]);
    assert_eq!((saved_small, len_small), (0, 9));
}

#[test]
fn test_categorical_stream_without_deflate() {
    let c = plain_compressor();
    // runny stream: run-length encoding engages and nothing else changes it
    let out = c.compress_categorical_stream(&[5; 20]).unwrap();
    assert_eq!(out, vec![40, 5]);
    // short stream: no stage engages
    let out2 = c.compress_categorical_stream(&[1, 2, 3]).unwrap();
    assert_eq!(out2, vec![1, 2, 3]);
}

#[test]
fn test_deflated_stream_inflates_back() {
    let c = compressor();
    let out = c.compress_categorical_stream(&[9; 40]).unwrap();
    // the stream was run-length encoded to [zigzag(40) = 80, 9] and then
    // zlib-deflated
    let mut decoder = flate2::read::ZlibDecoder::new(out.as_slice());
    let mut inflated = Vec::new();
    std::io::Read::read_to_end(&mut decoder, &mut inflated).unwrap();
    assert_eq!(inflated, vec![80, 9]);
}

#[test]
fn test_compress_tokenized_data_produces_block() {
    let mut tokenizer = IlluminaTokenizer::new();
    let names: Vec<Vec<u8>> = (0..12)
        .map(|i| format!("INSTRUMENT:123:FLOWCELL:1:1234:{}:{}", 5000 + i, 9000 + i).into_bytes())
        .collect();
    let refs: Vec<&[u8]> = names.iter().map(|v| v.as_slice()).collect();
    let tokenized = tokenizer.tokenize_batch(&refs).unwrap();
    let block = compressor()
        .compress_tokenized_data(&tokenized, tokenizer.get_dictionary())
        .unwrap();
    assert!(!block.is_empty());
}

#[test]
fn test_huffman_stage_is_pass_through() {
    let c = compressor();
    let data: Vec<u8> = vec![1, 1, 2, 2, 1, 1, 2, 2, 1, 1, 2, 2, 1, 1, 2, 2, 1, 1, 2, 2, 1, 2];
    assert!(c.should_use_huffman(&data));
    assert_eq!(c.huffman_encode(&data).unwrap(), data);
}
