use gbam_tools::compressor::{
    compress, BlockInfo, Codecs, Compressor, Fields, OrderingKey,
};

#[test]
fn test_identity_codec_copies() {
    let source = b"some block of bytes";
    let out = compress(source, Vec::new(), Codecs::NoCompression).unwrap();
    assert_eq!(out.as_slice(), source.as_slice());
}

#[test]
fn test_gzip_round_trips() {
    let source: Vec<u8> = (0..200u32).map(|i| (i % 7) as u8).collect();
    let out = compress(&source, Vec::new(), Codecs::Gzip).unwrap();
    let mut decoder = flate2::read::GzDecoder::new(out.as_slice());
    let mut inflated = Vec::new();
    std::io::Read::read_to_end(&mut decoder, &mut inflated).unwrap();
    assert_eq!(inflated, source);
}

#[test]
fn test_zstd_round_trips() {
    let source: Vec<u8> = (0..200u32).map(|i| (i % 11) as u8).collect();
    let out = compress(&source, Vec::new(), Codecs::Zstd).unwrap();
    let restored = zstd::stream::decode_all(out.as_slice()).unwrap();
    assert_eq!(restored, source);
}

#[test]
fn test_xz_round_trips() {
    let source: Vec<u8> = (0..200u32).map(|i| (i % 13) as u8).collect();
    let out = compress(&source, Vec::new(), Codecs::Xz).unwrap();
    let mut decoder = xz2::read::XzDecoder::new(out.as_slice());
    let mut restored = Vec::new();
    std::io::Read::read_to_end(&mut decoder, &mut restored).unwrap();
    assert_eq!(restored, source);
}

#[test]
fn test_brotli_round_trips() {
    let source: Vec<u8> = (0..200u32).map(|i| (i % 17) as u8).collect();
    let out = compress(&source, Vec::new(), Codecs::Brotli).unwrap();
    let mut decoder = brotli::Decompressor::new(out.as_slice(), 4096);
    let mut restored = Vec::new();
    std::io::Read::read_to_end(&mut decoder, &mut restored).unwrap();
    assert_eq!(restored, source);
}

#[test]
fn test_lz4_round_trips() {
    let source: Vec<u8> = (0..200u32).map(|i| (i % 19) as u8).collect();
    let out = compress(&source, Vec::new(), Codecs::Lz4).unwrap();
    let mut restored = vec![0u8; source.len()];
    lzzzz::lz4::decompress(&out, &mut restored).unwrap();
    assert_eq!(restored, source);
}

#[test]
fn test_pipeline_end_to_end() {
    let thread_num = 4;
    let mut compressor = Compressor::new(thread_num);
    for key in 0..100u64 {
        let data: Vec<u8> = (0..64u32).map(|i| (i as u8).wrapping_mul(key as u8 + 1)).collect();
        let info = BlockInfo { field: Fields::Other, uncompr_size: data.len() };
        compressor
            .compress_block(OrderingKey::Key(key), info, data, Codecs::Zstd)
            .unwrap();
    }
    let leftovers = compressor.finish();
    let mut real_keys: Vec<u64> = Vec::new();
    let mut sentinels = 0usize;
    for task in &leftovers {
        match task.ordering_key {
            OrderingKey::Key(k) => {
                assert!(!task.buf.is_empty());
                real_keys.push(k);
            }
            OrderingKey::UnusedBlock => sentinels += 1,
        }
    }
    assert_eq!(real_keys.len(), 100);
    real_keys.sort();
    let expected: Vec<u64> = (0..100).collect();
    assert_eq!(real_keys, expected);
    assert_eq!(sentinels, thread_num);
    assert_eq!(compressor.pool_size(), thread_num);
}

#[test]
fn test_read_name_block_tokenizes() {
    let mut compressor = Compressor::new(1);
    let mut payload: Vec<u8> = Vec::new();
    for i in 0..20 {
        payload.extend_from_slice(
            format!("INSTRUMENT:123:FLOWCELL:1:1234:{}:{}", 5000 + i, 9000 + i).as_bytes(),
        );
        payload.push(0);
    }
    let info = BlockInfo { field: Fields::ReadName, uncompr_size: payload.len() };
    compressor
        .compress_block(OrderingKey::Key(7), info, payload, Codecs::Gzip)
        .unwrap();
    let leftovers = compressor.finish();
    let real: Vec<_> = leftovers
        .iter()
        .filter(|t| matches!(t.ordering_key, OrderingKey::Key(_)))
        .collect();
    assert_eq!(real.len(), 1);
    assert!(!real[0].buf.is_empty());
}

#[test]
fn test_small_read_name_block_takes_general_path() {
    let mut compressor = Compressor::new(1);
    let payload = b"one-name\x00two-name\x00".to_vec();
    let info = BlockInfo { field: Fields::ReadName, uncompr_size: payload.len() };
    compressor
        .compress_block(OrderingKey::Key(1), info, payload.clone(), Codecs::NoCompression)
        .unwrap();
    let leftovers = compressor.finish();
    let real: Vec<_> = leftovers
        .iter()
        .filter(|t| matches!(t.ordering_key, OrderingKey::Key(_)))
        .collect();
    // two names are too few to tokenize: the identity codec passes the
    // payload through unchanged
    assert_eq!(real[0].buf, payload);
}
