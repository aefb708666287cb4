use gbam_tools::post_compression::{PostTokenizationCompressor, PostTokenizationConfig};
use gbam_tools::tokenizer::IlluminaTokenizer;

fn inflate(data: &[u8]) -> Vec<u8> {
    let mut decoder = flate2::read::ZlibDecoder::new(data);
    let mut out = Vec::new();
    std::io::Read::read_to_end(&mut decoder, &mut out).unwrap();
    out
}

/// Walk the assembled block of a small batch and check the persisted
/// layout field by field: the deflated dictionary, then the nine streams in
/// fixed order, each preceded by its varint length.
#[test]
fn test_block_layout_is_bit_exact() {
    let c = PostTokenizationCompressor::new(PostTokenizationConfig::default());
    let mut tokenizer = IlluminaTokenizer::new();
    let names: Vec<Vec<u8>> = (0..12)
        .map(|i| format!("INSTRUMENT:123:FLOWCELL:1:1234:{}:{}", 5000 + i, 9000 + 2 * i).into_bytes())
        .collect();
    let refs: Vec<&[u8]> = names.iter().map(|v| v.as_slice()).collect();
    let tokenized = tokenizer.tokenize_batch(&refs).unwrap();
    let block = c
        .compress_tokenized_data(&tokenized, tokenizer.get_dictionary())
        .unwrap();

    // helper to read one length-framed section
    let mut pos = 0usize;
    let mut next_section = |pos: &mut usize| -> Vec<u8> {
        let (len, after) = c.decode_varint(&block, *pos).unwrap();
        let start = after;
        let end = start + len as usize;
        *pos = end;
        block[start..end].to_vec()
    };

    // dictionary: varint(count) | [varint(len) | bytes] per table, deflated
    let dict = inflate(&next_section(&mut pos));
    let mut dpos = 0usize;
    let read_varint = |bytes: &[u8], at: &mut usize| -> i32 {
        let (v, after) = c.decode_varint(bytes, *at).unwrap();
        *at = after;
        v
    };
    // instruments
    assert_eq!(read_varint(&dict, &mut dpos), 1);
    assert_eq!(read_varint(&dict, &mut dpos), 10);
    assert_eq!(&dict[dpos..dpos + 10], b"INSTRUMENT");
    dpos += 10;
    // flowcells: the reserved empty slot, then the real one
    assert_eq!(read_varint(&dict, &mut dpos), 2);
    assert_eq!(read_varint(&dict, &mut dpos), 0);
    assert_eq!(read_varint(&dict, &mut dpos), 8);
    assert_eq!(&dict[dpos..dpos + 8], b"FLOWCELL");
    dpos += 8;
    // no UMIs, no indices
    assert_eq!(read_varint(&dict, &mut dpos), 0);
    assert_eq!(read_varint(&dict, &mut dpos), 0);
    assert_eq!(dpos, dict.len());

    // instrument_ids: twelve zeros, run-length encoded then deflated
    let instrument_ids = inflate(&next_section(&mut pos));
    assert_eq!(c.run_length_decode(&instrument_ids).unwrap(), vec![0u8; 12]);

    // run_ids: delta varints (123, then eleven zero deltas), deflated
    let run_ids = inflate(&next_section(&mut pos));
    let mut rpos = 0usize;
    assert_eq!(read_varint(&run_ids, &mut rpos), 123);
    for _ in 0..11 {
        assert_eq!(read_varint(&run_ids, &mut rpos), 0);
    }
    assert_eq!(rpos, run_ids.len());

    // flowcell_ids: twelve ones, run-length encoded then deflated
    let flowcell_ids = inflate(&next_section(&mut pos));
    assert_eq!(c.run_length_decode(&flowcell_ids).unwrap(), vec![1u8; 12]);

    // lanes, read_nums: twelve ones each
    let lanes = inflate(&next_section(&mut pos));
    assert_eq!(c.run_length_decode(&lanes).unwrap(), vec![1u8; 12]);
    let read_nums = inflate(&next_section(&mut pos));
    assert_eq!(c.run_length_decode(&read_nums).unwrap(), vec![1u8; 12]);

    // flags: twelve zeros
    let flags = inflate(&next_section(&mut pos));
    assert_eq!(c.run_length_decode(&flags).unwrap(), vec![0u8; 12]);

    // coordinates: interleaved (dx, dy, dtile) varints, deflated
    let coords = inflate(&next_section(&mut pos));
    let mut cpos = 0usize;
    assert_eq!(read_varint(&coords, &mut cpos), 5000);
    assert_eq!(read_varint(&coords, &mut cpos), 9000);
    assert_eq!(read_varint(&coords, &mut cpos), 1234);
    for _ in 0..11 {
        assert_eq!(read_varint(&coords, &mut cpos), 1); // dx
        assert_eq!(read_varint(&coords, &mut cpos), 2); // dy
        assert_eq!(read_varint(&coords, &mut cpos), 0); // dtile
    }
    assert_eq!(cpos, coords.len());

    // umi_ids and index_ids: all absent, so an all-zero bitmap of two bytes
    // and an empty value stream, each deflated inside the sparse frame
    for _ in 0..2 {
        let sparse = next_section(&mut pos);
        let mut spos = 0usize;
        let (bm_len, after) = c.decode_varint(&sparse, spos).unwrap();
        spos = after;
        let bitmap = inflate(&sparse[spos..spos + bm_len as usize]);
        spos += bm_len as usize;
        assert_eq!(bitmap, vec![0u8, 0u8]);
        let (val_len, after2) = c.decode_varint(&sparse, spos).unwrap();
        spos = after2;
        let values = inflate(&sparse[spos..spos + val_len as usize]);
        spos += val_len as usize;
        assert!(values.is_empty());
        assert_eq!(spos, sparse.len());
    }

    assert_eq!(pos, block.len());
}
