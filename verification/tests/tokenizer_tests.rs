use gbam_tools::error::TokenizationError;
use gbam_tools::tokenizer::IlluminaTokenizer;

#[test]
fn test_legacy_illumina_format() {
    let mut tokenizer = IlluminaTokenizer::new();
    let read_name = b"HWUSI-EAS566_0007:2:30:18804:9636#0|AGC";

    let result = tokenizer.tokenize_single(read_name);
    assert!(result.is_ok());

    let tokenized = result.unwrap();
    assert_eq!(tokenized.lane, 2);
    assert_eq!(tokenized.tile, 30);
    assert_eq!(tokenized.x_coord, 18804);
    assert_eq!(tokenized.y_coord, 9636);
    assert_eq!(tokenized.flowcell_id, 0); // Legacy format uses 0
}

#[test]
fn test_modern_illumina_format() {
    let mut tokenizer = IlluminaTokenizer::new();
    let read_name = b"INSTRUMENT:123:FLOWCELL:1:1234:5678:9012";

    let result = tokenizer.tokenize_single(read_name);
    assert!(result.is_ok());

    let tokenized = result.unwrap();
    assert_eq!(tokenized.lane, 1);
    assert_eq!(tokenized.tile, 1234);
    assert_eq!(tokenized.x_coord, 5678);
    assert_eq!(tokenized.y_coord, 9012);
    assert_ne!(tokenized.flowcell_id, 0); // Modern format has flowcell ID
}

#[test]
fn test_batch_tokenization() {
    let mut tokenizer = IlluminaTokenizer::new();
    let read_names = vec![
        b"HWUSI-EAS566_0007:2:30:18804:9636#0|AGC".as_slice(),
        b"HWUSI-EAS566_0007:2:30:18804:9637#0|AGC".as_slice(),
    ];

    let result = tokenizer.tokenize_batch(&read_names);
    assert!(result.is_ok());

    let tokenized = result.unwrap();
    assert_eq!(tokenized.len(), 2);
    assert_eq!(tokenized[0].y_coord, 9636);
    assert_eq!(tokenized[1].y_coord, 9637);
}

#[test]
fn test_modern_fields_resolve() {
    let mut tokenizer = IlluminaTokenizer::new();
    let tokenized = tokenizer
        .tokenize_single(b"INSTRUMENT:123:FLOWCELL:1:1234:5678:9012")
        .unwrap();
    assert_eq!(tokenized.instrument_id, 0);
    assert_eq!(tokenized.run_id, 123);
    let dict = tokenizer.get_dictionary();
    assert_eq!(dict.get_instrument(tokenized.instrument_id), Some(b"INSTRUMENT".as_slice()));
    assert_eq!(dict.get_flowcell(tokenized.flowcell_id), Some(b"FLOWCELL".as_slice()));
    assert_eq!(tokenized.umi_id, None);
    assert_eq!(tokenized.index_id, None);
    assert_eq!(tokenized.read_num, 1);
    assert_eq!(tokenized.flags, 0);
}

#[test]
fn test_legacy_suffix_components() {
    let mut tokenizer = IlluminaTokenizer::new();
    let tokenized = tokenizer
        .tokenize_single(b"HWUSI-EAS566_0007:2:30:18804:9636#0|AGC")
        .unwrap();
    assert_eq!(tokenized.lane, 2);
    assert_eq!(tokenized.tile, 30);
    assert_eq!(tokenized.x_coord, 18804);
    assert_eq!(tokenized.y_coord, 9636);
    assert_eq!(tokenized.flowcell_id, 0);
    let dict = tokenizer.get_dictionary();
    let index_id = tokenized.index_id.expect("index should be present");
    let umi_id = tokenized.umi_id.expect("umi should be present");
    assert_eq!(dict.get_index(index_id), Some(b"0".as_slice()));
    assert_eq!(dict.get_umi(umi_id), Some(b"AGC".as_slice()));
}

#[test]
fn test_batch_error_carries_index_and_name() {
    let mut tokenizer = IlluminaTokenizer::new();
    let read_names = vec![b"HWI:1:FC:1:1:1:1".as_slice(), b"not-a-read-name".as_slice()];
    let err = tokenizer.tokenize_batch(&read_names).unwrap_err();
    match err {
        TokenizationError::ParseError(msg) => {
            assert!(msg.contains("1"));
            assert!(msg.contains("not-a-read-name"));
        }
        other => panic!("expected a parse error, got {:?}", other),
    }
}

#[test]
fn test_modern_bare_round_trip() {
    let mut tokenizer = IlluminaTokenizer::new();
    let read_name: &[u8] = b"INSTRUMENT:123:FLOWCELL:1:1234:5678:9012";
    let tokenized = tokenizer.tokenize_single(read_name).unwrap();
    // no optional field is present, so the renderer omits the default tail
    let rendered = tokenizer.detokenize(&tokenized).unwrap();
    assert_eq!(rendered.as_slice(), read_name);
}

#[test]
fn test_modern_full_round_trip() {
    let mut tokenizer = IlluminaTokenizer::new();
    let read_name: &[u8] = b"INSTRUMENT:123:FLOWCELL:1:1234:5678:9012:ACGT:2:N:ATCACG";
    let tokenized = tokenizer.tokenize_single(read_name).unwrap();
    let rendered = tokenizer.detokenize(&tokenized).unwrap();
    assert_eq!(rendered.as_slice(), read_name);
}

#[test]
fn test_legacy_round_trip() {
    let mut tokenizer = IlluminaTokenizer::new();
    let read_name: &[u8] = b"HWUSI-EAS566_0007:2:30:18804:9636#0|AGC";
    let tokenized = tokenizer.tokenize_single(read_name).unwrap();
    let rendered = tokenizer.detokenize(&tokenized).unwrap();
    assert_eq!(rendered.as_slice(), read_name);
}

#[test]
fn test_detokenize_unknown_instrument_fails() {
    let tokenizer = IlluminaTokenizer::new();
    let record = gbam_tools::dictionary::TokenizedReadName {
        instrument_id: 3,
        run_id: 1,
        flowcell_id: 0,
        lane: 1,
        tile: 1,
        x_coord: 1,
        y_coord: 1,
        umi_id: None,
        read_num: 1,
        flags: 0,
        index_id: None,
    };
    assert!(tokenizer.detokenize(&record).is_err());
}

#[test]
fn test_stats_counters_and_reset() {
    let mut tokenizer = IlluminaTokenizer::new();
    let names = vec![
        b"INSTRUMENT:123:FLOWCELL:1:1234:5678:9012".as_slice(),
        b"INSTRUMENT:123:FLOWCELL:1:1234:5678:9013".as_slice(),
    ];
    tokenizer.tokenize_batch(&names).unwrap();
    assert_eq!(tokenizer.total_reads_processed, 2);
    assert_eq!(tokenizer.successfully_tokenized, 2);
    tokenizer.reset_stats();
    assert_eq!(tokenizer.total_reads_processed, 0);
    assert_eq!(tokenizer.successfully_tokenized, 0);
}

#[test]
fn test_serialize_dictionary_layout() {
    let mut tokenizer = IlluminaTokenizer::new();
    tokenizer.get_dictionary_mut().add_instrument(b"AB");
    let bytes = tokenizer.serialize_dictionary();
    let expected: Vec<u8> = vec![
        1, 0, 0, 0, // one instrument
        2, 0, 0, 0, b'A', b'B', // its bytes
        1, 0, 0, 0, // the reserved flowcell slot
        0, 0, 0, 0, // of length zero
        0, 0, 0, 0, // no UMIs
        0, 0, 0, 0, // no indices
    ];
    assert_eq!(bytes, expected);
}

#[test]
fn test_clear_dictionary() {
    let mut tokenizer = IlluminaTokenizer::new();
    tokenizer.tokenize_single(b"INSTRUMENT:123:FLOWCELL:1:1234:5678:9012").unwrap();
    assert!(!tokenizer.is_empty());
    tokenizer.clear_dictionary();
    assert!(tokenizer.is_empty());
    assert_eq!(tokenizer.dictionary_size(), 1); // only the reserved flowcell slot
}
