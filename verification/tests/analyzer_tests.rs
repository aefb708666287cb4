use gbam_tools::analyzer::{ReadNameAnalyzer, ReadNamePattern};

#[test]
fn test_illumina_detection() {
    let illumina_names: Vec<Vec<u8>> = vec![
        b"HWI-ST1234:123:H0ABCADXX:1:1101:1234:5678:ACGTACGT:1:N:0:ATCACG".to_vec(),
        b"HWI-ST1234:123:H0ABCADXX:1:1101:1234:5679:ACGTACGT:2:N:0:ATCACG".to_vec(),
    ];

    let name_refs: Vec<&[u8]> = illumina_names.iter().map(|v| v.as_slice()).collect();
    let pattern = ReadNameAnalyzer::detect_pattern(&name_refs);
    assert_eq!(pattern, ReadNamePattern::Illumina);
}

#[test]
fn test_pacbio_detection() {
    let pacbio_names: Vec<Vec<u8>> = vec![
        b"movie1/12345/0_1000".to_vec(),
        b"movie1/12346/100_1100".to_vec(),
    ];

    let name_refs: Vec<&[u8]> = pacbio_names.iter().map(|v| v.as_slice()).collect();
    let pattern = ReadNameAnalyzer::detect_pattern(&name_refs);
    assert_eq!(pattern, ReadNamePattern::PacBio);
}

#[test]
fn test_should_tokenize() {
    // Too few reads
    let few_names: Vec<Vec<u8>> = vec![b"HWI-ST1234:123:H0ABCADXX:1:1101:1234:5678".to_vec()];
    let few_refs: Vec<&[u8]> = few_names.iter().map(|v| v.as_slice()).collect();
    assert!(!ReadNameAnalyzer::should_tokenize(&few_refs));

    // Enough Illumina reads
    let many_names: Vec<Vec<u8>> = (0..20)
        .map(|i| {
            format!(
                "HWI-ST1234:123:H0ABCADXX:1:1101:{}:5678:ACGTACGT:1:N:0:ATCACG",
                1000 + i
            )
            .into_bytes()
        })
        .collect();
    let many_refs: Vec<&[u8]> = many_names.iter().map(|v| v.as_slice()).collect();
    assert!(ReadNameAnalyzer::should_tokenize(&many_refs));
}

#[test]
fn test_illumina_threshold_batch_of_twenty() {
    let names: Vec<Vec<u8>> = (0..20)
        .map(|i| format!("M00001:25:FLOWCELL:1:1101:{}:{}", 1000 + i, 2000 + i).into_bytes())
        .collect();
    let refs: Vec<&[u8]> = names.iter().map(|v| v.as_slice()).collect();
    assert_eq!(ReadNameAnalyzer::detect_pattern(&refs), ReadNamePattern::Illumina);
    assert!(ReadNameAnalyzer::should_tokenize(&refs));
}

#[test]
fn test_small_batches_never_tokenize() {
    let names: Vec<Vec<u8>> = (0..9)
        .map(|i| format!("M00001:25:FLOWCELL:1:1101:{}:{}", 1000 + i, 2000 + i).into_bytes())
        .collect();
    let refs: Vec<&[u8]> = names.iter().map(|v| v.as_slice()).collect();
    assert_eq!(ReadNameAnalyzer::detect_pattern(&refs), ReadNamePattern::Illumina);
    assert!(!ReadNameAnalyzer::should_tokenize(&refs));
}

#[test]
fn test_empty_batch_is_unstructured() {
    let refs: Vec<&[u8]> = Vec::new();
    assert_eq!(ReadNameAnalyzer::detect_pattern(&refs), ReadNamePattern::Unstructured);
    assert!(!ReadNameAnalyzer::should_tokenize(&refs));
}
