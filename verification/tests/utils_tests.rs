use gbam_tools::utils::ByteUtils;

#[test]
fn test_split_bytes() {
    let input = b"hello:world:test";
    let parts = ByteUtils::split_bytes(input, b':');

    // Convert to Vec<Vec<u8>> for easier comparison
    let parts_vec: Vec<Vec<u8>> = parts.iter().map(|&slice| slice.to_vec()).collect();
    let expected = vec![b"hello".to_vec(), b"world".to_vec(), b"test".to_vec()];

    assert_eq!(parts_vec, expected);
}

#[test]
fn test_split_bytes_alternative() {
    let input = b"hello:world:test";
    let parts = ByteUtils::split_bytes(input, b':');

    // Compare each part individually
    assert_eq!(parts.len(), 3);
    assert_eq!(parts[0], b"hello");
    assert_eq!(parts[1], b"world");
    assert_eq!(parts[2], b"test");
}

#[test]
fn test_parse_functions() {
    assert_eq!(ByteUtils::parse_u8(b"123").unwrap(), 123);
    assert_eq!(ByteUtils::parse_u16(b"1234").unwrap(), 1234);
    assert_eq!(ByteUtils::parse_u32(b"12345").unwrap(), 12345);

    // Test error cases
    assert!(ByteUtils::parse_u8(b"256").is_err()); // Too large for u8
    assert!(ByteUtils::parse_u8(b"abc").is_err()); // Not a number
}

#[test]
fn test_bytes_to_string_lossy() {
    let valid_utf8 = b"hello world";
    assert_eq!(ByteUtils::bytes_to_string_lossy(valid_utf8), "hello world");

    // Test with invalid UTF-8
    let invalid_utf8 = &[0xFF, 0xFE, 0xFD];
    let result = ByteUtils::bytes_to_string_lossy(invalid_utf8);
    assert!(!result.is_empty()); // Should produce some replacement characters
}

#[test]
fn test_split_bytes_keeps_empty_segments() {
    let parts = ByteUtils::split_bytes(b"::a:", b':');
    assert_eq!(parts.len(), 4);
    assert_eq!(parts[0], b"");
    assert_eq!(parts[1], b"");
    assert_eq!(parts[2], b"a");
    assert_eq!(parts[3], b"");
}

#[test]
fn test_common_prefix_length() {
    assert_eq!(ByteUtils::common_prefix_length(b"abcd", b"abxy"), 2);
    assert_eq!(ByteUtils::common_prefix_length(b"abc", b"abc"), 3);
    assert_eq!(ByteUtils::common_prefix_length(b"", b"abc"), 0);
    assert_eq!(ByteUtils::common_prefix_length(b"xyz", b"abc"), 0);
}

#[test]
fn test_count_byte() {
    assert_eq!(ByteUtils::count_byte(b"a:b:c:d", b':'), 3);
    assert_eq!(ByteUtils::count_byte(b"", b':'), 0);
    assert_eq!(ByteUtils::count_byte(b"aaaa", b'a'), 4);
}

#[test]
fn test_bytes_to_string() {
    assert_eq!(ByteUtils::bytes_to_string(b"abc").unwrap(), "abc");
    assert!(ByteUtils::bytes_to_string(&[0xFF, 0xFE]).is_err());
}

#[test]
fn test_parse_sign_handling() {
    assert!(ByteUtils::parse_u32(b"").is_err());
    assert_eq!(ByteUtils::parse_u32(b"+1").unwrap(), 1); // str::parse accepts one leading '+'
    assert!(ByteUtils::parse_u32(b"+").is_err());
    assert!(ByteUtils::parse_u32(b"++1").is_err());
    assert!(ByteUtils::parse_u32(b"4294967295").is_ok());
    assert!(ByteUtils::parse_u32(b"4294967296").is_err());
}
