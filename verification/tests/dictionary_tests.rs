use gbam_tools::dictionary::ReadNameDictionary;

#[test]
fn test_dictionary_operations() {
    let mut dict = ReadNameDictionary::new();

    // Test adding and retrieving instruments
    let id1 = dict.add_instrument(b"HWI-ST1234");
    let id2 = dict.add_instrument(b"HWI-ST1234"); // Should return same ID
    let id3 = dict.add_instrument(b"NextSeq");

    assert_eq!(id1, id2);
    assert_ne!(id1, id3);
    assert_eq!(dict.get_instrument(id1), Some(b"HWI-ST1234".as_slice()));
    assert_eq!(dict.get_instrument(id3), Some(b"NextSeq".as_slice()));
}

#[test]
fn test_dictionary_size_calculation() {
    let mut dict = ReadNameDictionary::new();
    dict.add_instrument(b"HWI-ST1234"); // 10 bytes
    dict.add_flowcell(b"H0ABCADXX"); // 9 bytes

    assert_eq!(dict.total_size(), 19);
}

#[test]
fn test_dictionary_add_idempotent() {
    let mut dict = ReadNameDictionary::new();
    let id1 = dict.add_umi(b"ACGT");
    let len_after_first = dict.entry_counts().2;
    let id2 = dict.add_umi(b"ACGT");
    let len_after_second = dict.entry_counts().2;

    assert_eq!(id1, id2);
    assert_eq!(len_after_first, len_after_second);
}

#[test]
fn test_dictionary_add_then_get() {
    let mut dict = ReadNameDictionary::new();
    let id = dict.add_index(b"ATCACG");
    assert_eq!(dict.get_index(id), Some(b"ATCACG".as_slice()));
    let uid = dict.add_umi(b"GGTTAA");
    assert_eq!(dict.get_umi(uid), Some(b"GGTTAA".as_slice()));
}

#[test]
fn test_flowcell_slot_zero_is_reserved() {
    let mut dict = ReadNameDictionary::new();
    // the reserved empty entry sits at slot 0, so a real flowcell never
    // lands on the legacy marker
    assert_eq!(dict.get_flowcell(0), Some(b"".as_slice()));
    let id = dict.add_flowcell(b"FLOWCELL");
    assert_ne!(id, 0);
    assert_eq!(dict.get_flowcell(id), Some(b"FLOWCELL".as_slice()));
}

#[test]
fn test_get_out_of_range_is_none() {
    let dict = ReadNameDictionary::new();
    assert_eq!(dict.get_instrument(0), None);
    assert_eq!(dict.get_umi(7), None);
    assert_eq!(dict.get_index(200), None);
}

#[test]
fn test_u8_table_saturates_at_sink() {
    let mut dict = ReadNameDictionary::new();
    for i in 0..255u32 {
        let id = dict.add_instrument(format!("I{}", i).as_bytes());
        assert_eq!(id as u32, i);
    }
    // the table is full: a fresh entry collapses to the sink without growing
    let sink = dict.add_instrument(b"OVERFLOW");
    assert_eq!(sink, 254);
    assert_eq!(dict.entry_counts().0, 255);
    // an existing entry still resolves to its own slot
    assert_eq!(dict.add_instrument(b"I7"), 7);
}
