use dr2::pak::{index_mut, prepare_path, replace_data, Entry, Header, Pak};
use dr2::Error;

#[test]
fn encode_two_entries() {
    let pak = Pak {
        entries: vec![Entry::RawData(b"ab".to_vec()), Entry::RawData(b"cdef".to_vec())],
    };
    let bytes = pak.repack().unwrap();
    let mut expected = Vec::new();
    expected.extend_from_slice(&2u32.to_le_bytes());
    expected.extend_from_slice(&12u32.to_le_bytes());
    expected.extend_from_slice(&14u32.to_le_bytes());
    expected.extend_from_slice(b"abcdef");
    assert_eq!(bytes, expected);
    assert_eq!(bytes.len(), 18);
}

#[test]
fn decode_after_encode_restores_entries() {
    let pak = Pak {
        entries: vec![
            Entry::RawData(b"ab".to_vec()),
            Entry::Utf8String("hi".to_string()),
            Entry::RawData(b"cdef".to_vec()),
        ],
    };
    let bytes = pak.repack().unwrap();
    let back = Pak::decode(&bytes).unwrap();
    assert_eq!(back.entries.len(), 3);
    // every entry comes back raw, normalized to its wire bytes
    match &back.entries[0] {
        Entry::RawData(v) => assert_eq!(v, &b"ab".to_vec()),
        _ => panic!("expected raw bytes"),
    }
    match &back.entries[1] {
        Entry::RawData(v) => assert_eq!(v, &b"hi\0".to_vec()),
        _ => panic!("expected raw bytes"),
    }
    match &back.entries[2] {
        Entry::RawData(v) => assert_eq!(v, &b"cdef".to_vec()),
        _ => panic!("expected raw bytes"),
    }
}

#[test]
fn nested_encode_round_trips() {
    let inner = Pak { entries: vec![Entry::RawData(b"x".to_vec())] };
    let inner_bytes = inner.repack().unwrap();
    let pak = Pak {
        entries: vec![
            Entry::NestedContainer(Box::new(Pak {
                entries: vec![Entry::RawData(b"x".to_vec())],
            })),
        ],
    };
    let bytes = pak.repack().unwrap();
    let back = Pak::decode(&bytes).unwrap();
    match &back.entries[0] {
        Entry::RawData(v) => assert_eq!(v, &inner_bytes),
        _ => panic!("expected raw bytes"),
    }
}

#[test]
fn decode_rejects_non_ascending_table() {
    // count=2, offsets [13, 12]: not ascending
    let mut data = Vec::new();
    data.extend_from_slice(&2u32.to_le_bytes());
    data.extend_from_slice(&13u32.to_le_bytes());
    data.extend_from_slice(&12u32.to_le_bytes());
    data.extend_from_slice(b"abcdef");
    assert!(matches!(Pak::decode(&data), Err(Error::InvalidOffsetTable)));
}

#[test]
fn decode_rejects_wrong_first_offset() {
    // count=2 so the table is 12 bytes, but the first offset says 13
    let mut data = Vec::new();
    data.extend_from_slice(&2u32.to_le_bytes());
    data.extend_from_slice(&13u32.to_le_bytes());
    data.extend_from_slice(&14u32.to_le_bytes());
    data.extend_from_slice(b"abcdef");
    assert!(matches!(Pak::decode(&data), Err(Error::InvalidOffsetTable)));
    assert!(matches!(Pak::from_bytes(&data), Err(Error::InvalidOffsetTable)));
}

#[test]
fn decode_rejects_offset_past_end() {
    let mut data = Vec::new();
    data.extend_from_slice(&1u32.to_le_bytes());
    data.extend_from_slice(&99u32.to_le_bytes());
    assert!(matches!(Pak::decode(&data), Err(Error::InvalidOffsetTable)));
}

#[test]
fn decode_rejects_truncated_table() {
    let mut data = Vec::new();
    data.extend_from_slice(&9u32.to_le_bytes());
    data.extend_from_slice(&12u32.to_le_bytes());
    assert!(matches!(Pak::decode(&data), Err(Error::UnexpectedEnd)));
    assert!(matches!(Pak::decode(&data[..2]), Err(Error::UnexpectedEnd)));
}

#[test]
fn header_reads_offset_table() {
    let mut data = Vec::new();
    data.extend_from_slice(&2u32.to_le_bytes());
    data.extend_from_slice(&12u32.to_le_bytes());
    data.extend_from_slice(&14u32.to_le_bytes());
    data.extend_from_slice(b"abcdef");
    let header = Header::read_from(&data).unwrap();
    assert_eq!(header.offsets, vec![12, 14]);
}

#[test]
fn nested_indexing_promotes_and_reaches() {
    // entry 0 of the outer container holds a validly encoded sub-container
    let inner = Pak {
        entries: vec![Entry::RawData(b"ab".to_vec()), Entry::RawData(b"cd".to_vec())],
    };
    let inner_bytes = inner.repack().unwrap();
    let outer = Pak {
        entries: vec![Entry::RawData(inner_bytes), Entry::RawData(b"tail".to_vec())],
    };
    let outer_bytes = outer.repack().unwrap();
    let mut pak = Pak::decode(&outer_bytes).unwrap();

    prepare_path(&mut pak, &[0, 1]).unwrap();
    let slot = index_mut(&mut pak, &[0, 1]);
    match slot {
        Entry::RawData(v) => assert_eq!(v, &b"cd".to_vec()),
        _ => panic!("expected raw bytes"),
    }
    // entry 0 is now visibly a decoded sub-container
    assert!(matches!(pak.entries[0], Entry::NestedContainer(_)));

    // the reached slot can be replaced directly
    replace_data(&mut pak, &[0, 1], b"zz".to_vec()).unwrap();
    match &pak.entries[0] {
        Entry::NestedContainer(sub) => match &sub.entries[1] {
            Entry::RawData(v) => assert_eq!(v, &b"zz".to_vec()),
            _ => panic!("expected raw bytes"),
        },
        _ => panic!("expected sub-container"),
    }
}

#[test]
fn indexing_errors() {
    let pak0 = Pak { entries: vec![Entry::RawData(b"just bytes".to_vec())] };
    let bytes = pak0.repack().unwrap();
    let mut pak = Pak::decode(&bytes).unwrap();
    assert!(matches!(prepare_path(&mut pak, &[3]), Err(Error::IndexOutOfRange)));
    assert!(matches!(prepare_path(&mut pak, &[]), Err(Error::InvalidIndices)));
    // entry 0 does not decode as a sub-container
    assert!(matches!(prepare_path(&mut pak, &[0, 0]), Err(Error::InvalidIndices)));
}

#[test]
fn utf8_promotion_caches() {
    let mut e = Entry::RawData(b"hi\0junk".to_vec());
    assert_eq!(e.as_utf8(), Some("hi".to_string()));
    assert!(matches!(e, Entry::Utf8String(_)));
    // promotion is idempotent
    assert_eq!(e.as_utf8(), Some("hi".to_string()));

    let mut bad = Entry::RawData(b"\xff\xff\0".to_vec());
    assert_eq!(bad.as_utf8(), None);
    assert!(matches!(bad, Entry::RawData(_)));

    let mut unterminated = Entry::RawData(b"hi".to_vec());
    assert_eq!(unterminated.as_utf8(), None);
}

#[test]
fn utf16_promotion_caches() {
    let mut e = Entry::RawData(vec![0xff, 0xfe, 0x68, 0x00, 0x69, 0x00, 0x00, 0x00]);
    assert_eq!(e.as_utf16(), Some("hi".to_string()));
    assert!(matches!(e, Entry::Utf16String(_)));

    let mut no_bom = Entry::RawData(vec![0x68, 0x00, 0x00, 0x00]);
    assert_eq!(no_bom.as_utf16(), None);

    let mut no_nul = Entry::RawData(vec![0xff, 0xfe, 0x68, 0x00]);
    assert_eq!(no_nul.as_utf16(), None);
}

#[test]
fn utf16_entry_encodes_wire_form() {
    let pak = Pak { entries: vec![Entry::Utf16String("hi".to_string())] };
    let bytes = pak.repack().unwrap();
    let mut expected = Vec::new();
    expected.extend_from_slice(&1u32.to_le_bytes());
    expected.extend_from_slice(&8u32.to_le_bytes());
    expected.extend_from_slice(&[0xff, 0xfe, 0x68, 0x00, 0x69, 0x00, 0x00, 0x00]);
    assert_eq!(bytes, expected);
}

#[test]
fn replace_discards_interpretation() {
    let mut e = Entry::Utf8String("old".to_string());
    e.replace(Entry::RawData(b"new".to_vec()));
    match e {
        Entry::RawData(v) => assert_eq!(v, b"new".to_vec()),
        _ => panic!("expected raw bytes"),
    }
}
