use rapid_fuzzy::serialization::{
    deserialize_items, serialize_items, FUZZY_INDEX_MAGIC, FUZZY_INDEX_WASM_MAGIC,
    KEYED_INDEX_MAGIC, SERIALIZE_VERSION,
};

fn strings(v: &[&str]) -> Vec<String> {
    v.iter().map(|s| s.to_string()).collect()
}

#[test]
fn magic_constants() {
    assert_eq!(&FUZZY_INDEX_MAGIC, b"RFZI");
    assert_eq!(&FUZZY_INDEX_WASM_MAGIC, b"RFUZ");
    assert_eq!(&KEYED_INDEX_MAGIC, b"RFKI");
    assert_eq!(SERIALIZE_VERSION, 1);
}

#[test]
fn serialize_layout() {
    let bytes = serialize_items(&strings(&["ab", "é"]), &FUZZY_INDEX_MAGIC);
    let expected: Vec<u8> = vec![
        b'R', b'F', b'Z', b'I', 1, 0, 0, 0, 2, 0, 0, 0, 2, 0, 0, 0, b'a', b'b', 2, 0, 0, 0, 0xC3,
        0xA9,
    ];
    assert_eq!(bytes, expected);
}

#[test]
fn roundtrip_keeps_items() {
    let items = strings(&["", "apple", "東京", "🎉 party"]);
    for magic in [FUZZY_INDEX_MAGIC, FUZZY_INDEX_WASM_MAGIC] {
        let bytes = serialize_items(&items, &magic);
        assert_eq!(deserialize_items(&bytes, &magic), Ok(items.clone()));
    }
    let empty: Vec<String> = vec![];
    let bytes = serialize_items(&empty, &FUZZY_INDEX_MAGIC);
    assert_eq!(bytes.len(), 12);
    assert_eq!(deserialize_items(&bytes, &FUZZY_INDEX_MAGIC), Ok(empty));
}

#[test]
fn error_too_short() {
    assert_eq!(
        deserialize_items(b"RFZI\x01\x00\x00\x00", &FUZZY_INDEX_MAGIC),
        Err("Invalid data: too short".to_string())
    );
}

#[test]
fn error_bad_magic() {
    let bytes = serialize_items(&strings(&["a"]), &FUZZY_INDEX_MAGIC);
    assert_eq!(
        deserialize_items(&bytes, &FUZZY_INDEX_WASM_MAGIC),
        Err("Invalid data: bad magic bytes".to_string())
    );
}

#[test]
fn error_bad_version() {
    assert_eq!(
        deserialize_items(b"RFZI\xFF\x00\x00\x00\x00\x00\x00\x00", &FUZZY_INDEX_MAGIC),
        Err("Unsupported format version: expected 1, got 255".to_string())
    );
    assert_eq!(
        deserialize_items(b"RFZI\x00\x01\x00\x00\x00\x00\x00\x00", &FUZZY_INDEX_MAGIC),
        Err("Unsupported format version: expected 1, got 256".to_string())
    );
}

#[test]
fn error_count_exceeds_payload() {
    assert_eq!(
        deserialize_items(b"RFZI\x01\x00\x00\x00\x02\x00\x00\x00\x00\x00\x00\x00", &FUZZY_INDEX_MAGIC),
        Err("Invalid data: item count exceeds payload size".to_string())
    );
}

#[test]
fn error_truncated_item() {
    assert_eq!(
        deserialize_items(b"RFZI\x01\x00\x00\x00\x01\x00\x00\x00\x05\x00\x00\x00ab", &FUZZY_INDEX_MAGIC),
        Err("Invalid data: truncated".to_string())
    );
    assert_eq!(
        deserialize_items(
            b"RFZI\x01\x00\x00\x00\x02\x00\x00\x00\x03\x00\x00\x00abc\x00",
            &FUZZY_INDEX_MAGIC
        ),
        Err("Invalid data: truncated".to_string())
    );
}

#[test]
fn error_invalid_utf8() {
    let r = deserialize_items(b"RFZI\x01\x00\x00\x00\x01\x00\x00\x00\x01\x00\x00\x00\xFF", &FUZZY_INDEX_MAGIC);
    let msg = r.unwrap_err();
    assert!(msg.starts_with("Invalid UTF-8: "), "{msg}");
    assert_eq!(msg, format!("Invalid UTF-8: {}", std::str::from_utf8(&[0xFF]).unwrap_err()));
}

#[test]
fn error_trailing_bytes() {
    let mut bytes = serialize_items(&strings(&["a"]), &FUZZY_INDEX_MAGIC);
    bytes.push(0);
    assert_eq!(
        deserialize_items(&bytes, &FUZZY_INDEX_MAGIC),
        Err("Invalid data: trailing bytes".to_string())
    );
}
