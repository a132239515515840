use rapid_fuzzy::keyed::{keyed_scores, keyed_search_start, KeyColumns, KeyedStart};
use rapid_fuzzy::keyed_format::{deserialize_keyed, serialize_keyed};
use rapid_fuzzy::search::{query_max_score, CaseMode};
use rapid_fuzzy::serialization::KEYED_INDEX_MAGIC;

fn strings(v: &[&str]) -> Vec<String> {
    v.iter().map(|s| s.to_string()).collect()
}

fn make_columns() -> KeyColumns {
    KeyColumns::new(
        vec![
            strings(&["John Smith", "Jane Doe", "Bob Johnson"]),
            strings(&["john@example.com", "jane@example.com", "bob@example.com"]),
        ],
        2,
    )
    .unwrap()
}

#[test]
fn test_size() {
    let index = make_columns();
    assert_eq!(index.size(), 3);
}

#[test]
fn test_add_wrong_key_count() {
    let mut index = make_columns();
    let result = index.add(strings(&["only_one"]));
    assert_eq!(result, Err("Expected 2 key values, got 1".to_string()));
    assert_eq!(index.size(), 3);
    let result = index.add(strings(&["a", "b", "c"]));
    assert_eq!(result, Err("Expected 2 key values, got 3".to_string()));
    assert_eq!(index.size(), 3);
}

#[test]
fn test_add_many_validates_key_count() {
    let mut index = make_columns();
    index.add(strings(&["Alice", "alice@example.com"])).unwrap();
    assert_eq!(index.size(), 4);
    let result = index.add(strings(&["Bad"]));
    assert!(result.is_err());
    assert_eq!(index.size(), 4);
    assert_eq!(index.key_texts()[0][3], "Alice");
    assert_eq!(index.key_texts()[1][3], "alice@example.com");
}

#[test]
fn keyed_index_test_remove() {
    let mut index = make_columns();
    assert!(index.remove(1));
    assert_eq!(index.size(), 2);
    assert!(!index.remove(10));
    assert_eq!(index.key_texts()[0], strings(&["John Smith", "Bob Johnson"]));
    assert_eq!(index.key_texts()[1], strings(&["john@example.com", "bob@example.com"]));
}

#[test]
fn keyed_index_test_destroy() {
    let mut index = make_columns();
    index.destroy();
    assert_eq!(index.size(), 0);
    assert!(index.key_texts().is_empty());
}

#[test]
fn test_mismatched_weights_rejected() {
    let result = KeyColumns::new(vec![strings(&["a"]), strings(&["b"])], 1);
    assert_eq!(result.err(), Some("Expected 2 weights, got 1".to_string()));
    let result = KeyColumns::new(vec![strings(&["a"])], 2);
    assert_eq!(result.err(), Some("Expected 1 weights, got 2".to_string()));
}

#[test]
fn test_mismatched_key_texts_lengths_rejected() {
    let result = KeyColumns::new(vec![strings(&["a", "b"]), strings(&["c"])], 2);
    assert_eq!(
        result.err(),
        Some("All key_texts columns must have the same length; key 0 has 2, key 1 has 1".to_string())
    );
}

#[test]
fn test_deserialize_fails_on_bad_magic() {
    let mut buf = b"XXXX".to_vec();
    buf.extend_from_slice(&1u32.to_le_bytes());
    buf.extend_from_slice(&0u32.to_le_bytes());
    buf.extend_from_slice(&0u32.to_le_bytes());
    let result = deserialize_keyed(&buf, &KEYED_INDEX_MAGIC);
    assert!(result.is_err());
    assert!(result.err().unwrap().contains("bad magic bytes"));
}

#[test]
fn test_serialize_deserialize_roundtrip() {
    let index = make_columns();
    let weights = [2.0f64, 1.0];
    let bits: Vec<u64> = weights.iter().map(|w| w.to_bits()).collect();
    let buf = serialize_keyed(index.key_texts(), &bits, &KEYED_INDEX_MAGIC);
    let (texts, back) = deserialize_keyed(&buf, &KEYED_INDEX_MAGIC).unwrap();
    assert_eq!(texts.as_slice(), index.key_texts());
    let restored: Vec<f64> = back.iter().map(|b| f64::from_bits(*b)).collect();
    assert_eq!(restored, weights.to_vec());
    let mut a = make_columns();
    let mut b = KeyColumns::new(texts, 2).unwrap();
    assert_eq!(b.size(), a.size());
    let sa = a.scores("john", CaseMode::Smart, &[true, true]);
    let sb = b.scores("john", CaseMode::Smart, &[true, true]);
    assert_eq!(sa.scores, sb.scores);
}

#[test]
fn test_char_mask_prefilter() {
    let mut index = KeyColumns::new(vec![strings(&["hello", "world", "xyz"])], 1).unwrap();
    let s = index.scores("hello", CaseMode::Smart, &[true]);
    assert!(s.scores[0][0].is_some());
    assert_eq!(s.scores[0][2], None);
}

#[test]
fn test_zero_weight_key_skipped() {
    let mut index = KeyColumns::new(
        vec![strings(&["Alice", "Bob"]), strings(&["zzzzz", "zzzzz"])],
        2,
    )
    .unwrap();
    let s = index.scores("Alice", CaseMode::Smart, &[true, false]);
    assert!(s.scores[0][0].is_some());
    assert_eq!(s.scores[1], vec![None, None]);
}

// ─── Further cases ──────────────────────────────────────────────────────────

#[test]
fn keyed_scores_cover_every_text() {
    let cols = vec![strings(&["apple", "banana"]), strings(&["xyz", "apple pie"])];
    let s = keyed_scores("apple", &cols, CaseMode::Smart);
    assert_eq!(s.max, query_max_score("apple", CaseMode::Smart));
    assert_eq!(s.scores.len(), 2);
    assert_eq!(s.scores[0][0], Some(s.max));
    assert_eq!(s.scores[0][1], None);
    assert_eq!(s.scores[1][0], None);
    assert!(s.scores[1][1].is_some());
}

#[test]
fn keyed_serialize_layout_and_errors() {
    let cols = vec![strings(&["a"])];
    let buf = serialize_keyed(&cols, &[1.5f64.to_bits()], &KEYED_INDEX_MAGIC);
    let mut expected = b"RFKI".to_vec();
    expected.extend_from_slice(&1u32.to_le_bytes());
    expected.extend_from_slice(&1u32.to_le_bytes());
    expected.extend_from_slice(&1u32.to_le_bytes());
    expected.extend_from_slice(&1.5f64.to_le_bytes());
    expected.extend_from_slice(&1u32.to_le_bytes());
    expected.push(b'a');
    assert_eq!(buf, expected);

    assert_eq!(deserialize_keyed(&buf[..10], &KEYED_INDEX_MAGIC).err(), Some("Invalid data: too short".to_string()));
    assert_eq!(
        deserialize_keyed(&buf[..20], &KEYED_INDEX_MAGIC).err(),
        Some("Invalid data: truncated weights".to_string())
    );
    assert_eq!(
        deserialize_keyed(&buf[..buf.len() - 1], &KEYED_INDEX_MAGIC).err(),
        Some("Invalid data: truncated".to_string())
    );
    let mut longer = buf.clone();
    longer.push(0);
    assert_eq!(
        deserialize_keyed(&longer, &KEYED_INDEX_MAGIC).err(),
        Some("Invalid data: trailing bytes".to_string())
    );
    let mut bad_version = buf.clone();
    bad_version[4] = 2;
    assert_eq!(
        deserialize_keyed(&bad_version, &KEYED_INDEX_MAGIC).err(),
        Some("Unsupported format version: expected 1, got 2".to_string())
    );
}

#[test]
fn empty_keyed_roundtrip() {
    let cols: Vec<Vec<String>> = vec![];
    let buf = serialize_keyed(&cols, &[], &KEYED_INDEX_MAGIC);
    assert_eq!(buf.len(), 16);
    assert_eq!(deserialize_keyed(&buf, &KEYED_INDEX_MAGIC), Ok((vec![], vec![])));
}

#[test]
fn blank_query_scores_no_key() {
    let key_texts = vec![strings(&["John Smith", " "]), strings(&["john@example.com", "x"])];
    let r = keyed_scores("  ", &key_texts, CaseMode::Smart);
    assert!(r.scores.iter().all(|col| col.iter().all(|s| s.is_none())));
    let mut index = make_columns();
    let r = index.scores(" \t", CaseMode::Smart, &[true, true]);
    assert_eq!(r.scores.len(), 2);
    assert!(r.scores.iter().all(|col| col.len() == 3 && col.iter().all(|s| s.is_none())));
    let r = index.scores("", CaseMode::Smart, &[true, true]);
    assert!(r.scores.iter().all(|col| col.iter().all(|s| s.is_none())));
}

#[test]
fn keyed_prefilter_keeps_accented_texts() {
    let mut index = KeyColumns::new(vec![strings(&["Café Nero", "Bob"])], 1).unwrap();
    let r = index.scores("cafe", CaseMode::Smart, &[true]);
    assert!(r.scores[0][0].is_some());
    assert!(r.scores[0][1].is_none());
}

#[test]
fn keyed_search_start_cases() {
    let cols = vec![strings(&["a", "b"]), strings(&["c", "d"])];
    assert_eq!(keyed_search_start("x", &[], 0, false), KeyedStart::NoResults);
    assert_eq!(keyed_search_start("x", &cols, 1, false), KeyedStart::NoResults);
    assert_eq!(keyed_search_start("x", &[vec![], vec![]], 2, true), KeyedStart::NoResults);
    assert_eq!(keyed_search_start("x", &[strings(&["a"]), strings(&["c", "d"])], 2, false), KeyedStart::NoResults);
    assert_eq!(keyed_search_start(" ", &cols, 2, true), KeyedStart::AllItems);
    assert_eq!(keyed_search_start("", &cols, 2, true), KeyedStart::AllItems);
    assert_eq!(keyed_search_start(" \t", &cols, 2, false), KeyedStart::NoResults);
    assert_eq!(keyed_search_start("a", &cols, 2, true), KeyedStart::Score);
}
