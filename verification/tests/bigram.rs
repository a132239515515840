use rapid_fuzzy::bigram::BigramIndex;
use rapid_fuzzy::sorted::intersect_sorted;
use rapid_fuzzy::text::{
    bigram_key, char_bucket, compute_char_mask, compute_query_mask, extract_bigrams,
    extract_query_bigrams,
};

fn strings(v: &[&str]) -> Vec<String> {
    v.iter().map(|s| s.to_string()).collect()
}

#[test]
fn test_bigram_key_ascii_case_folding() {
    assert_eq!(bigram_key('a', 'b'), bigram_key('A', 'B'));
    assert_eq!(bigram_key('a', 'b'), bigram_key('A', 'b'));
    assert_eq!(bigram_key('Z', 'a'), bigram_key('z', 'A'));
}

#[test]
fn test_bigram_key_digits() {
    assert_ne!(bigram_key('a', '0'), bigram_key('a', 'b'));
    assert_eq!(bigram_key('0', '1'), bigram_key('0', '1'));
}

#[test]
fn test_extract_bigrams_basic() {
    let bg = extract_bigrams("abc");
    assert_eq!(bg.len(), 2);
}

#[test]
fn test_extract_bigrams_case_insensitive() {
    let lower = extract_bigrams("abc");
    let upper = extract_bigrams("ABC");
    assert_eq!(lower, upper);
}

#[test]
fn test_extract_bigrams_single_char() {
    assert!(extract_bigrams("a").is_empty());
}

#[test]
fn test_extract_bigrams_empty() {
    assert!(extract_bigrams("").is_empty());
}

#[test]
fn test_extract_bigrams_unicode() {
    let bg = extract_bigrams("東京都");
    assert_eq!(bg.len(), 2);
}

#[test]
fn test_extract_query_bigrams_skips_inverted() {
    let bg = extract_query_bigrams("hello !world");
    let plain = extract_bigrams("hello");
    assert_eq!(bg, plain);
}

#[test]
fn test_extract_query_bigrams_strips_syntax() {
    let bg = extract_query_bigrams("^hello$");
    let plain = extract_bigrams("hello");
    assert_eq!(bg, plain);
}

#[test]
fn test_extract_query_bigrams_single_char_terms() {
    let bg = extract_query_bigrams("a b");
    assert!(bg.is_empty());
}

#[test]
fn test_intersect_sorted_basic() {
    let result = intersect_sorted(&[1, 3, 5, 7], &[2, 3, 5, 8]);
    assert_eq!(result, vec![3, 5]);
}

#[test]
fn test_intersect_sorted_no_overlap() {
    let result = intersect_sorted(&[1, 3], &[2, 4]);
    assert!(result.is_empty());
}

#[test]
fn test_intersect_sorted_empty() {
    let result = intersect_sorted(&[], &[1, 2]);
    assert!(result.is_empty());
}

#[test]
fn test_bigram_index_basic() {
    let items = strings(&["hello", "world", "help"]);
    let idx = BigramIndex::new(&items);
    let bg = extract_query_bigrams("he");
    let candidates = idx.candidates(&bg);
    assert!(candidates.is_some());
    let cands = candidates.unwrap();
    assert!(cands.contains(&0));
    assert!(cands.contains(&2));
    assert!(!cands.contains(&1));
}

#[test]
fn test_bigram_index_no_match() {
    let items = strings(&["hello", "world"]);
    let idx = BigramIndex::new(&items);
    let bg = extract_query_bigrams("zz");
    let candidates = idx.candidates(&bg);
    assert_eq!(candidates, Some(vec![]));
}

#[test]
fn test_bigram_index_add_item() {
    let mut idx = BigramIndex::new(&[]);
    idx.add_item(0, "hello");
    idx.add_item(1, "help");
    idx.add_item(2, "world");
    idx.add_item(3, "rust");
    idx.add_item(4, "code");
    let bg = extract_query_bigrams("he");
    let candidates = idx.candidates(&bg);
    assert!(candidates.is_some());
    let cands = candidates.unwrap();
    assert!(cands.contains(&0));
    assert!(cands.contains(&1));
    assert!(!cands.contains(&2));
}

#[test]
fn test_bigram_index_remove_and_swap() {
    let items = strings(&["abc", "def", "abx"]);
    let mut idx = BigramIndex::new(&items);
    idx.remove_item(0, 2, "abc", Some("abx"));
    let bg = extract_query_bigrams("ab");
    let candidates = idx.candidates(&bg);
    assert!(candidates.is_some());
    let cands = candidates.unwrap();
    assert!(cands.contains(&0));
    assert!(!cands.contains(&2));
}

#[test]
fn test_bigram_index_empty_query() {
    let items = strings(&["hello"]);
    let idx = BigramIndex::new(&items);
    assert_eq!(idx.candidates(&[]), None);
}

// ─── Further cases ──────────────────────────────────────────────────────────

#[test]
fn char_mask_sets_letter_and_digit_bits() {
    assert_eq!(compute_char_mask(""), 0);
    assert_eq!(compute_char_mask("aA"), 1);
    assert_eq!(compute_char_mask("b0"), (1 << 1) | (1 << 26));
    assert_eq!(compute_char_mask("9z"), (1 << 35) | (1 << 25));
    assert_eq!(compute_char_mask("東 -"), 0);
    assert_eq!(compute_char_mask("é東 -"), 1 << 4);
}

#[test]
fn query_mask_skips_inverted_terms_and_syntax() {
    assert_eq!(compute_query_mask("a !b"), 1);
    assert_eq!(compute_query_mask("^a$ 'c"), 1 | (1 << 2));
    assert_eq!(compute_query_mask("!x"), 0);
}

#[test]
fn char_bucket_values() {
    assert_eq!(char_bucket('a'), 0);
    assert_eq!(char_bucket('Z'), 25);
    assert_eq!(char_bucket('5'), 31);
    assert_eq!(char_bucket('東'), (36 + ('東' as u32 % 220)) as u8);
    assert_eq!(bigram_key('a', 'b'), 1);
    assert_eq!(bigram_key('b', 'a'), 256);
}

#[test]
fn extract_bigrams_sorted_and_deduplicated() {
    let bg = extract_bigrams("abab");
    assert_eq!(bg, vec![bigram_key('a', 'b'), bigram_key('b', 'a')]);
}

#[test]
fn candidates_skip_when_most_items_match() {
    let items = strings(&["hello", "help", "hero", "world"]);
    let idx = BigramIndex::new(&items);
    // "he" is in 3 of 4 items: 75% is not above 80%.
    assert_eq!(idx.candidates(&extract_query_bigrams("he")), Some(vec![0, 1, 2]));
    let items = strings(&["hello", "help", "hero", "hex", "world"]);
    let idx = BigramIndex::new(&items);
    // 4 of 5 is 80%: still kept.
    assert_eq!(idx.candidates(&extract_query_bigrams("he")), Some(vec![0, 1, 2, 3]));
    let items = strings(&["hello", "help"]);
    let idx = BigramIndex::new(&items);
    assert_eq!(idx.candidates(&extract_query_bigrams("he")), None);
}

#[test]
fn clear_empties_the_index() {
    let items = strings(&["hello"]);
    let mut idx = BigramIndex::new(&items);
    idx.clear();
    assert_eq!(idx.candidates(&extract_query_bigrams("he")), None);
}

#[test]
fn prefilter_folds_diacritics() {
    assert_eq!(compute_char_mask("é"), compute_char_mask("e"));
    assert_eq!(compute_char_mask("É"), compute_char_mask("e"));
    assert_eq!(compute_char_mask("café"), compute_char_mask("cafe"));
    assert_eq!(compute_char_mask("über"), compute_char_mask("uber"));
    assert_eq!(compute_query_mask("naïve"), compute_char_mask("naive"));
    assert_eq!(bigram_key('é', 'x'), bigram_key('e', 'x'));
    assert_eq!(char_bucket('Ü'), char_bucket('u'));
    assert_eq!(extract_bigrams("café"), extract_bigrams("cafe"));
    assert_eq!(extract_query_bigrams("naïve"), extract_bigrams("naive"));
}

#[test]
fn prefilter_ignores_unfoldable_characters() {
    assert_eq!(compute_char_mask("東京"), 0);
    assert_eq!(compute_char_mask("a東"), compute_char_mask("a"));
    assert_eq!(compute_char_mask("z9"), (1u64 << 25) | (1u64 << 35));
}

#[test]
fn prefilter_folds_case_beyond_ascii() {
    assert_eq!(char_bucket('Ω'), char_bucket('ω'));
    assert_eq!(bigram_key('Σ', 'Α'), bigram_key('σ', 'α'));
    assert_eq!(extract_bigrams("ΑΒΓ"), extract_bigrams("αβγ"));
    assert_ne!(char_bucket('ω'), char_bucket('α'));
}
