use rapid_fuzzy::ranking::{classify_match, MatchType};
use rapid_fuzzy::search::{query_max_score, resolve_case_matching, search_over_items, CaseMode};

struct Found {
    item: String,
    score: f64,
    index: u32,
    positions: Vec<u32>,
    match_type: Option<MatchType>,
}

fn score_of(key: u32, max: u32) -> f64 {
    (key as f64 / max as f64).min(1.0)
}

/// The smallest clamped score whose normalized score reaches `min_score`.
fn min_key_for(min_score: Option<f64>, max: u32) -> u64 {
    let t = min_score.unwrap_or(0.0);
    let (mut lo, mut hi) = (0u64, max as u64 + 1);
    while lo < hi {
        let mid = (lo + hi) / 2;
        if score_of(mid as u32, max) >= t {
            hi = mid;
        } else {
            lo = mid + 1;
        }
    }
    lo
}

fn search_impl(
    query: String,
    items: Vec<String>,
    max_results: Option<u32>,
    min_score: Option<f64>,
    include_positions: bool,
    case: CaseMode,
) -> Vec<Found> {
    let max = query_max_score(&query, case);
    let min_key = min_key_for(min_score, max);
    search_over_items(&query, &items, max_results, min_key, include_positions, case)
        .into_iter()
        .map(|h| Found {
            item: h.item,
            score: score_of(h.key, max),
            index: h.index,
            positions: h.positions,
            match_type: h.match_type,
        })
        .collect()
}

fn closest(query: String, items: Vec<String>, min_score: Option<f64>) -> Option<String> {
    let results = search_impl(query, items, Some(1), min_score, false, CaseMode::Smart);
    results.into_iter().next().map(|r| r.item)
}

fn strings(v: &[&str]) -> Vec<String> {
    v.iter().map(|s| s.to_string()).collect()
}

#[test]
fn mod_test_search_basic() {
    let items = strings(&["TypeScript", "JavaScript", "Python", "TypeSpec"]);
    let results = search_impl("typscript".to_string(), items, None, None, false, CaseMode::Smart);
    assert!(!results.is_empty());
    assert_eq!(results[0].item, "TypeScript");
}

#[test]
fn test_search_empty_query() {
    let items = strings(&["foo"]);
    let results = search_impl("".to_string(), items, None, None, false, CaseMode::Smart);
    assert!(results.is_empty());
}

#[test]
fn mod_test_closest() {
    let items = strings(&["apple", "application", "banana"]);
    let result = closest("app".to_string(), items, None);
    assert!(result.is_some());
}

#[test]
fn test_scores_normalized_range() {
    let items = strings(&["apple", "application", "banana", "grape"]);
    let results = search_impl("apple".to_string(), items, None, None, false, CaseMode::Smart);
    for r in &results {
        assert!(r.score >= 0.0 && r.score <= 1.0, "score {} for '{}'", r.score, r.item);
    }
}

#[test]
fn test_exact_match_scores_one() {
    let items = strings(&["hello", "world"]);
    let results = search_impl("hello".to_string(), items, None, None, false, CaseMode::Smart);
    let exact = results.iter().find(|r| r.item == "hello").unwrap();
    assert!((exact.score - 1.0).abs() < f64::EPSILON);
}

#[test]
fn test_partial_match_scores_below_one() {
    let items = strings(&["TypeScript", "JavaScript"]);
    let results = search_impl("type".to_string(), items, None, None, false, CaseMode::Smart);
    for r in &results {
        assert!(r.score > 0.0 && r.score <= 1.0);
    }
}

#[test]
fn test_min_score_filters_low_quality() {
    let items = strings(&["apple", "application", "xyz"]);
    let all_results =
        search_impl("apple".to_string(), items.clone(), None, None, false, CaseMode::Smart);
    let filtered = search_impl("apple".to_string(), items, None, Some(0.5), false, CaseMode::Smart);
    assert!(filtered.len() <= all_results.len());
    for r in &filtered {
        assert!(r.score >= 0.5);
    }
}

#[test]
fn test_min_score_one_returns_only_exact() {
    let items = strings(&["hello", "help", "world"]);
    let results = search_impl("hello".to_string(), items, None, Some(1.0), false, CaseMode::Smart);
    assert_eq!(results.len(), 1);
    assert_eq!(results[0].item, "hello");
}

#[test]
fn test_min_score_zero_same_as_none() {
    let items = strings(&["apple", "banana", "grape"]);
    let no_threshold =
        search_impl("ap".to_string(), items.clone(), None, None, false, CaseMode::Smart);
    let zero_threshold = search_impl("ap".to_string(), items, None, Some(0.0), false, CaseMode::Smart);
    assert_eq!(no_threshold.len(), zero_threshold.len());
}

#[test]
fn test_min_score_with_max_results() {
    let items = strings(&["apple", "application", "appetizer", "xyz"]);
    let results = search_impl("apple".to_string(), items, Some(2), Some(0.3), false, CaseMode::Smart);
    assert!(results.len() <= 2);
    for r in &results {
        assert!(r.score >= 0.3);
    }
}

#[test]
fn mod_test_closest_with_min_score() {
    let items = strings(&["xyz", "abc"]);
    let result = closest("hello".to_string(), items, Some(0.99));
    assert!(result.is_none());
}

#[test]
fn test_case_sensitive_excludes_different_case() {
    let items = strings(&["Apple", "apple", "APPLE"]);
    let results = search_impl("apple".to_string(), items, None, Some(1.0), false, CaseMode::Respect);
    assert_eq!(results.len(), 1);
    assert_eq!(results[0].item, "apple");
}

#[test]
fn test_case_sensitive_uppercase_query() {
    let items = strings(&["Apple", "apple", "APPLE"]);
    let results = search_impl("APPLE".to_string(), items, None, Some(1.0), false, CaseMode::Respect);
    assert_eq!(results.len(), 1);
    assert_eq!(results[0].item, "APPLE");
}

#[test]
fn test_smart_case_lowercase_query_matches_any_case() {
    let items = strings(&["Apple", "apple", "APPLE"]);
    let results = search_impl("apple".to_string(), items, None, Some(1.0), false, CaseMode::Smart);
    assert_eq!(results.len(), 3);
}

#[test]
fn test_smart_case_uppercase_query_is_case_sensitive() {
    let items = strings(&["Apple", "apple", "APPLE"]);
    let results = search_impl("Apple".to_string(), items, None, Some(1.0), false, CaseMode::Smart);
    assert_eq!(results.len(), 1);
    assert_eq!(results[0].item, "Apple");
}

#[test]
fn test_closest_without_min_score() {
    let items = strings(&["apple", "banana"]);
    let result = closest("app".to_string(), items, None);
    assert!(result.is_some());
}

#[test]
fn test_positions_returned_when_requested() {
    let items = strings(&["hello world"]);
    let results = search_impl("hlo".to_string(), items, None, None, true, CaseMode::Smart);
    assert!(!results.is_empty());
    assert!(!results[0].positions.is_empty());
}

#[test]
fn test_positions_empty_when_not_requested() {
    let items = strings(&["hello world"]);
    let results = search_impl("hlo".to_string(), items, None, None, false, CaseMode::Smart);
    assert!(!results.is_empty());
    assert!(results[0].positions.is_empty());
}

#[test]
fn test_positions_are_sorted() {
    let items = strings(&["hello world"]);
    let results = search_impl("hlo".to_string(), items, None, None, true, CaseMode::Smart);
    assert!(!results.is_empty());
    for window in results[0].positions.windows(2) {
        assert!(window[0] <= window[1]);
    }
}

#[test]
fn test_positions_within_bounds() {
    let items = strings(&["hello"]);
    let results = search_impl("hlo".to_string(), items, None, None, true, CaseMode::Smart);
    assert!(!results.is_empty());
    let item_len = results[0].item.chars().count() as u32;
    for &pos in &results[0].positions {
        assert!(pos < item_len);
    }
}

#[test]
fn test_exact_match_positions() {
    let items = strings(&["hello"]);
    let results = search_impl("hello".to_string(), items, None, None, true, CaseMode::Smart);
    assert!(!results.is_empty());
    assert_eq!(results[0].positions, vec![0, 1, 2, 3, 4]);
}

#[test]
fn test_match_type_exact() {
    let items = strings(&["apple", "pineapple"]);
    let results = search_impl("apple".to_string(), items, None, None, true, CaseMode::Smart);
    let exact = results.iter().find(|r| r.item == "apple").unwrap();
    assert_eq!(exact.match_type, Some(MatchType::Exact));
}

#[test]
fn test_match_type_prefix() {
    let items = strings(&["application"]);
    let results = search_impl("app".to_string(), items, None, None, true, CaseMode::Smart);
    assert!(!results.is_empty());
    assert_eq!(results[0].match_type, Some(MatchType::Prefix));
}

#[test]
fn test_match_type_contains() {
    let items = strings(&["pineapple"]);
    let results = search_impl("apple".to_string(), items, None, None, true, CaseMode::Smart);
    assert!(!results.is_empty());
    assert_eq!(results[0].match_type, Some(MatchType::Contains));
}

#[test]
fn test_match_type_fuzzy() {
    let items = strings(&["abcdef"]);
    let results = search_impl("adf".to_string(), items, None, None, true, CaseMode::Smart);
    assert!(!results.is_empty());
    assert_eq!(results[0].match_type, Some(MatchType::Fuzzy));
}

#[test]
fn test_match_type_none_without_positions() {
    let items = strings(&["hello"]);
    let results = search_impl("hello".to_string(), items, None, None, false, CaseMode::Smart);
    assert!(!results.is_empty());
    assert_eq!(results[0].match_type, None);
}

#[test]
fn test_match_type_present_with_positions() {
    let items = strings(&["hello"]);
    let results = search_impl("hello".to_string(), items, None, None, true, CaseMode::Smart);
    assert!(!results.is_empty());
    assert_eq!(results[0].match_type, Some(MatchType::Exact));
}

#[test]
fn test_match_type_case_insensitive_exact() {
    let items = strings(&["Apple"]);
    let results = search_impl("apple".to_string(), items, None, None, true, CaseMode::Smart);
    assert!(!results.is_empty());
    assert_eq!(results[0].match_type, Some(MatchType::Exact));
}

#[test]
fn test_positions_score_consistency() {
    let items = strings(&["apple", "application", "banana"]);
    let with_pos = search_impl("apple".to_string(), items.clone(), None, None, true, CaseMode::Smart);
    let without_pos = search_impl("apple".to_string(), items, None, None, false, CaseMode::Smart);
    assert_eq!(with_pos.len(), without_pos.len());
    for (a, b) in with_pos.iter().zip(without_pos.iter()) {
        assert_eq!(a.item, b.item);
        assert!((a.score - b.score).abs() < f64::EPSILON);
    }
}

#[test]
fn test_search_cjk() {
    let items = strings(&["東京", "大阪", "京都"]);
    let results = search_impl("東".to_string(), items, None, None, false, CaseMode::Smart);
    assert!(!results.is_empty());
}

#[test]
fn test_search_emoji() {
    let items = strings(&["🎉 party", "🎊 celebration", "work"]);
    let results = search_impl("party".to_string(), items, None, None, false, CaseMode::Smart);
    assert!(!results.is_empty());
    assert!(results[0].item.contains("party"));
}

#[test]
fn test_search_accented() {
    let items = strings(&["café", "resume", "naïve"]);
    let results = search_impl("cafe".to_string(), items, None, None, false, CaseMode::Smart);
    assert!(!results.is_empty());
}

#[test]
fn test_closest_cjk() {
    let items = strings(&["大阪", "京都", "東京都"]);
    let result = closest("東京".to_string(), items, None);
    assert!(result.is_some());
}

#[test]
fn test_search_mixed_scripts() {
    let items = strings(&["hello世界", "goodbye世間", "test"]);
    let results = search_impl("hello".to_string(), items, None, None, false, CaseMode::Smart);
    assert!(!results.is_empty());
    assert_eq!(results[0].item, "hello世界");
}

// ─── Further cases ──────────────────────────────────────────────────────────

#[test]
fn results_are_ranked_by_score_then_length_then_index() {
    let items = strings(&["abcx", "abc", "xabc", "abc", "zzz"]);
    let results = search_impl("abc".to_string(), items, None, None, false, CaseMode::Smart);
    for w in results.windows(2) {
        let (a, b) = (&w[0], &w[1]);
        assert!(
            a.score > b.score
                || (a.score == b.score && a.item.len() < b.item.len())
                || (a.score == b.score && a.item.len() == b.item.len() && a.index < b.index)
        );
    }
    assert_eq!(results[0].index, 1);
    assert_eq!(results[1].index, 3);
    assert!(results.iter().all(|r| r.item != "zzz"));
}

#[test]
fn max_results_keeps_the_best() {
    let items = strings(&["apple pie", "apple", "pineapple", "grape"]);
    let all = search_impl("apple".to_string(), items.clone(), None, None, false, CaseMode::Smart);
    let top = search_impl("apple".to_string(), items, Some(2), None, false, CaseMode::Smart);
    assert_eq!(top.len(), 2.min(all.len()));
    for (a, b) in top.iter().zip(all.iter()) {
        assert_eq!(a.index, b.index);
    }
    let none = search_impl("apple".to_string(), strings(&["apple"]), Some(0), None, false, CaseMode::Smart);
    assert!(none.is_empty());
}

#[test]
fn empty_items_give_no_results() {
    assert!(search_impl("a".to_string(), vec![], None, None, false, CaseMode::Smart).is_empty());
}

#[test]
fn min_score_above_one_excludes_everything() {
    let items = strings(&["hello"]);
    assert!(search_impl("hello".to_string(), items, None, Some(1.5), false, CaseMode::Smart).is_empty());
}

#[test]
fn case_flag_resolution() {
    assert_eq!(resolve_case_matching(Some(true)), CaseMode::Respect);
    assert_eq!(resolve_case_matching(Some(false)), CaseMode::Smart);
    assert_eq!(resolve_case_matching(None), CaseMode::Smart);
}

#[test]
fn classify_match_cases() {
    assert_eq!(classify_match(&[], 3), MatchType::Fuzzy);
    assert_eq!(classify_match(&[0, 1, 2], 3), MatchType::Exact);
    assert_eq!(classify_match(&[0, 1], 3), MatchType::Prefix);
    assert_eq!(classify_match(&[1, 2], 3), MatchType::Contains);
    assert_eq!(classify_match(&[0, 2], 3), MatchType::Fuzzy);
    assert_eq!(classify_match(&[2], 3), MatchType::Contains);
}

#[test]
fn query_max_score_matches_exact_item_score() {
    let max = query_max_score("hello", CaseMode::Smart);
    assert!(max > 0);
    let hits = search_over_items("hello", &strings(&["hello"]), None, 0, false, CaseMode::Smart);
    assert_eq!(hits[0].key, max);
}

#[test]
fn whitespace_query_matches_nothing() {
    let items = strings(&["foo", "bar baz", " "]);
    assert!(search_impl(" ".to_string(), items.clone(), None, None, false, CaseMode::Smart).is_empty());
    assert!(search_impl("  \t\n".to_string(), items.clone(), None, None, true, CaseMode::Smart).is_empty());
    assert_eq!(closest("   ".to_string(), items, None), None);
}

#[test]
fn readme_positions_for_highlighting() {
    let results = search_impl("hlo".to_string(), strings(&["hello world"]), None, None, true, CaseMode::Smart);
    assert_eq!(results.len(), 1);
    assert_eq!(results[0].item, "hello world");
    assert_eq!(results[0].index, 0);
    let chars: Vec<char> = "hello world".chars().collect();
    let picked: String = results[0].positions.iter().map(|&p| chars[p as usize]).collect();
    assert_eq!(picked, "hlo");
    assert_eq!(results[0].positions[0], 0);
    assert!(results[0].score > 0.0 && results[0].score < 1.0);
}

#[test]
fn readme_closest_abbreviation() {
    let items = strings(&["TypeScript", "JavaScript", "Python"]);
    assert_eq!(closest("tsc".to_string(), items, None), Some("TypeScript".to_string()));
}

#[test]
fn readme_query_syntax() {
    let hits = |q: &str, items: &[&str]| -> Vec<String> {
        search_impl(q.to_string(), strings(items), None, None, false, CaseMode::Smart)
            .into_iter()
            .map(|r| r.item)
            .collect()
    };
    assert_eq!(hits("john smith", &["Smith, John", "Jane Doe"]), vec!["Smith, John".to_string()]);
    assert_eq!(hits("apple !pie", &["apple pie", "apple tart"]), vec!["apple tart".to_string()]);
    assert_eq!(hits("^app", &["apple", "pineapple"]), vec!["apple".to_string()]);
    assert_eq!(hits("pie$", &["apple pie", "pie chart"]), vec!["apple pie".to_string()]);
    assert_eq!(hits("'pie", &["apple pie", "p-i-e"]), vec!["apple pie".to_string()]);
}

#[test]
fn readme_diacritics_are_folded() {
    for (q, item) in [("cafe", "café"), ("uber", "über"), ("naive", "naïve")] {
        let results = search_impl(q.to_string(), strings(&[item, "other"]), None, None, false, CaseMode::Smart);
        assert_eq!(results.len(), 1);
        assert_eq!(results[0].item, item);
    }
}

#[test]
fn positions_count_units_the_matcher_reads() {
    let item = "e\u{301}x".to_string();
    let results = search_impl("x".to_string(), vec![item], None, None, true, CaseMode::Smart);
    assert_eq!(results.len(), 1);
    assert_eq!(results[0].positions, vec![3]);
}
