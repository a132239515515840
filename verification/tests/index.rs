use rapid_fuzzy::index::{search_over_precomputed, search_over_precomputed_indices, FuzzyIndexCore, PrecomputedSearch};
use rapid_fuzzy::text::compute_char_mask;
use rapid_fuzzy::search::{query_max_score, search_over_items, CaseMode, DefaultMatcher};
use rapid_fuzzy::serialization::{deserialize_items, serialize_items, FUZZY_INDEX_MAGIC};

struct Found {
    item: String,
    score: f64,
    index: u32,
    positions: Vec<u32>,
}

struct FoundIndex {
    index: u32,
    score: f64,
    positions: Vec<u32>,
}

fn score_of(key: u32, max: u32) -> f64 {
    (key as f64 / max as f64).min(1.0)
}

fn min_key_for(min_score: Option<f64>, max: u32) -> u64 {
    let t = min_score.unwrap_or(0.0);
    let (mut lo, mut hi) = (0u64, max as u64 + 1);
    while lo < hi {
        let mid = (lo + hi) / 2;
        if score_of(mid as u32, max) >= t {
            hi = mid;
        } else {
            lo = mid + 1;
        }
    }
    lo
}

struct Index {
    core: FuzzyIndexCore,
}

impl Index {
    fn new(items: Vec<String>) -> Self {
        Index { core: FuzzyIndexCore::new(items) }
    }

    fn size(&self) -> u32 {
        self.core.size()
    }

    fn search_impl(
        &mut self,
        query: &str,
        max_results: Option<u32>,
        min_score: Option<f64>,
        include_positions: bool,
        case: CaseMode,
    ) -> Vec<Found> {
        let max = query_max_score(query, case);
        let min_key = min_key_for(min_score, max);
        self.core
            .search_impl(query, max_results, min_key, include_positions, case)
            .into_iter()
            .map(|h| Found {
                item: h.item,
                score: score_of(h.key, max),
                index: h.index,
                positions: h.positions,
            })
            .collect()
    }

    fn search_indices_impl(
        &mut self,
        query: &str,
        max_results: Option<u32>,
        min_score: Option<f64>,
        include_positions: bool,
        case: CaseMode,
    ) -> Vec<FoundIndex> {
        let max = query_max_score(query, case);
        let min_key = min_key_for(min_score, max);
        self.core
            .search_indices_impl(query, max_results, min_key, include_positions, case)
            .into_iter()
            .map(|h| FoundIndex { index: h.index, score: score_of(h.key, max), positions: h.positions })
            .collect()
    }

    fn closest(&mut self, query: String, min_score: Option<f64>) -> Option<String> {
        let results = self.search_impl(&query, Some(1), min_score, false, CaseMode::Smart);
        results.into_iter().next().map(|r| r.item)
    }

    fn serialize_impl(&self) -> Vec<u8> {
        serialize_items(self.core.items(), &FUZZY_INDEX_MAGIC)
    }

    fn deserialize_impl(bytes: &[u8]) -> Result<Self, String> {
        deserialize_items(bytes, &FUZZY_INDEX_MAGIC).map(Index::new)
    }
}

fn strings(v: &[&str]) -> Vec<String> {
    v.iter().map(|s| s.to_string()).collect()
}

#[test]
fn test_new_and_size() {
    let index = Index::new(strings(&["apple", "banana"]));
    assert_eq!(index.size(), 2);
}

#[test]
fn test_empty_index() {
    let mut index = Index::new(vec![]);
    assert_eq!(index.size(), 0);
    let results = index.search_impl("test", None, None, false, CaseMode::Smart);
    assert!(results.is_empty());
}

#[test]
fn index_test_search_basic() {
    let mut index = Index::new(strings(&["TypeScript", "JavaScript", "Python"]));
    let results = index.search_impl("typscript", None, None, false, CaseMode::Smart);
    assert!(!results.is_empty());
    assert_eq!(results[0].item, "TypeScript");
}

#[test]
fn test_search_max_results() {
    let mut index = Index::new(strings(&["apple", "application", "appetizer"]));
    let results = index.search_impl("app", Some(2), None, false, CaseMode::Smart);
    assert!(results.len() <= 2);
}

#[test]
fn test_search_min_score() {
    let mut index = Index::new(strings(&["apple", "xyz"]));
    let results = index.search_impl("apple", None, Some(0.5), false, CaseMode::Smart);
    for r in &results {
        assert!(r.score >= 0.5);
    }
}

#[test]
fn test_search_with_positions() {
    let mut index = Index::new(strings(&["hello"]));
    let results = index.search_impl("hello", None, None, true, CaseMode::Smart);
    assert!(!results.is_empty());
    assert_eq!(results[0].positions, vec![0, 1, 2, 3, 4]);
}

#[test]
fn index_test_closest() {
    let mut index = Index::new(strings(&["apple", "banana"]));
    let result = index.closest("app".into(), None);
    assert_eq!(result, Some("apple".into()));
}

#[test]
fn index_test_closest_with_min_score() {
    let mut index = Index::new(strings(&["xyz"]));
    let result = index.closest("hello".into(), Some(0.99));
    assert!(result.is_none());
}

#[test]
fn test_add() {
    let mut index = Index::new(strings(&["apple"]));
    assert_eq!(index.size(), 1);
    index.core.add("banana".into());
    assert_eq!(index.size(), 2);
    let result = index.closest("banana".into(), None);
    assert_eq!(result, Some("banana".into()));
}

#[test]
fn test_add_many() {
    let mut index = Index::new(vec![]);
    index.core.add_many(strings(&["apple", "banana", "grape"]));
    assert_eq!(index.size(), 3);
}

#[test]
fn index_test_remove() {
    let mut index = Index::new(strings(&["apple", "banana", "grape"]));
    assert!(index.core.remove(1));
    assert_eq!(index.size(), 2);
    assert!(!index.core.remove(10));
}

#[test]
fn test_remove_swap_semantics() {
    let mut index = Index::new(strings(&["a", "b", "c"]));
    index.core.remove(0);
    assert_eq!(index.size(), 2);
    let results = index.search_impl("c", None, None, false, CaseMode::Smart);
    assert!(!results.is_empty());
    assert_eq!(index.core.items(), &strings(&["c", "b"])[..]);
}

#[test]
fn index_test_destroy() {
    let mut index = Index::new(strings(&["apple", "banana"]));
    index.core.destroy();
    assert_eq!(index.size(), 0);
    let results = index.search_impl("apple", None, None, false, CaseMode::Smart);
    assert!(results.is_empty());
}

#[test]
fn index_test_scores_normalized() {
    let mut index = Index::new(strings(&["apple", "application", "banana"]));
    let results = index.search_impl("apple", None, None, false, CaseMode::Smart);
    for r in &results {
        assert!(r.score >= 0.0 && r.score <= 1.0);
    }
}

#[test]
fn test_results_sorted_descending() {
    let mut index = Index::new(strings(&["apple", "application", "appetizer", "banana"]));
    let results = index.search_impl("apple", None, None, false, CaseMode::Smart);
    for window in results.windows(2) {
        assert!(window[0].score >= window[1].score);
    }
}

#[test]
fn test_consistent_with_standalone_search() {
    let items = strings(&["apple", "application", "banana", "grape"]);
    let mut index = Index::new(items.clone());
    let index_results = index.search_impl("apple", None, None, false, CaseMode::Smart);
    let max = query_max_score("apple", CaseMode::Smart);
    let standalone = search_over_items("apple", &items, None, 0, false, CaseMode::Smart);
    assert_eq!(index_results.len(), standalone.len());
    for (a, b) in index_results.iter().zip(standalone.iter()) {
        assert_eq!(a.item, b.item);
        assert!((a.score - score_of(b.key, max)).abs() < f64::EPSILON);
    }
}

#[test]
fn test_case_sensitive_search() {
    let mut index = Index::new(strings(&["Apple", "apple", "APPLE"]));
    let results = index.search_impl("apple", None, Some(1.0), false, CaseMode::Respect);
    assert_eq!(results.len(), 1);
    assert_eq!(results[0].item, "apple");
}

#[test]
fn test_smart_case_search() {
    let mut index = Index::new(strings(&["Apple", "apple", "APPLE"]));
    let results = index.search_impl("apple", None, Some(1.0), false, CaseMode::Smart);
    assert_eq!(results.len(), 3);
}

#[test]
fn test_serialize_roundtrip() {
    let index = Index::new(strings(&["apple", "banana", "cherry"]));
    let data = index.serialize_impl();
    let mut restored = Index::deserialize_impl(&data).unwrap();
    assert_eq!(restored.size(), 3);
    let results = restored.search_impl("apple", None, None, false, CaseMode::Smart);
    assert!(!results.is_empty());
    assert_eq!(results[0].item, "apple");
}

#[test]
fn test_serialize_empty() {
    let index = Index::new(vec![]);
    let data = index.serialize_impl();
    let restored = Index::deserialize_impl(&data).unwrap();
    assert_eq!(restored.size(), 0);
}

#[test]
fn test_serialize_unicode() {
    let index = Index::new(strings(&["café", "naïve", "東京"]));
    let data = index.serialize_impl();
    let mut restored = Index::deserialize_impl(&data).unwrap();
    assert_eq!(restored.size(), 3);
    let results = restored.search_impl("café", None, None, false, CaseMode::Smart);
    assert!(!results.is_empty());
    assert_eq!(results[0].item, "café");
}

#[test]
fn test_serialize_search_consistency() {
    let items: Vec<String> = (0..100).map(|i| format!("item_{i}")).collect();
    let mut original = Index::new(items);
    let data = original.serialize_impl();
    let mut restored = Index::deserialize_impl(&data).unwrap();
    let orig_results = original.search_impl("item_5", None, None, false, CaseMode::Smart);
    let rest_results = restored.search_impl("item_5", None, None, false, CaseMode::Smart);
    assert_eq!(orig_results.len(), rest_results.len());
    for (a, b) in orig_results.iter().zip(rest_results.iter()) {
        assert_eq!(a.item, b.item);
        assert!((a.score - b.score).abs() < f64::EPSILON);
    }
}

#[test]
fn test_deserialize_invalid_magic() {
    let data = b"XXXX\x01\x00\x00\x00\x00\x00\x00\x00";
    assert!(Index::deserialize_impl(data).is_err());
}

#[test]
fn test_deserialize_truncated() {
    let data = b"RFZI\x01\x00\x00\x00";
    assert!(Index::deserialize_impl(data).is_err());
}

#[test]
fn test_deserialize_bad_version() {
    let data = b"RFZI\xFF\x00\x00\x00\x00\x00\x00\x00";
    assert!(Index::deserialize_impl(data).is_err());
}

#[test]
fn test_search_indices_basic() {
    let mut index = Index::new(strings(&["TypeScript", "JavaScript", "Python"]));
    let results = index.search_indices_impl("typscript", None, None, false, CaseMode::Smart);
    assert!(!results.is_empty());
    assert_eq!(results[0].index, 0);
}

#[test]
fn test_search_indices_no_item_field() {
    let mut index = Index::new(strings(&["hello", "world"]));
    let results = index.search_indices_impl("hello", None, None, false, CaseMode::Smart);
    assert!(!results.is_empty());
    assert_eq!(results[0].index, 0);
    assert!((results[0].score - 1.0).abs() < f64::EPSILON);
}

#[test]
fn test_search_indices_consistent_with_search() {
    let mut index = Index::new(strings(&["apple", "application", "banana", "grape"]));
    let full = index.search_impl("apple", None, None, false, CaseMode::Smart);
    let indices_only = index.search_indices_impl("apple", None, None, false, CaseMode::Smart);
    assert_eq!(full.len(), indices_only.len());
    for (f, i) in full.iter().zip(indices_only.iter()) {
        assert_eq!(f.index, i.index);
        assert!((f.score - i.score).abs() < f64::EPSILON);
    }
}

#[test]
fn test_search_indices_with_positions() {
    let mut index = Index::new(strings(&["hello"]));
    let results = index.search_indices_impl("hello", None, None, true, CaseMode::Smart);
    assert!(!results.is_empty());
    assert_eq!(results[0].positions, vec![0, 1, 2, 3, 4]);
}

#[test]
fn test_search_indices_min_score() {
    let mut index = Index::new(strings(&["apple", "xyz"]));
    let results = index.search_indices_impl("apple", None, Some(0.5), false, CaseMode::Smart);
    for r in &results {
        assert!(r.score >= 0.5);
    }
}

#[test]
fn test_search_indices_max_results() {
    let mut index = Index::new(strings(&["apple", "application", "appetizer"]));
    let results = index.search_indices_impl("app", Some(2), None, false, CaseMode::Smart);
    assert!(results.len() <= 2);
}

// ─── Further cases ──────────────────────────────────────────────────────────

#[test]
fn incremental_search_narrows_and_keeps_results() {
    let mut items: Vec<String> = (0..40).map(|i| format!("entry {i}")).collect();
    items.push("apple".into());
    items.push("applet".into());
    items.push("application".into());
    let mut index = Index::new(items.clone());
    let first = index.search_impl("app", None, None, false, CaseMode::Smart);
    assert!(!first.is_empty());
    let narrowed = index.search_impl("appl", None, None, false, CaseMode::Smart);
    let mut fresh = Index::new(items);
    let direct = fresh.search_impl("appl", None, None, false, CaseMode::Smart);
    assert_eq!(narrowed.len(), direct.len());
    for (a, b) in narrowed.iter().zip(direct.iter()) {
        assert_eq!(a.index, b.index);
    }
}

#[test]
fn large_index_uses_bigram_filter_consistently() {
    let mut items: Vec<String> = (0..5200).map(|i| format!("row number {i}")).collect();
    items.push("quixotic".into());
    let mut index = Index::new(items.clone());
    let results = index.search_impl("quix", None, None, false, CaseMode::Smart);
    assert!(!results.is_empty());
    assert_eq!(results[0].item, "quixotic");
    let standalone = search_over_items("quix", &items, None, 0, false, CaseMode::Smart);
    assert_eq!(standalone[0].index, results[0].index);
}

#[test]
fn add_then_remove_last_item() {
    let mut index = Index::new(strings(&["a1", "b2"]));
    index.core.add("c3".into());
    assert!(index.core.remove(2));
    assert_eq!(index.core.items(), &strings(&["a1", "b2"])[..]);
    assert!(!index.core.remove(2));
}

#[test]
fn index_matches_accented_items_with_plain_query() {
    let mut index = Index::new(strings(&["café", "über", "naïve", "other"]));
    let results = index.search_impl("cafe", None, None, false, CaseMode::Smart);
    assert!(!results.is_empty());
    assert_eq!(results[0].item, "café");
    let results = index.search_impl("uber", None, None, false, CaseMode::Smart);
    assert_eq!(results[0].item, "über");
    let results = index.search_impl("naive", None, None, false, CaseMode::Smart);
    assert_eq!(results[0].item, "naïve");
}

#[test]
fn large_index_matches_accented_items_with_plain_query() {
    let mut items: Vec<String> = (0..6000).map(|i| format!("item number {}", i)).collect();
    items.push("café crème".to_string());
    let mut index = Index::new(items.clone());
    let results = index.search_impl("cafe creme", None, None, false, CaseMode::Smart);
    assert_eq!(results.len(), 1);
    assert_eq!(results[0].item, "café crème");
    assert_eq!(results[0].index, 6000);
    let standalone = search_over_items("cafe creme", &items, None, 0, false, CaseMode::Smart);
    assert_eq!(standalone.len(), 1);
}

#[test]
fn index_whitespace_query_matches_nothing() {
    let mut index = Index::new(strings(&["foo", "bar", " "]));
    assert!(index.search_impl(" ", None, None, false, CaseMode::Smart).is_empty());
    assert!(index.search_indices_impl("\t ", None, None, false, CaseMode::Smart).is_empty());
    assert_eq!(index.closest("  ".to_string(), None), None);
}

fn filler(n: usize) -> Vec<String> {
    (0..n).map(|i| format!("zzz{}", i)).collect()
}

#[test]
fn thresholded_search_does_not_narrow_the_next_one() {
    let mut items = strings(&["apple", "xaxxxxxxxxxpxxxxpxx"]);
    items.extend(filler(10));
    let mut index = Index::new(items.clone());
    let first = index.search_impl("ap", None, Some(0.9), false, CaseMode::Smart);
    assert!(first.iter().all(|r| r.item != "xaxxxxxxxxxpxxxxpxx"));
    let second = index.search_impl("app", None, None, false, CaseMode::Smart);
    let fresh = search_over_items("app", &items, None, 0, false, CaseMode::Smart);
    assert_eq!(second.len(), fresh.len());
    assert!(second.iter().any(|r| r.item == "xaxxxxxxxxxpxxxxpxx"));
    for (a, b) in second.iter().zip(fresh.iter()) {
        assert_eq!(a.index, b.index);
    }
}

#[test]
fn closest_does_not_narrow_the_next_search() {
    let mut items = strings(&["apple", "xaxxxxxxxxxpxxxxpxx"]);
    items.extend(filler(10));
    let mut index = Index::new(items);
    assert_eq!(index.closest("ap".to_string(), None), Some("apple".to_string()));
    let next = index.search_impl("app", None, None, false, CaseMode::Smart);
    assert_eq!(next.len(), 2);
}

#[test]
fn cache_is_not_reused_across_case_modes() {
    let mut items = strings(&["apple", "APPLE"]);
    items.extend(filler(10));
    let mut index = Index::new(items);
    let first = index.search_impl("ap", None, None, false, CaseMode::Respect);
    assert_eq!(first.len(), 1);
    assert_eq!(first[0].item, "apple");
    let second = index.search_impl("app", None, None, false, CaseMode::Ignore);
    assert_eq!(second.len(), 2);
}

#[test]
fn readme_incremental_search_gives_full_scan_results() {
    let mut items = strings(&["apple", "application", "pineapple", "grape", "banana"]);
    items.extend(filler(20));
    let mut index = Index::new(items.clone());
    for q in ["app", "apple", "xyz", "ap", "apl"] {
        let got: Vec<u32> = index.search_impl(q, None, None, false, CaseMode::Smart).iter().map(|r| r.index).collect();
        let fresh: Vec<u32> =
            search_over_items(q, &items, None, 0, false, CaseMode::Smart).iter().map(|h| h.index).collect();
        assert_eq!(got, fresh, "query {q}");
    }
}

#[test]
fn test_tiebreaker_consistent_for_unicode() {
    let items = vec!["hello世界".to_string(), "helloab".to_string()];
    let standalone = search_over_items("hello", &items, None, 0, false, CaseMode::Smart);
    let char_masks: Vec<u64> = items.iter().map(|s| compute_char_mask(s)).collect();
    let mut matcher = DefaultMatcher::new();
    let ctx = PrecomputedSearch { items: &items, char_masks: &char_masks, candidate_indices: None };
    let indexed = search_over_precomputed("hello", &ctx, &mut matcher, None, 0, false, CaseMode::Smart);
    assert_eq!(standalone.len(), indexed.results.len(), "result count differs between standalone and indexed search");
    for (s, i) in standalone.iter().zip(indexed.results.iter()) {
        assert_eq!(s.item, i.item, "ordering differs between standalone and indexed search");
    }
}

#[test]
fn precomputed_search_scans_only_candidates() {
    let items = strings(&["apple", "apply", "grape", "maple"]);
    let char_masks: Vec<u64> = items.iter().map(|s| compute_char_mask(s)).collect();
    let mut matcher = DefaultMatcher::new();
    let cands = [1u32, 3];
    let ctx = PrecomputedSearch { items: &items, char_masks: &char_masks, candidate_indices: Some(&cands) };
    let out = search_over_precomputed("ap", &ctx, &mut matcher, None, 0, false, CaseMode::Smart);
    let mut idx: Vec<u32> = out.results.iter().map(|h| h.index).collect();
    idx.sort();
    assert_eq!(idx, vec![1, 3]);
    // Two of four items match: not fewer than half, so no indices are kept.
    assert!(out.all_matching_indices.is_empty());
    let out = search_over_precomputed_indices("ply", &ctx, &mut matcher, None, 0, true, CaseMode::Smart);
    assert_eq!(out.results.len(), 1);
    assert_eq!(out.results[0].index, 1);
    assert_eq!(out.results[0].positions, vec![2, 3, 4]);
    assert_eq!(out.all_matching_indices, vec![1]);
    let blank = search_over_precomputed(" ", &ctx, &mut matcher, None, 0, false, CaseMode::Smart);
    assert!(blank.results.is_empty() && blank.all_matching_indices.is_empty());
}
