use rapid_fuzzy::index::FuzzyIndexCore;
use rapid_fuzzy::search::{search_over_items, CaseMode};
use rapid_fuzzy::text::{compute_char_mask, compute_query_mask};

struct Lcg(u64);

impl Lcg {
    fn next(&mut self, n: u64) -> u64 {
        self.0 = self.0.wrapping_mul(6364136223846793005).wrapping_add(1442695040888963407);
        (self.0 >> 33) % n
    }
}

fn random_text(rng: &mut Lcg, alphabet: &[u8], max_len: u64) -> String {
    let len = rng.next(max_len + 1);
    (0..len).map(|_| alphabet[rng.next(alphabet.len() as u64) as usize] as char).collect()
}

fn screened(query: &str, item: &str) -> bool {
    let qm = compute_query_mask(query);
    qm != 0 && (compute_char_mask(item) & qm) != qm
}

#[test]
fn mask_screens_only_items_the_matcher_cannot_score() {
    let mut rng = Lcg(7);
    let item_chars = b"abcABC12 -_x";
    let query_chars = b"abcAB1 ^'$!x\\\t";
    let mut matcher = nucleo_matcher::Matcher::new(nucleo_matcher::Config::DEFAULT);
    for _ in 0..20000 {
        let item = random_text(&mut rng, item_chars, 8);
        let query = random_text(&mut rng, query_chars, 5);
        for case in [
            nucleo_matcher::pattern::CaseMatching::Respect,
            nucleo_matcher::pattern::CaseMatching::Ignore,
            nucleo_matcher::pattern::CaseMatching::Smart,
        ] {
            let pattern = nucleo_matcher::pattern::Pattern::parse(
                &query,
                case,
                nucleo_matcher::pattern::Normalization::Smart,
            );
            let mut buf = Vec::new();
            let score = pattern.score(nucleo_matcher::Utf32Str::new(&item, &mut buf), &mut matcher);
            if score.is_some() {
                assert!(!screened(&query, &item), "query {query:?} item {item:?}");
            }
        }
    }
}

#[test]
fn small_ascii_index_gives_standalone_results() {
    let mut rng = Lcg(11);
    let item_chars = b"abcdeABC12 -";
    let query_chars = b"abcdA1 ^'$!\\\t";
    for _ in 0..300 {
        let n = rng.next(12) as usize;
        let items: Vec<String> = (0..n).map(|_| random_text(&mut rng, item_chars, 9)).collect();
        let mut index = FuzzyIndexCore::new(items.clone());
        for _ in 0..5 {
            let query = random_text(&mut rng, query_chars, 4);
            let min_key = rng.next(40);
            let limit = if rng.next(2) == 0 { None } else { Some(rng.next(5) as u32) };
            let fresh = FuzzyIndexCore::new(items.clone())
                .search_impl(&query, limit, min_key, true, CaseMode::Smart);
            let standalone = search_over_items(&query, &items, limit, min_key, true, CaseMode::Smart);
            let cached = index.search_impl(&query, limit, min_key, true, CaseMode::Smart);
            let key = |v: &Vec<rapid_fuzzy::search::SearchHit>| -> Vec<(u32, u32, Vec<u32>)> {
                v.iter().map(|h| (h.index, h.key, h.positions.clone())).collect()
            };
            assert_eq!(key(&fresh), key(&standalone), "query {query:?} items {items:?}");
            assert_eq!(key(&cached), key(&standalone), "query {query:?} items {items:?}");
        }
    }
}

#[test]
fn escaped_space_in_a_negated_atom() {
    let items = vec!["xyz".to_string(), "foo bar".to_string()];
    let standalone = search_over_items("!foo\\ bar", &items, None, 0, false, CaseMode::Smart);
    let indexed = FuzzyIndexCore::new(items.clone()).search_impl("!foo\\ bar", None, 0, false, CaseMode::Smart);
    let a: Vec<u32> = standalone.iter().map(|h| h.index).collect();
    let b: Vec<u32> = indexed.iter().map(|h| h.index).collect();
    assert_eq!(a, b);
}

fn filler(n: usize) -> Vec<String> {
    (0..n).map(|i| format!("zzz{}", i)).collect()
}

#[test]
fn extending_past_a_dollar_does_not_reuse_the_cache() {
    let mut items = vec!["xa".to_string(), "a$b".to_string()];
    items.extend(filler(10));
    let mut index = FuzzyIndexCore::new(items.clone());
    let first = index.search_impl("a$", None, 0, false, CaseMode::Smart);
    assert!(first.iter().all(|h| h.index != 1));
    let second = index.search_impl("a$b", None, 0, false, CaseMode::Smart);
    let standalone = search_over_items("a$b", &items, None, 0, false, CaseMode::Smart);
    assert!(second.iter().any(|h| h.index == 1));
    assert_eq!(second.len(), standalone.len());
}

#[test]
fn extending_past_a_backslash_does_not_reuse_the_cache() {
    let mut items = vec!["a\\".to_string(), "a b".to_string()];
    items.extend(filler(10));
    let mut index = FuzzyIndexCore::new(items.clone());
    let first = index.search_impl("a\\", None, 0, false, CaseMode::Smart);
    assert!(first.iter().all(|h| h.index != 1));
    let second = index.search_impl("a\\ b", None, 0, false, CaseMode::Smart);
    assert!(second.iter().any(|h| h.index == 1));
}
