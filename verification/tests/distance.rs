use rapid_fuzzy::distance::{
    batch_apply, damerau_levenshtein, damerau_levenshtein_batch, damerau_levenshtein_many, hamming,
    hamming_batch, hamming_many, indel, indel_batch, indel_many, levenshtein, levenshtein_batch,
    levenshtein_many,
};
use rapid_fuzzy::tokens::{normalize_str, sorted_tokens};

fn strings(v: &[&str]) -> Vec<String> {
    v.iter().map(|s| s.to_string()).collect()
}

#[test]
fn test_levenshtein() {
    assert_eq!(levenshtein("kitten", "sitting"), 3);
    assert_eq!(levenshtein("", ""), 0);
    assert_eq!(levenshtein("abc", "abc"), 0);
}

#[test]
fn test_levenshtein_batch() {
    let pairs = vec![
        strings(&["kitten", "sitting"]),
        strings(&["", ""]),
        strings(&["abc", "abc"]),
    ];
    assert_eq!(levenshtein_batch(&pairs), vec![3, 0, 0]);
}

#[test]
fn test_levenshtein_many() {
    let candidates = strings(&["sitting", "", "kitten"]);
    let result = levenshtein_many("kitten", &candidates, None);
    assert_eq!(result, vec![3, 6, 0]);
}

#[test]
fn test_hamming() {
    assert_eq!(hamming("karolin", "kathrin"), Some(3));
    assert_eq!(hamming("", ""), Some(0));
    assert_eq!(hamming("abc", "abc"), Some(0));
    assert_eq!(hamming("abc", "ab"), None);
    assert_eq!(hamming("", "a"), None);
}

#[test]
fn test_hamming_batch() {
    let pairs = vec![
        strings(&["karolin", "kathrin"]),
        strings(&["abc", "abc"]),
        strings(&["abc", "ab"]),
    ];
    assert_eq!(hamming_batch(&pairs), vec![Some(3), Some(0), None]);
}

#[test]
fn test_hamming_many() {
    let candidates = strings(&["kathrin", "karolin", "abc"]);
    let result = hamming_many("karolin", &candidates, None);
    assert_eq!(result, vec![Some(3), Some(0), None]);
}

#[test]
fn test_indel() {
    assert_eq!(indel("abc", "abc"), 0);
    assert_eq!(indel("", ""), 0);
    assert_eq!(indel("abc", "ac"), 1);
}

#[test]
fn test_levenshtein_many_with_cutoff() {
    let candidates = strings(&["sitting", "kitten", "abcdef"]);
    let result = levenshtein_many("kitten", &candidates, Some(2));
    assert_eq!(result, vec![3, 0, 3]);
}

#[test]
fn test_levenshtein_many_without_cutoff() {
    let candidates = strings(&["sitting", "kitten"]);
    let result = levenshtein_many("kitten", &candidates, None);
    assert_eq!(result, vec![3, 0]);
}

#[test]
fn test_damerau_levenshtein_many_with_cutoff() {
    let candidates = strings(&["sitting", "kitten", "abcdef"]);
    let result = damerau_levenshtein_many("kitten", &candidates, Some(2));
    assert_eq!(result[1], 0);
    assert_eq!(result[0], 3);
    assert_eq!(result[2], 3);
}

#[test]
fn test_damerau_levenshtein_many_without_cutoff() {
    let candidates = strings(&["sitting", "kitten"]);
    let result = damerau_levenshtein_many("kitten", &candidates, None);
    assert_eq!(result[1], 0);
    assert!(result[0] > 0);
}

#[test]
fn test_hamming_many_with_cutoff() {
    let candidates = strings(&["kathrin", "karolin", "abc"]);
    let result = hamming_many("karolin", &candidates, Some(2));
    assert_eq!(result, vec![None, Some(0), None]);
}

#[test]
fn test_hamming_many_without_cutoff() {
    let candidates = strings(&["kathrin", "karolin", "abc"]);
    let result = hamming_many("karolin", &candidates, None);
    assert_eq!(result, vec![Some(3), Some(0), None]);
}

#[test]
fn test_hamming_many_cutoff_zero() {
    let candidates = strings(&["karolin", "kathrin"]);
    let result = hamming_many("karolin", &candidates, Some(0));
    assert_eq!(result, vec![Some(0), None]);
}

#[test]
fn test_levenshtein_many_cutoff_zero() {
    let candidates = strings(&["kitten", "sitting"]);
    let result = levenshtein_many("kitten", &candidates, Some(0));
    assert_eq!(result[0], 0);
    assert_eq!(result[1], 1);
}

#[test]
fn test_levenshtein_cjk() {
    assert_eq!(levenshtein("東京", "京都"), 2);
    assert_eq!(levenshtein("日本語", "日本語"), 0);
    assert_eq!(levenshtein("日本語", "日本人"), 1);
}

#[test]
fn test_levenshtein_emoji() {
    assert_eq!(levenshtein("👋🌍", "👋🌎"), 1);
    assert_eq!(levenshtein("🎉🎊", "🎉🎊"), 0);
}

#[test]
fn test_levenshtein_diacritics() {
    assert_eq!(levenshtein("café", "cafe"), 1);
    assert_eq!(levenshtein("naïve", "naïve"), 0);
}

#[test]
fn test_levenshtein_mixed_scripts() {
    assert_eq!(levenshtein("hello世界", "hello世間"), 1);
}

// ─── Further cases ──────────────────────────────────────────────────────────

#[test]
fn levenshtein_identity_symmetry_and_triangle_on_samples() {
    let samples = ["", "a", "kitten", "sitting", "flaw", "lawn", "東京都", "café"];
    for a in samples {
        assert_eq!(levenshtein(a, a), 0);
        for b in samples {
            assert_eq!(levenshtein(a, b), levenshtein(b, a));
            let la = a.chars().count() as u32;
            let lb = b.chars().count() as u32;
            assert!(levenshtein(a, b) <= la.max(lb));
            assert!(levenshtein(a, b) >= la.abs_diff(lb));
            for c in samples {
                assert!(levenshtein(a, c) <= levenshtein(a, b) + levenshtein(b, c));
            }
        }
    }
}

#[test]
fn levenshtein_known_values() {
    assert_eq!(levenshtein("flaw", "lawn"), 2);
    assert_eq!(levenshtein("", "abc"), 3);
    assert_eq!(levenshtein("CA", "ABC"), 3);
}

#[test]
fn damerau_counts_a_transposition_once() {
    assert_eq!(damerau_levenshtein("ab", "ba"), 1);
    assert_eq!(damerau_levenshtein("CA", "ABC"), 2);
    assert_eq!(damerau_levenshtein("abc", "abc"), 0);
    assert_eq!(damerau_levenshtein("ab", "ba"), damerau_levenshtein("ba", "ab"));
}

#[test]
fn damerau_batch_and_short_pairs() {
    let pairs = vec![strings(&["ab", "ba"]), strings(&["only"]), vec![]];
    assert_eq!(damerau_levenshtein_batch(&pairs), vec![1, 0, 0]);
}

#[test]
fn levenshtein_batch_short_pair_gives_zero() {
    let pairs = vec![strings(&["kitten"]), strings(&["a", "b", "c"])];
    assert_eq!(levenshtein_batch(&pairs), vec![0, 1]);
}

#[test]
fn hamming_batch_short_pair_gives_none() {
    let pairs = vec![strings(&["abc"]), strings(&["abc", "abd"])];
    assert_eq!(hamming_batch(&pairs), vec![None, Some(1)]);
}

#[test]
fn hamming_symmetry_on_samples() {
    let samples = ["", "abc", "abd", "xbz", "ab"];
    for a in samples {
        assert_eq!(hamming(a, a), Some(0));
        for b in samples {
            assert_eq!(hamming(a, b), hamming(b, a));
            assert_eq!(hamming(a, b).is_none(), a.len() != b.len());
        }
    }
}

#[test]
fn indel_values_batch_and_many() {
    assert_eq!(indel("kitten", "sitting"), 5);
    assert_eq!(indel("ab", "ba"), 2);
    assert_eq!(indel("ab", "ba"), indel("ba", "ab"));
    let pairs = vec![strings(&["abc", "ac"]), strings(&["x"])];
    assert_eq!(indel_batch(&pairs), vec![1, 0]);
    let cands = strings(&["abc", "ac", "xyz"]);
    assert_eq!(indel_many("abc", &cands, None), vec![0, 1, 6]);
    assert_eq!(indel_many("abc", &cands, Some(1)), vec![0, 1, 2]);
}

#[test]
fn batch_apply_uses_default_for_short_pairs() {
    let pairs = vec![strings(&["ab", "abc"]), strings(&["x"])];
    let lens = batch_apply(&pairs, |a: &str, b: &str| a.len() + b.len());
    assert_eq!(lens, vec![5, 0]);
}

#[test]
fn normalize_str_collapses_whitespace_and_lowercases() {
    assert_eq!(normalize_str("  Hello   WORLD \t foo "), "hello world foo");
    assert_eq!(normalize_str(""), "");
    assert_eq!(normalize_str("   "), "");
    assert_eq!(normalize_str("ÀB Ç"), "àb ç");
}

#[test]
fn sorted_tokens_lowercases_and_sorts() {
    assert_eq!(sorted_tokens("World hello  apple"), strings(&["apple", "hello", "world"]));
    assert_eq!(sorted_tokens("b A a"), strings(&["a", "a", "b"]));
    assert!(sorted_tokens("  ").is_empty());
    assert_eq!(sorted_tokens("zeta ábc abc"), strings(&["abc", "zeta", "ábc"]));
}

#[test]
fn many_accepts_the_largest_cutoff() {
    let candidates = strings(&["sitting", "kitten", ""]);
    assert_eq!(levenshtein_many("kitten", &candidates, Some(u32::MAX)), vec![3, 0, 6]);
    assert_eq!(damerau_levenshtein_many("kitten", &candidates, Some(u32::MAX)), vec![3, 0, 6]);
    assert_eq!(indel_many("kitten", &candidates, Some(u32::MAX)), vec![5, 0, 6]);
    assert_eq!(levenshtein_many("kitten", &candidates, Some(0)), vec![1, 0, 1]);
}
