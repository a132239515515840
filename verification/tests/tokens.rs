use rapid_fuzzy::search::{is_blank, leading_indices};
use rapid_fuzzy::text::{char_is_whitespace, fold_char};
use rapid_fuzzy::tokens::{token_set_plan, TokenSetPlan};

#[test]
fn token_set_plan_empty_sides() {
    assert!(matches!(token_set_plan("", ""), TokenSetPlan::EmptySide { both: true }));
    assert!(matches!(token_set_plan("a", ""), TokenSetPlan::EmptySide { both: false }));
    assert!(matches!(token_set_plan("", "b"), TokenSetPlan::EmptySide { both: false }));
}

#[test]
fn token_set_plan_same_tokens() {
    assert!(matches!(token_set_plan("b a a", "a b"), TokenSetPlan::SameTokens));
}

#[test]
fn token_set_plan_compare() {
    match token_set_plan("new york mets", "new york yankees fans") {
        TokenSetPlan::Compare { sect, combined_a, combined_b, a_has_own, b_has_own } => {
            assert_eq!(sect, "new york");
            assert_eq!(combined_a, "new york mets");
            assert_eq!(combined_b, "new york fans yankees");
            assert!(a_has_own);
            assert!(b_has_own);
        },
        _ => panic!("expected a comparison"),
    }
    match token_set_plan("abc", "xyz abc") {
        TokenSetPlan::Compare { sect, combined_a, combined_b, a_has_own, b_has_own } => {
            assert_eq!(sect, "abc");
            assert_eq!(combined_a, "abc");
            assert_eq!(combined_b, "abc xyz");
            assert!(!a_has_own);
            assert!(b_has_own);
        },
        _ => panic!("expected a comparison"),
    }
    match token_set_plan("foo", "bar") {
        TokenSetPlan::Compare { sect, combined_a, combined_b, .. } => {
            assert_eq!(sect, "");
            assert_eq!(combined_a, " foo");
            assert_eq!(combined_b, " bar");
        },
        _ => panic!("expected a comparison"),
    }
}

#[test]
fn blank_queries_and_leading_indices() {
    assert!(is_blank(""));
    assert!(is_blank(" \t\n"));
    assert!(!is_blank(" a "));
    assert_eq!(leading_indices(3, None), vec![0, 1, 2]);
    assert_eq!(leading_indices(3, Some(2)), vec![0, 1]);
    assert_eq!(leading_indices(3, Some(10)), vec![0, 1, 2]);
    assert!(leading_indices(0, None).is_empty());
}

#[test]
fn whitespace_test_agrees_with_std_on_every_char() {
    for x in 0u32..=0x10FFFF {
        if let Some(c) = char::from_u32(x) {
            assert_eq!(char_is_whitespace(c), c.is_whitespace(), "U+{:04X}", x);
        }
    }
}

#[test]
fn folding_lowercases_ascii_and_strips_diacritics() {
    for x in 0u32..0x80 {
        let c = char::from_u32(x).unwrap();
        assert_eq!(fold_char(c), c.to_ascii_lowercase());
    }
    assert_eq!(fold_char('É'), 'e');
    assert_eq!(fold_char('ü'), 'u');
    assert_eq!(fold_char('Ω'), 'ω');
}
