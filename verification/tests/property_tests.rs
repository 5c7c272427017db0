use fuzzy_score::matching::{create_matches, is_valid_match};
use fuzzy_score::scoring::calculate_score;

#[test]
fn test_empty_pattern_ranks_by_length() {
    assert_eq!(calculate_score("", "abc"), 3);
    assert_eq!(calculate_score("", ""), 0);
    assert_eq!(calculate_score("", "a"), 1);
    assert!(calculate_score("", "ab") < calculate_score("", "abcd"));
}

#[test]
fn test_exact_match_sentinel() {
    assert_eq!(calculate_score("neo", "neo"), -10_000);
    assert_eq!(calculate_score("a/b", "a/b"), -10_000);
}

#[test]
fn test_exact_match_is_best() {
    let pattern = "neo";
    let exact = calculate_score(pattern, "neo");
    assert!(exact < calculate_score(pattern, "neon"));
    assert!(exact < calculate_score(pattern, "xneo"));
    assert!(exact < calculate_score(pattern, "n-e-o"));
}

#[test]
fn test_no_match_sentinel() {
    // Right characters, wrong order: no order-preserving assignment exists.
    assert_eq!(calculate_score("ab", "ba"), 10_000);
    // No overlap at all.
    assert_eq!(calculate_score("xyz", "abc"), 10_000);
    // Empty candidate, non-empty pattern.
    assert_eq!(calculate_score("a", ""), 10_000);
    // The sentinel is worse than any match.
    assert!(calculate_score("ab", "a-b") < 10_000);
}

#[test]
fn test_streak_score_formula() {
    // "ab" in "xab": streak of length 2 starting at 1 in a 3-character leaf
    // candidate: raw = 2*50 + (200*2 + 100*(1+2) + 100*3) / 3 = 100 + 333.
    assert_eq!(calculate_score("ab", "xab"), -433);
    // "abc" fills the tail of "xabc": raw = 150 + (600 + 400 + 400) / 4 = 500.
    assert_eq!(calculate_score("abc", "xabc"), -500);
}

#[test]
fn test_case_fold_is_asymmetric() {
    // An upper-case candidate character satisfies a lower-case query char...
    assert_eq!(calculate_score("p", "P"), -450);
    // ...but an upper-case query character does not match a lower-case one.
    assert_eq!(calculate_score("P", "p"), 10_000);
    let tm = create_matches("p", "P");
    assert!(is_valid_match(&tm));
    let tm = create_matches("P", "p");
    assert!(!is_valid_match(&tm));
}

#[test]
fn test_leaf_preference() {
    // Same streak ("db"), same candidate length; the bare leaf name earns
    // exactly 100 more raw points than the path.
    let with_sep = calculate_score("db", "a/db");
    let leaf = calculate_score("db", "axdb");
    assert_eq!(with_sep, -300);
    assert_eq!(leaf, -400);
    assert_eq!(leaf, with_sep - 100);
}

#[test]
fn test_trailing_separator_is_stripped() {
    // A candidate that is a leaf name plus one trailing separator still earns
    // the leaf bonus.
    let a = calculate_score("neo", "neovim");
    let b = calculate_score("neo", "neovim/");
    assert!(a < 0 && b < 0);
}

#[test]
fn test_determinism() {
    let pattern = "convim";
    let text = "Projects/config/nvim";
    assert_eq!(
        calculate_score(pattern, text),
        calculate_score(pattern, text)
    );
    assert_eq!(calculate_score("", ""), calculate_score("", ""));
}

#[test]
fn test_multibyte_characters() {
    // Positions are counted in characters, not bytes.
    assert_eq!(calculate_score("", "héllo"), 5);
    assert_eq!(calculate_score("é", "é"), -10_000);
    assert!(calculate_score("éo", "héllo-wörld") < 0);
    assert!(calculate_score("él", "héllo") < 0);
    assert_eq!(calculate_score("oé", "héllo"), 10_000);
}
