use paru::typo::{best_repo_typo_match, bounded_levenshtein, collapse_repeats, max_typo_distance};

#[test]
fn strict_typo_match_works_for_near_names() {
    let names = vec!["cassette", "cartridge", "portproton"];
    assert_eq!(best_repo_typo_match("casete", &names, 85), Some("cassette"));
    assert_eq!(best_repo_typo_match("cartrige", &names, 85), Some("cartridge"));
}

#[test]
fn strict_typo_match_rejects_far_names() {
    let names = vec!["portproton"];
    assert_eq!(best_repo_typo_match("potprotonon", &names, 85), None);
}

#[test]
fn strict_typo_match_rejects_ambiguous_candidates() {
    let names = vec!["cat", "cot"];
    assert_eq!(best_repo_typo_match("cut", &names, 85), None);
}

#[test]
fn strict_typo_match_ignores_duplicate_names_from_multiple_repos() {
    let names = vec!["cassette", "cassette"];
    assert_eq!(best_repo_typo_match("casete", &names, 85), Some("cassette"));
}

#[test]
fn typo_match_never_returns_the_input() {
    let names = vec!["firefox", "firefox"];
    assert_eq!(best_repo_typo_match("firefox", &names, 85), None);
}

#[test]
fn typo_match_empty_input_and_empty_candidates() {
    let names = vec!["", "a"];
    assert_eq!(best_repo_typo_match("", &names, 85), None);
    let none: Vec<&str> = Vec::new();
    assert_eq!(best_repo_typo_match("abc", &none, 85), None);
}

#[test]
fn typo_match_requires_same_first_letter() {
    let names = vec!["bcassette"];
    assert_eq!(best_repo_typo_match("cassette", &names, 50), None);
}

#[test]
fn typo_match_prefers_smaller_distance_then_shorter_name() {
    // "abcdefx" is at distance 1 from "abcdefg", "abcdefgh" too but longer.
    let names = vec!["abcdefgh", "abcdefx"];
    assert_eq!(best_repo_typo_match("abcdefg", &names, 80), Some("abcdefx"));
    let names = vec!["abcdexy", "abcdefx"];
    assert_eq!(best_repo_typo_match("abcdefg", &names, 80), Some("abcdefx"));
}

#[test]
fn typo_match_is_case_insensitive_for_ascii() {
    let names = vec!["LibreOffice"];
    assert_eq!(best_repo_typo_match("libreofice", &names, 85), Some("LibreOffice"));
}

#[test]
fn typo_match_tie_broken_by_strictly_better_later_candidate() {
    let names = vec!["cot", "cat", "cut"];
    // "cut" equals the folded input only when the input is "cut"; here the
    // input is "cutt", which folds to "cut": "cut" is at distance 0.
    assert_eq!(best_repo_typo_match("cutt", &names, 60), Some("cut"));
}

#[test]
fn levenshtein_exact_values() {
    assert_eq!(bounded_levenshtein(b"kitten", b"sitting", 10), Some(3));
    assert_eq!(bounded_levenshtein(b"kitten", b"sitting", 2), None);
    assert_eq!(bounded_levenshtein(b"", b"abc", 3), Some(3));
    assert_eq!(bounded_levenshtein(b"", b"abc", 2), None);
    assert_eq!(bounded_levenshtein(b"abc", b"", 5), Some(3));
    assert_eq!(bounded_levenshtein(b"same", b"same", 0), Some(0));
    assert_eq!(bounded_levenshtein(b"a", b"abcdef", 2), None);
    assert_eq!(bounded_levenshtein(b"flaw", b"lawn", 2), Some(2));
}

#[test]
fn levenshtein_is_symmetric_on_examples() {
    let words: [&[u8]; 5] = [b"saturday", b"sunday", b"rosettacode", b"raisethysword", b""];
    for a in words {
        for b in words {
            assert_eq!(bounded_levenshtein(a, b, 100), bounded_levenshtein(b, a, 100));
        }
    }
}

#[test]
fn collapse_folds_case_and_runs() {
    assert_eq!(collapse_repeats("CaSsEttE"), b"casete".to_vec());
    assert_eq!(collapse_repeats("aAaA"), b"a".to_vec());
    assert_eq!(collapse_repeats(""), Vec::<u8>::new());
    assert_eq!(collapse_repeats("zz\u{e9}\u{e9}"), vec![b'z', 0xc3, 0xa9, 0xc3, 0xa9]);
}

#[test]
fn typo_budget_rounds_up() {
    assert_eq!(max_typo_distance(9, 85), 2);
    assert_eq!(max_typo_distance(6, 85), 1);
    assert_eq!(max_typo_distance(20, 85), 3);
    assert_eq!(max_typo_distance(10, 100), 0);
    assert_eq!(max_typo_distance(0, 85), 0);
}

#[test]
fn typo_match_ignores_order_and_repeats() {
    let a = vec!["cartridge", "cassette", "portproton"];
    let b = vec!["portproton", "cassette", "cartridge", "cassette", "portproton"];
    for input in ["casete", "cartrige", "portprotn", "zzz", "cut"] {
        assert_eq!(best_repo_typo_match(input, &a, 85), best_repo_typo_match(input, &b, 85));
    }
}

#[test]
fn similarity_above_full_accepts_nothing() {
    assert_eq!(best_repo_typo_match("casete", &["cassette"], 101), None);
    assert_eq!(best_repo_typo_match("casete", &[], 150), None);
    assert_eq!(best_repo_typo_match("cassette", &["cassette"], 100), None);
}

#[test]
fn bounded_levenshtein_is_symmetric() {
    for (a, b) in [("kitten", "sitting"), ("", "abc"), ("flaw", "lawn")] {
        for k in 0..8 {
            assert_eq!(
                bounded_levenshtein(a.as_bytes(), b.as_bytes(), k),
                bounded_levenshtein(b.as_bytes(), a.as_bytes(), k)
            );
        }
    }
}
