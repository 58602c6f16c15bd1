use paru::menu::NumberMenu;

#[test]
fn menu_parses_numbers_ranges_and_words() {
    let m = NumberMenu::new("1 2-4,^3 extra ^core");
    assert_eq!(m.in_range, vec![1..2, 2..5]);
    assert_eq!(m.ex_range, vec![3..4]);
    assert_eq!(m.in_word, vec!["extra"]);
    assert_eq!(m.ex_word, vec!["core"]);
}

#[test]
fn menu_empty_selects_everything() {
    let m = NumberMenu::new("");
    assert!(m.contains(1, "x"));
    assert!(m.contains(100, ""));
    let m = NumberMenu::new("  ,, \t");
    assert!(m.contains(7, "core"));
}

#[test]
fn menu_inclusion_wins_over_exclusion() {
    let m = NumberMenu::new("1-5 ^3");
    assert!(m.contains(3, ""));
    assert!(m.contains(5, ""));
    assert!(!m.contains(6, ""));
}

#[test]
fn menu_only_exclusions_select_the_rest() {
    let m = NumberMenu::new("^2 ^4-5");
    assert!(m.contains(1, ""));
    assert!(!m.contains(2, ""));
    assert!(m.contains(3, ""));
    assert!(!m.contains(4, ""));
    assert!(!m.contains(5, ""));
    assert!(m.contains(6, ""));
}

#[test]
fn menu_words_use_text_before_first_dash() {
    let m = NumberMenu::new("extra-testing 3-x ^^^multilib");
    assert_eq!(m.in_word, vec!["extra", "3"]);
    assert_eq!(m.ex_word, vec!["multilib"]);
    assert!(m.contains(9, "extra"));
    assert!(!m.contains(9, "multilib"));
    assert!(!m.contains(9, "core"));
}

#[test]
fn menu_range_ends_at_second_dash_and_allows_plus() {
    let m = NumberMenu::new("2-3-9 +4 5-2");
    assert_eq!(m.in_range, vec![2..4, 4..5, 5..3]);
    assert!(!m.contains(9, ""));
    assert!(m.contains(4, ""));
}

#[test]
fn menu_splits_on_unicode_white_space() {
    let m = NumberMenu::new("1\u{3000}2\u{a0}3");
    assert_eq!(m.in_range, vec![1..2, 2..3, 3..4]);
}

#[test]
fn menu_caret_alone_excludes_empty_name() {
    let m = NumberMenu::new("^");
    assert_eq!(m.ex_word, vec![""]);
    assert!(!m.contains(1, ""));
    assert!(m.contains(1, "x"));
}

#[test]
fn joined_answers_give_joined_menus() {
    for sep in [",", " "] {
        let a = "1-3 ^2 extra";
        let b = "^core 7";
        let joined = format!("{a}{sep}{b}");
        let m = NumberMenu::new(&joined);
        let ma = NumberMenu::new(a);
        let mb = NumberMenu::new(b);
        assert_eq!(m.in_range, [ma.in_range.clone(), mb.in_range.clone()].concat());
        assert_eq!(m.ex_range, [ma.ex_range.clone(), mb.ex_range.clone()].concat());
        assert_eq!(m.in_word, [ma.in_word.clone(), mb.in_word.clone()].concat());
        assert_eq!(m.ex_word, [ma.ex_word.clone(), mb.ex_word.clone()].concat());
    }
}
