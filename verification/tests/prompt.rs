use paru::prompt::{confirm_answer, confirm_lowered, history_log_file, provider_choice, ProviderChoice};

#[test]
fn yes_no_answers() {
    assert!(confirm_answer("y\n", false));
    assert!(confirm_answer("  YES \n", false));
    assert!(confirm_answer("Yes", false));
    assert!(!confirm_answer("n\n", true));
    assert!(!confirm_answer("yess", true));
    assert!(confirm_answer("\n", true));
    assert!(!confirm_answer("", false));
    assert!(confirm_answer(" \t\u{3000}", true));
}

#[test]
fn provider_prompt_lines() {
    assert_eq!(provider_choice("\n", 3), ProviderChoice::Chosen(0));
    assert_eq!(provider_choice(" 2 \n", 3), ProviderChoice::Chosen(1));
    assert_eq!(provider_choice("3", 3), ProviderChoice::Chosen(2));
    assert_eq!(provider_choice("4", 3), ProviderChoice::OutOfRange(4));
    assert_eq!(provider_choice("0", 3), ProviderChoice::OutOfRange(0));
    assert_eq!(provider_choice("two", 3), ProviderChoice::NotANumber);
    assert_eq!(provider_choice("-1", 3), ProviderChoice::NotANumber);
}

#[test]
fn history_log_choice() {
    let keys = vec!["logfile".to_string(), "dbpath".to_string(), "logfile".to_string()];
    let values = vec![Some("/a.log".to_string()), Some("/db".to_string()), Some("/b.log".to_string())];
    assert_eq!(history_log_file(&keys, &values, "/var/log/pacman.log"), "/b.log");
    let values = vec![Some("/a.log".to_string()), Some("/db".to_string()), None];
    assert_eq!(history_log_file(&keys, &values, "/var/log/pacman.log"), "/var/log/pacman.log");
    assert_eq!(history_log_file(&[], &[], "/d"), "/d");
}

#[test]
fn lowered_yes_no_answers() {
    assert!(confirm_lowered(" yes\n", false));
    assert!(confirm_lowered("y", false));
    assert!(!confirm_lowered("Y", false));
    assert!(!confirm_lowered("no", true));
    assert!(confirm_lowered("  ", true));
    assert!(!confirm_lowered("", false));
}
