use paru::targets::{split_repo_aur_info, split_repo_aur_targets, TargetModes, 
    apply_repo_typo_tolerance, depend_args, is_arch_repo, parse_target, pkg_lookup, split_repo_aur_pkgs,
    PkgLookup, Subcommand, pkg_base_or_name, repo_aur_pkgs,
};

fn strings(v: &[&str]) -> Vec<String> {
    v.iter().map(|s| s.to_string()).collect()
}

#[test]
fn arch_repos_are_recognised() {
    for r in [
        "testing",
        "community-testing",
        "core",
        "extra",
        "community",
        "multilib",
        "core-testing",
        "extra-testing",
        "multilib-testing",
    ] {
        assert!(is_arch_repo(r));
    }
    assert!(!is_arch_repo("chaotic-aur"));
    assert!(!is_arch_repo("Core"));
    assert!(!is_arch_repo(""));
}

#[test]
fn targets_split_at_slash() {
    assert_eq!(parse_target("extra/firefox"), (Some("extra"), "firefox"));
    assert_eq!(parse_target("firefox"), (None, "firefox"));
    assert_eq!(parse_target("a/b/c"), (Some("a"), "b"));
    assert_eq!(parse_target("/x"), (Some(""), "x"));
}

#[test]
fn depend_lookup_places() {
    assert_eq!(pkg_lookup("local/vim"), PkgLookup::Local("vim"));
    assert_eq!(pkg_lookup("core/vim"), PkgLookup::Repo("core", "vim"));
    assert_eq!(pkg_lookup("vim"), PkgLookup::Any("vim"));
    assert_eq!(Subcommand::Depend, Subcommand::Depend);
    assert_ne!(Subcommand::Depend, Subcommand::Provide);
}

#[test]
fn split_packages_between_repos_and_aur() {
    let pkgs = strings(&["a", "b", "c", "d"]);
    let (repo, aur) = split_repo_aur_pkgs(&pkgs, &[true, false, false, true], &[false, true, false, true], false);
    assert_eq!(repo, strings(&["a", "d"]));
    assert_eq!(aur, strings(&["b"]));
    let (repo, aur) = split_repo_aur_pkgs(&pkgs, &[true, false, false, true], &[false, true, false, true], true);
    assert_eq!(repo, strings(&["a", "d"]));
    assert_eq!(aur, strings(&["b", "c"]));
}

#[test]
fn typo_tolerance_corrects_only_unresolved_plain_targets() {
    let names = vec!["cassette", "cartridge"];
    let mut targets = strings(&["casete", "core/casete", "cartrige", "unknownpkg"]);
    apply_repo_typo_tolerance(true, &mut targets, &[false, false, true, false], &names, 85);
    assert_eq!(targets, strings(&["cassette", "core/casete", "cartrige", "unknownpkg"]));
}

#[test]
fn typo_tolerance_off_outside_repo_mode() {
    let names = vec!["cassette"];
    let mut targets = strings(&["casete"]);
    apply_repo_typo_tolerance(false, &mut targets, &[false], &names, 85);
    assert_eq!(targets, strings(&["casete"]));
}

#[test]
fn depend_arguments() {
    let args = strings(&["-q", "vim", "--dbpath", "emacs"]);
    let (pacman, targets) = depend_args(&args).unwrap();
    assert_eq!(pacman, strings(&["-Q", "-q", "--dbpath"]));
    assert_eq!(targets, strings(&["vim", "emacs"]));
    assert_eq!(depend_args(&strings(&["-q"])), None);
    assert_eq!(depend_args(&[]), None);
}

#[test]
fn targets_split_by_mode_and_repository() {
    let all = TargetModes { repo: true, aur: true, pkgbuild: false };
    let targets = ["core/vim", "aur/yay", "mypkgs/foo", "./local", "other/x", "firefox", "yay"];
    let found = [false, false, false, false, false, true, false];
    let (repo, aur) = split_repo_aur_targets(all, &targets, &["core", "extra"], &["mypkgs"], "aur", &found);
    assert_eq!(repo, vec!["core/vim", "other/x", "firefox"]);
    assert_eq!(aur, vec!["aur/yay", "mypkgs/foo", "./local", "yay"]);
    let repo_only = TargetModes { repo: true, aur: false, pkgbuild: false };
    let (repo, aur) = split_repo_aur_targets(repo_only, &targets, &["core"], &[], "aur", &found);
    assert_eq!(repo.len(), targets.len());
    assert!(aur.is_empty());
    let aur_only = TargetModes { repo: false, aur: true, pkgbuild: true };
    let (repo, aur) = split_repo_aur_targets(aur_only, &targets, &["core"], &[], "aur", &found);
    assert!(repo.is_empty());
    assert_eq!(aur.len(), targets.len());
    let (repo, aur) = split_repo_aur_info(all, &targets, &["core", "extra"], &found);
    assert_eq!(repo, vec!["core/vim", "firefox"]);
    assert_eq!(aur, vec!["aur/yay", "mypkgs/foo", "./local", "other/x", "yay"]);
}

#[test]
fn package_base_or_name() {
    assert_eq!(pkg_base_or_name(Some("linux"), "linux-headers"), "linux");
    assert_eq!(pkg_base_or_name(None, "vim"), "vim");
}

#[test]
fn installed_packages_split_by_origin() {
    let (repo, aur) = repo_aur_pkgs(true, &["a", "b"], &["c"], &["x", "y"], &[true, false]);
    assert_eq!(repo, vec!["a", "b"]);
    assert_eq!(aur, vec!["c"]);
    let (repo, aur) = repo_aur_pkgs(false, &["a", "b"], &["c"], &["x", "y", "z"], &[true, false, true]);
    assert_eq!(repo, vec!["x", "z"]);
    assert_eq!(aur, vec!["y"]);
}

#[test]
fn typo_tolerance_above_full_similarity_changes_nothing() {
    let names = ["cassette"];
    let mut targets = strings(&["casete"]);
    apply_repo_typo_tolerance(true, &mut targets, &[false], &names, 120);
    assert_eq!(targets, strings(&["casete"]));
    let mut targets = strings(&["casete"]);
    apply_repo_typo_tolerance(true, &mut targets, &[false], &[], 200);
    assert_eq!(targets, strings(&["casete"]));
}
