use paru::ala::DateError;
use paru::downgrade::{
    collect_versions, package_index_url, parse_downgrade_args, pick_on_or_before, repos_from_links,
    repos_from_snapshot, select_one, snapshot_url, sort_newest_first, version_choice, versions_from_listing, AlaPkg,
    DowngradeArgError, DowngradeRequest, ListingError, VersionChoiceError,
};
use paru::menu::NumberMenu;

fn strings(v: &[&str]) -> Vec<String> {
    v.iter().map(|s| s.to_string()).collect()
}

#[test]
fn downgrade_package_with_date() {
    match parse_downgrade_args(&strings(&["--date", "2024-12-01", "-v", "firefox"])) {
        Ok(DowngradeRequest::Package { package, date, args }) => {
            assert_eq!(package, "firefox");
            assert_eq!(date, Some("2024/12/01".to_string()));
            assert_eq!(args, strings(&["-v", "firefox"]));
        }
        other => panic!("unexpected {:?}", other),
    }
}

#[test]
fn downgrade_whole_system() {
    match parse_downgrade_args(&strings(&["--date=01/12/2024", "--noconfirm"])) {
        Ok(DowngradeRequest::System { snapshot, args }) => {
            assert_eq!(snapshot, "2024/12/01");
            assert_eq!(args, strings(&["--noconfirm", "-S", "--repo", "--downgrade", "2024/12/01"]));
        }
        other => panic!("unexpected {:?}", other),
    }
}

#[test]
fn downgrade_argument_errors() {
    assert_eq!(parse_downgrade_args(&strings(&["--date"])).err(), Some(DowngradeArgError::MissingDateValue));
    assert_eq!(
        parse_downgrade_args(&strings(&["--date=2024-13-01", "x"])).err(),
        Some(DowngradeArgError::BadDate(DateError::Format))
    );
    assert_eq!(parse_downgrade_args(&strings(&["a", "b"])).err(), Some(DowngradeArgError::TooManyTargets));
    assert_eq!(parse_downgrade_args(&strings(&["-y"])).err(), Some(DowngradeArgError::NoTarget));
    assert_eq!(parse_downgrade_args(&[]).err(), Some(DowngradeArgError::NoTarget));
}

fn entry(href: &str, day: &str, time: &str, size: &str) -> Vec<String> {
    strings(&[href, day, time, size])
}

#[test]
fn versions_from_listing_lines_and_links() {
    let entries = vec![
        entry("foo-1-1-x86_64.pkg.tar.zst", "05-Jan-2024", "10:20", "1M"),
        entry("foo-2-1-x86_64.pkg.tar.zst", "bad", "11:00", ""),
        entry("foo-1-1-x86_64.pkg.tar.zst", "06-Feb-2024", "12:00", "2M"),
    ];
    let hrefs = vec![
        Some("../".to_string()),
        Some("foo-1-1-x86_64.pkg.tar.zst".to_string()),
        Some("foo-1-1-x86_64.pkg.tar.zst.sig".to_string()),
        None,
        Some("foo-2-1-x86_64.pkg.tar.zst".to_string()),
        Some("foo-3-1-x86_64.pkg.tar.zst".to_string()),
        Some("bar-1-1-x86_64.pkg.tar.zst".to_string()),
    ];
    let v = collect_versions("foo", "https://a/f/foo/", &entries, &hrefs).unwrap();
    assert_eq!(v.len(), 3);
    assert_eq!(v[0].file, "foo-1-1-x86_64.pkg.tar.zst");
    assert_eq!(v[0].url, "https://a/f/foo/foo-1-1-x86_64.pkg.tar.zst");
    assert_eq!(v[0].date, Some("2024/02/06".to_string()));
    assert_eq!(v[0].date_display, Some("2024-02-06 12:00".to_string()));
    assert_eq!(v[0].size, Some("2M".to_string()));
    assert_eq!(v[1].date, None);
    assert_eq!(v[1].date_display, None);
    assert_eq!(v[1].size, None);
    assert_eq!(v[2].date, None);
    assert_eq!(collect_versions("baz", "u", &entries, &hrefs).err(), Some(ListingError::NoVersions));
}

const INDEX: &str = r#"<html><body><pre><a href="../">../</a>
<a href="foo-1-1-x86_64.pkg.tar.zst">foo-1-1-x86_64.pkg.tar.zst</a>                        05-Jan-2024 10:20     123K
<a href="foo-1-1-x86_64.pkg.tar.zst.sig">foo-1-1-x86_64.pkg.tar.zst.sig</a>                    05-Jan-2024 10:20      310
<a href="foo-2-1-x86_64.pkg.tar.zst">foo-2-1-x86_64.pkg.tar.zst</a>                        07-Mar-2024 08:00     125K
</pre></body></html>"#;

#[test]
fn versions_from_an_index_page() {
    let v = versions_from_listing("foo", "https://archive.archlinux.org/packages/f/foo/", INDEX).unwrap();
    assert_eq!(v.len(), 2);
    assert_eq!(v[0].date, Some("2024/01/05".to_string()));
    assert_eq!(v[0].date_display, Some("2024-01-05 10:20".to_string()));
    assert_eq!(v[0].size, Some("123K".to_string()));
    assert_eq!(v[1].url, "https://archive.archlinux.org/packages/f/foo/foo-2-1-x86_64.pkg.tar.zst");
    assert_eq!(v[1].date, Some("2024/03/07".to_string()));
    assert_eq!(versions_from_listing("bar", "u", INDEX).err(), Some(ListingError::NoVersions));
}

#[test]
fn repositories_of_a_snapshot() {
    let hrefs = vec![
        Some("../".to_string()),
        Some("Core/".to_string()),
        Some("extra//".to_string()),
        Some("core/".to_string()),
        Some("README".to_string()),
        Some("/".to_string()),
        None,
    ];
    assert_eq!(repos_from_links(&hrefs).unwrap(), strings(&["core", "extra"]));
    assert_eq!(repos_from_links(&[Some("../".to_string())]).err(), Some(ListingError::NoVersions));
    let page = r#"<pre><a href="../">../</a> <a href="core/">core/</a> <a href="multilib/">multilib/</a></pre>"#;
    assert_eq!(repos_from_snapshot(page).unwrap(), strings(&["core", "multilib"]));
}

#[test]
fn archive_addresses() {
    assert_eq!(snapshot_url("2024/12/01"), "https://archive.archlinux.org/repos/2024/12/01/");
    assert_eq!(
        package_index_url("Firefox"),
        Some("https://archive.archlinux.org/packages/f/Firefox/".to_string())
    );
    assert_eq!(package_index_url(""), None);
}

fn pkg(file: &str, date: Option<&str>) -> AlaPkg {
    AlaPkg {
        file: file.to_string(),
        url: format!("u/{}", file),
        date: date.map(|d| d.to_string()),
        date_display: None,
        size: None,
    }
}

#[test]
fn versions_sorted_newest_first_and_picked_by_date() {
    let mut v = vec![
        pkg("a-1", Some("2024/01/05")),
        pkg("a-3", None),
        pkg("a-2", Some("2024/03/01")),
        pkg("a-0", Some("2024/01/05")),
    ];
    sort_newest_first(&mut v);
    let files: Vec<&str> = v.iter().map(|p| p.file.as_str()).collect();
    assert_eq!(files, vec!["a-2", "a-1", "a-0", "a-3"]);
    assert_eq!(pick_on_or_before(&v, "2024/02/01"), Some(1));
    assert_eq!(pick_on_or_before(&v, "2024/03/01"), Some(0));
    assert_eq!(pick_on_or_before(&v, "2023/12/31"), None);
}

#[test]
fn menu_selects_exactly_one_version() {
    assert_eq!(select_one(&NumberMenu::new("2"), 3), Some(1));
    assert_eq!(select_one(&NumberMenu::new("2-3"), 3), None);
    assert_eq!(select_one(&NumberMenu::new("9"), 3), None);
    assert_eq!(select_one(&NumberMenu::new("^1 ^2"), 3), Some(2));
}

#[test]
fn version_choice_by_date_answer_or_default() {
    let v = vec![
        pkg("a-2", Some("2024/03/01")),
        pkg("a-1", Some("2024/01/05")),
        pkg("a-0", None),
    ];
    assert_eq!(version_choice(&v, Some("2024/02/01"), None), Ok(1));
    assert_eq!(version_choice(&v, Some("2023/01/01"), None), Err(VersionChoiceError::NoneOnOrBefore));
    assert_eq!(version_choice(&v, None, None), Ok(0));
    assert_eq!(version_choice(&v, None, Some("   ")), Ok(0));
    assert_eq!(version_choice(&v, None, Some("3")), Ok(2));
    assert_eq!(version_choice(&v, None, Some("1-2")), Err(VersionChoiceError::NotExactlyOne));
    assert_eq!(version_choice(&v, None, Some("7")), Err(VersionChoiceError::NotExactlyOne));
    assert_eq!(version_choice(&[], None, None), Err(VersionChoiceError::NoVersions));
    assert_eq!(version_choice(&[], Some("2024/01/01"), Some("1")), Err(VersionChoiceError::NoVersions));
}
