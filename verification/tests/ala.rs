use paru::ala::{normalize_ala_date, parse_ala_date, pkgver_from_file, DateError};

#[test]
fn ala_listing_dates() {
    assert_eq!(parse_ala_date("05-Jan-2024"), Some("2024/01/05".to_string()));
    assert_eq!(parse_ala_date("31-dec-1999"), Some("1999/12/31".to_string()));
    assert_eq!(parse_ala_date("31-DEC-1999"), Some("1999/12/31".to_string()));
    assert_eq!(parse_ala_date("5-Jan-2024"), None);
    assert_eq!(parse_ala_date("05-Jan-24"), None);
    assert_eq!(parse_ala_date("05-Foo-2024"), None);
    assert_eq!(parse_ala_date("05-Jan-2024-1"), None);
    assert_eq!(parse_ala_date("05-Jan"), None);
    assert_eq!(parse_ala_date(""), None);
    assert_eq!(parse_ala_date("\u{e9}-Jan-2024"), Some("2024/01/\u{e9}".to_string()));
}

#[test]
fn ala_command_line_dates() {
    assert_eq!(normalize_ala_date("2024-12-01"), Ok("2024/12/01".to_string()));
    assert_eq!(normalize_ala_date("2024/1/9"), Ok("2024/01/09".to_string()));
    assert_eq!(normalize_ala_date("09-01-2024"), Ok("2024/01/09".to_string()));
    assert_eq!(normalize_ala_date("9/1/2024"), Ok("2024/01/09".to_string()));
    assert_eq!(normalize_ala_date("0999-001-31"), Ok("0999/01/31".to_string()));
}

#[test]
fn ala_command_line_date_errors() {
    assert_eq!(normalize_ala_date("20241201"), Err(DateError::Format));
    assert_eq!(normalize_ala_date("2024-13-01"), Err(DateError::Format));
    assert_eq!(normalize_ala_date("2024-12-32"), Err(DateError::Format));
    assert_eq!(normalize_ala_date("2024-00-10"), Err(DateError::Format));
    assert_eq!(normalize_ala_date("24-12-01"), Err(DateError::Format));
    assert_eq!(normalize_ala_date("2024-1a-01"), Err(DateError::Format));
    assert_eq!(normalize_ala_date("2024-12-01-02"), Err(DateError::Format));
    assert_eq!(normalize_ala_date("2024-12"), Err(DateError::Format));
    assert_eq!(normalize_ala_date("2024--01"), Err(DateError::EmptyNumber));
    assert_eq!(normalize_ala_date("2024-99999999999-01"), Err(DateError::NumberTooLarge));
    assert_eq!(normalize_ala_date("2024-12-/01"), Err(DateError::Format));
}

#[test]
fn pkgver_from_archive_file_names() {
    assert_eq!(pkgver_from_file("firefox", "firefox-120.0-1-x86_64.pkg.tar.zst"), "120.0-1");
    assert_eq!(pkgver_from_file("linux", "linux-6.6.1.arch1-1-x86_64.pkg.tar.zst.sig"), "6.6.1.arch1-1");
    assert_eq!(pkgver_from_file("foo", "bar-1-any.pkg.tar.xz"), "bar-1");
    assert_eq!(pkgver_from_file("foo", "noarch"), "noarch");
    assert_eq!(pkgver_from_file("a", "a-b"), "a");
}

#[test]
fn normalized_dates_are_fixed_points() {
    for s in ["2024-12-01", "1/2/1999", "0001-1-1", "31/12/2023"] {
        let d = normalize_ala_date(s).unwrap();
        assert_eq!(normalize_ala_date(&d), Ok(d.clone()));
    }
}

#[test]
fn version_round_trips_through_file_name() {
    for (pkg, ver, arch, ext) in [
        ("firefox", "128.0-1", "x86_64", ".zst"),
        ("linux-lts", "6.6.1-2", "any", ".xz"),
        ("a", "1:2.0-3", "i686", ""),
    ] {
        let file = format!("{pkg}-{ver}-{arch}.pkg.tar{ext}");
        assert_eq!(pkgver_from_file(pkg, &file), ver);
    }
}
