//! Decisions of the PKGBUILD security scan: which pattern rules fire on a
//! PKGBUILD, whether it declares checksums, and when a scanned package is
//! considered safe. Scores (floating point) are kept by the caller.

use vstd::prelude::*;

verus! {

/// Risk tiers, from least to most dangerous.
#[derive(Debug, Clone, Copy, PartialEq, Eq, PartialOrd, Ord)]
pub enum Tier {
    Trusted,
    Okay,
    Sketchy,
    Suspicious,
    Malicious,
}

/// Whether `pattern` is a valid regular expression for the `regex` crate.
pub uninterp spec fn regex_compiles(pattern: Seq<char>) -> bool;

/// Whether the regular expression `pattern` matches somewhere in `haystack`.
pub uninterp spec fn regex_finds(pattern: Seq<char>, haystack: Seq<char>) -> bool;

/// `regex::Regex::new`: whether the pattern compiles; the contract names
/// the answer `regex_compiles` and says nothing else of it.
#[verifier::external_body]
fn regex_is_valid(pattern: &str) -> (r: bool)
    ensures
        r == regex_compiles(pattern@),
{
    regex::Regex::new(pattern).is_ok()
}

/// `regex::Regex::is_match` on the regex compiled from `pattern`: whether
/// it matches anywhere in `haystack`; the answer is named `regex_finds`.
#[verifier::external_body]
fn regex_matches(pattern: &str, haystack: &str) -> (r: bool)
    requires
        regex_compiles(pattern@),
    ensures
        r == regex_finds(pattern@, haystack@),
{
    match regex::Regex::new(pattern) {
        Ok(re) => re.is_match(haystack),
        Err(_) => false,
    }
}

/// The indices, in increasing order, of the patterns that do not compile.
pub fn invalid_patterns(patterns: &[String]) -> (r: Vec<usize>)
    ensures
        forall|k: int| 0 <= k < r@.len() ==> r@[k] < patterns@.len(),
        forall|k: int, l: int| 0 <= k < l < r@.len() ==> r@[k] < r@[l],
        forall|i: int|
            0 <= i < patterns@.len() ==> (r@.contains(i as usize) <==> !regex_compiles(
                #[trigger] patterns@[i]@,
            )),
{
    let mut out: Vec<usize> = Vec::new();
    let mut i: usize = 0;
    while i < patterns.len()
        invariant
            i <= patterns@.len(),
            forall|k: int| 0 <= k < out@.len() ==> out@[k] < i,
            forall|k: int, l: int| 0 <= k < l < out@.len() ==> out@[k] < out@[l],
            forall|j: int|
                0 <= j < i ==> (out@.contains(j as usize) <==> !regex_compiles(
                    #[trigger] patterns@[j]@,
                )),
        decreases patterns@.len() - i,
    {
        let ghost before = out@;
        if !regex_is_valid(patterns[i].as_str()) {
            out.push(i);
            assert(out@[out@.len() - 1] == i);
        }
        assert forall|j: int| 0 <= j < i + 1 implies (out@.contains(j as usize) <==> !regex_compiles(
            #[trigger] patterns@[j]@,
        )) by {
            if j < i {
                if before.contains(j as usize) {
                    let k = choose|k: int| 0 <= k < before.len() && before[k] == j as usize;
                    assert(out@[k] == j as usize);
                }
                if out@.contains(j as usize) {
                    let k = choose|k: int| 0 <= k < out@.len() && out@[k] == j as usize;
                    assert(k < before.len());
                    assert(before[k] == j as usize);
                }
            } else {
                if out@.contains(j as usize) {
                    let k = choose|k: int| 0 <= k < out@.len() && out@[k] == j as usize;
                    if k < before.len() {
                        assert(before[k] < i);
                    }
                }
            }
        }
        i = i + 1;
    }
    out
}

/// The indices, in increasing order, of the patterns that match `content`.
pub fn matching_rules(patterns: &[String], content: &str) -> (r: Vec<usize>)
    requires
        forall|i: int| 0 <= i < patterns@.len() ==> regex_compiles(#[trigger] patterns@[i]@),
    ensures
        forall|k: int| 0 <= k < r@.len() ==> r@[k] < patterns@.len(),
        forall|k: int, l: int| 0 <= k < l < r@.len() ==> r@[k] < r@[l],
        forall|i: int|
            0 <= i < patterns@.len() ==> (r@.contains(i as usize) <==> regex_finds(
                #[trigger] patterns@[i]@,
                content@,
            )),
{
    let mut out: Vec<usize> = Vec::new();
    let mut i: usize = 0;
    while i < patterns.len()
        invariant
            i <= patterns@.len(),
            forall|j: int| 0 <= j < patterns@.len() ==> regex_compiles(#[trigger] patterns@[j]@),
            forall|k: int| 0 <= k < out@.len() ==> out@[k] < i,
            forall|k: int, l: int| 0 <= k < l < out@.len() ==> out@[k] < out@[l],
            forall|j: int|
                0 <= j < i ==> (out@.contains(j as usize) <==> regex_finds(
                    #[trigger] patterns@[j]@,
                    content@,
                )),
        decreases patterns@.len() - i,
    {
        let ghost before = out@;
        if regex_matches(patterns[i].as_str(), content) {
            out.push(i);
            assert(out@[out@.len() - 1] == i);
        }
        assert forall|j: int| 0 <= j < i + 1 implies (out@.contains(j as usize) <==> regex_finds(
            #[trigger] patterns@[j]@,
            content@,
        )) by {
            if j < i {
                if before.contains(j as usize) {
                    let k = choose|k: int| 0 <= k < before.len() && before[k] == j as usize;
                    assert(out@[k] == j as usize);
                }
                if out@.contains(j as usize) {
                    let k = choose|k: int| 0 <= k < out@.len() && out@[k] == j as usize;
                    assert(k < before.len());
                    assert(before[k] == j as usize);
                }
            } else {
                if out@.contains(j as usize) {
                    let k = choose|k: int| 0 <= k < out@.len() && out@[k] == j as usize;
                    if k < before.len() {
                        assert(before[k] < i);
                    }
                }
            }
        }
        i = i + 1;
    }
    out
}

/// `marker` occurs in `bytes`.
pub open spec fn contains_bytes(bytes: Seq<u8>, marker: Seq<u8>) -> bool {
    exists|k: int| 0 <= k && k + marker.len() <= bytes.len() && #[trigger] bytes.subrange(k, k + marker.len()) == marker
}

/// The checksum arrays a PKGBUILD may declare.
pub open spec fn checksum_markers() -> Seq<Seq<u8>> {
    seq![
        "sha512sums="@,
        "sha384sums="@,
        "sha256sums="@,
        "sha224sums="@,
        "sha1sums="@,
        "md5sums="@,
        "b2sums="@,
    ].map_values(|m: Seq<char>| vstd::utf8::encode_utf8(m))
}

/// A PKGBUILD declares checksums when some line holds one of the markers
/// `sha512sums=`, `sha384sums=`, `sha256sums=`, `sha224sums=`, `sha1sums=`,
/// `md5sums=`, `b2sums=`. No marker holds a line break, so this is the same
/// as the text holding one of them.
pub open spec fn declares_checksums(content: Seq<char>) -> bool {
    exists|m: int|
        0 <= m < checksum_markers().len() && contains_bytes(
            vstd::utf8::encode_utf8(content),
            #[trigger] checksum_markers()[m],
        )
}

fn bytes_contain(bytes: &[u8], marker: &[u8]) -> (r: bool)
    ensures
        r == contains_bytes(bytes@, marker@),
{
    let n = bytes.len();
    let m = marker.len();
    if m > n {
        return false;
    }
    if m == 0 {
        assert(bytes@.subrange(0, 0 + marker@.len() as int) =~= marker@);
        return true;
    }
    let mut k: usize = 0;
    while k <= n - m
        invariant
            n == bytes@.len(),
            m == marker@.len(),
            0 < m <= n,
            k <= n - m + 1,
            forall|t: int| 0 <= t < k ==> #[trigger] bytes@.subrange(t, t + m) != marker@,
        decreases n - m + 1 - k,
    {
        let mut j: usize = 0;
        let mut same = true;
        while j < m
            invariant
                n == bytes@.len(),
                m == marker@.len(),
                k + m <= n,
                j <= m,
                same ==> forall|t: int| 0 <= t < j ==> bytes@[k + t] == marker@[t],
                !same ==> bytes@.subrange(k as int, k + m) != marker@,
            decreases m - j,
        {
            if bytes[k + j] != marker[j] {
                assert(bytes@.subrange(k as int, k + m)[j as int] != marker@[j as int]);
                same = false;
            }
            j = j + 1;
        }
        if same {
            assert(bytes@.subrange(k as int, k + m) =~= marker@);
            return true;
        }
        k = k + 1;
    }
    false
}

/// Whether a PKGBUILD declares a checksum array.
pub fn has_checksum_array(content: &str) -> (r: bool)
    ensures
        r == declares_checksums(content@),
{
    let bytes = content.as_bytes();
    let markers = [
        "sha512sums=",
        "sha384sums=",
        "sha256sums=",
        "sha224sums=",
        "sha1sums=",
        "md5sums=",
        "b2sums=",
    ];
    let mut i: usize = 0;
    while i < 7
        invariant
            bytes@ == vstd::utf8::encode_utf8(content@),
            i <= 7,
            forall|k: int| 0 <= k < 7 ==> (#[trigger] markers@[k])@ == [
                "sha512sums=",
                "sha384sums=",
                "sha256sums=",
                "sha224sums=",
                "sha1sums=",
                "md5sums=",
                "b2sums=",
            ]@[k]@,
            forall|k: int| 0 <= k < i ==> !contains_bytes(bytes@, #[trigger] checksum_markers()[k]),
        decreases 7 - i,
    {
        assert(checksum_markers()[i as int] == vstd::utf8::encode_utf8(markers@[i as int]@));
        if bytes_contain(bytes, markers[i].as_bytes()) {
            return true;
        }
        i = i + 1;
    }
    false
}

/// A scanned package is safe when its tier is `Trusted` or `Okay` and no
/// signal is of high severity.
pub open spec fn safe_verdict(tier: Tier, has_high_severity: bool) -> bool {
    (tier == Tier::Trusted || tier == Tier::Okay) && !has_high_severity
}

/// Only the two lowest tiers can be safe, and any high-severity signal
/// makes a package unsafe whatever its tier.
pub proof fn law_safe_tiers(tier: Tier, has_high_severity: bool)
    ensures
        safe_verdict(Tier::Trusted, false),
        safe_verdict(Tier::Okay, false),
        !safe_verdict(Tier::Sketchy, has_high_severity),
        !safe_verdict(Tier::Suspicious, has_high_severity),
        !safe_verdict(Tier::Malicious, has_high_severity),
        !safe_verdict(tier, true),
{
}

/// Whether a scanned package is safe to build.
pub fn is_safe(tier: Tier, has_high_severity: bool) -> (r: bool)
    ensures
        r == safe_verdict(tier, has_high_severity),
{
    let low = match tier {
        Tier::Trusted => true,
        Tier::Okay => true,
        _ => false,
    };
    low && !has_high_severity
}

/// Runs the pattern rules on a PKGBUILD, failing closed: when some pattern
/// does not compile, the indices of those patterns (as `invalid_patterns`
/// gives them) are returned instead of any match; otherwise the matching
/// rules (as `matching_rules` gives them).
pub fn scan_patterns(patterns: &[String], content: &str) -> (r: Result<Vec<usize>, Vec<usize>>)
    ensures
        r is Err <==> exists|i: int| 0 <= i < patterns@.len() && !regex_compiles(#[trigger] patterns@[i]@),
        r matches Err(bad) ==> bad@.len() > 0 && forall|k: int, l: int| 0 <= k < l < bad@.len() ==> bad@[k] < bad@[l],
        r matches Err(bad) ==> forall|i: int|
            0 <= i < patterns@.len() ==> (bad@.contains(i as usize) <==> !regex_compiles(#[trigger] patterns@[i]@)),
        r matches Ok(hits) ==> forall|k: int, l: int| 0 <= k < l < hits@.len() ==> hits@[k] < hits@[l],
        r matches Ok(hits) ==> forall|k: int| 0 <= k < hits@.len() ==> hits@[k] < patterns@.len(),
        r matches Ok(hits) ==> forall|i: int|
            0 <= i < patterns@.len() ==> (hits@.contains(i as usize) <==> regex_finds(#[trigger] patterns@[i]@, content@)),
{
    let bad = invalid_patterns(patterns);
    if bad.len() > 0 {
        proof {
            let i = bad@[0] as int;
            assert(bad@.contains(bad@[0]));
            assert(!regex_compiles(patterns@[i]@));
        }
        Err(bad)
    } else {
        proof {
            assert forall|i: int| 0 <= i < patterns@.len() implies regex_compiles(#[trigger] patterns@[i]@) by {
                if !regex_compiles(patterns@[i]@) {
                    assert(bad@.contains(i as usize));
                }
            }
        }
        Ok(matching_rules(patterns, content))
    }
}

proof fn lemma_encode_concat(x: Seq<char>, y: Seq<char>)
    ensures
        vstd::utf8::encode_utf8(x + y) == vstd::utf8::encode_utf8(x) + vstd::utf8::encode_utf8(y),
    decreases x.len(),
{
    if x.len() == 0 {
        assert(x + y =~= y);
        assert(vstd::utf8::encode_utf8(x) =~= Seq::<u8>::empty());
        assert(vstd::utf8::encode_utf8(x) + vstd::utf8::encode_utf8(y) =~= vstd::utf8::encode_utf8(y));
    } else {
        assert((x + y)[0] == x[0]);
        assert((x + y).drop_first() =~= x.drop_first() + y);
        lemma_encode_concat(x.drop_first(), y);
        assert(vstd::utf8::encode_utf8(x + y) =~= vstd::utf8::encode_utf8(x) + vstd::utf8::encode_utf8(y));
    }
}

proof fn lemma_marker_detected(a: Seq<char>, m: Seq<char>, b: Seq<char>, mi: int)
    requires
        0 <= mi < checksum_markers().len(),
        checksum_markers()[mi] == vstd::utf8::encode_utf8(m),
    ensures
        declares_checksums(a + m + b),
{
    let ea = vstd::utf8::encode_utf8(a);
    let em = vstd::utf8::encode_utf8(m);
    let eb = vstd::utf8::encode_utf8(b);
    lemma_encode_concat(a + m, b);
    lemma_encode_concat(a, m);
    let bytes = vstd::utf8::encode_utf8(a + m + b);
    assert(bytes == ea + em + eb);
    let k = ea.len() as int;
    assert(bytes.subrange(k, k + em.len()) =~= em);
    assert(contains_bytes(bytes, checksum_markers()[mi]));
}

/// Each of the seven checksum arrays counts: a PKGBUILD that holds
/// `sha512sums=`, `sha384sums=`, `sha256sums=`, `sha224sums=`, `sha1sums=`,
/// `md5sums=` or `b2sums=` anywhere declares checksums, whatever surrounds it.
pub proof fn law_every_checksum_array_counts(a: Seq<char>, b: Seq<char>)
    ensures
        declares_checksums(a + "sha512sums="@ + b),
        declares_checksums(a + "sha384sums="@ + b),
        declares_checksums(a + "sha256sums="@ + b),
        declares_checksums(a + "sha224sums="@ + b),
        declares_checksums(a + "sha1sums="@ + b),
        declares_checksums(a + "md5sums="@ + b),
        declares_checksums(a + "b2sums="@ + b),
{
    lemma_marker_detected(a, "sha512sums="@, b, 0);
    lemma_marker_detected(a, "sha384sums="@, b, 1);
    lemma_marker_detected(a, "sha256sums="@, b, 2);
    lemma_marker_detected(a, "sha224sums="@, b, 3);
    lemma_marker_detected(a, "sha1sums="@, b, 4);
    lemma_marker_detected(a, "md5sums="@, b, 5);
    lemma_marker_detected(a, "b2sums="@, b, 6);
}

} // verus!
