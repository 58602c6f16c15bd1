//! The `downgrade` subcommand: its arguments, the archive listings it
//! reads, and the choice of the version to install.

use vstd::prelude::*;
use vstd::string::*;
use vstd::utf8::encode_utf8;
use crate::ala::{DateError, ala_listing_date, normalize_ala_date, normalized_ala_date, parse_ala_date};
use crate::scan::regex_compiles;
use crate::menu::{MenuSpec, NumberMenu, menu_contains, menu_fits, menu_of};
use crate::text::{trim, trimmed, lemma_bytes_lt_irreflexive, lemma_bytes_lt_transitive, str_lt, text_lt, char_to_ascii_lowercase, lower_char, lower_seq, to_ascii_lowercase, find_seq_from, find_str, occurs_at, occurs_at_exec, push_char, str_eq};
use crate::targets::string_views;

verus! {

broadcast use vstd::string::group_string_axioms;

/// Why the arguments of `downgrade` were refused.
#[derive(Debug, Clone, Copy, PartialEq, Eq)]
pub enum DowngradeArgError {
    /// `--date` is the last argument.
    MissingDateValue,
    /// The date is not one the archive can be asked for.
    BadDate(DateError),
    /// More than one package was named.
    TooManyTargets,
    /// No package was named and no date was given.
    NoTarget,
}

/// What `downgrade` was asked to do, with the arguments to hand to pacman's
/// argument parser.
#[derive(Debug)]
pub enum DowngradeRequest {
    /// Downgrade one package, to the newest archived version on or before
    /// `date` when a date is given.
    Package { package: String, date: Option<String>, args: Vec<String> },
    /// Roll the repository packages back to the archive snapshot of `date`.
    System { snapshot: String, args: Vec<String> },
}

/// The arguments read so far.
pub struct DowngradeState {
    pub date: Option<Seq<char>>,
    pub package: Option<Seq<char>>,
    pub forwarded: Seq<Seq<char>>,
}

pub open spec fn has_prefix(s: Seq<char>, p: Seq<char>) -> bool {
    occurs_at(s, p, 0)
}

/// Reads the arguments from index `i` on, from the state `st`: `--date V`
/// and `--date=V` set the date, other arguments that start with `-` are
/// forwarded, and the first other argument is the package.
pub open spec fn downgrade_scan(args: Seq<Seq<char>>, i: nat, st: DowngradeState) -> Result<
    DowngradeState,
    DowngradeArgError,
>
    decreases args.len() - i,
{
    if i >= args.len() {
        Ok(st)
    } else {
        let a = args[i as int];
        if a == "--date"@ {
            if i + 1 >= args.len() {
                Err(DowngradeArgError::MissingDateValue)
            } else {
                match normalized_ala_date(args[i + 1 as int]) {
                    Err(e) => Err(DowngradeArgError::BadDate(e)),
                    Ok(d) => downgrade_scan(args, i + 2, DowngradeState { date: Some(d), ..st }),
                }
            }
        } else if has_prefix(a, "--date="@) {
            match normalized_ala_date(a.skip(7)) {
                Err(e) => Err(DowngradeArgError::BadDate(e)),
                Ok(d) => downgrade_scan(args, i + 1, DowngradeState { date: Some(d), ..st }),
            }
        } else if a.len() > 0 && a[0] == '-' {
            downgrade_scan(args, i + 1, DowngradeState { forwarded: st.forwarded.push(a), ..st })
        } else if st.package is None {
            downgrade_scan(args, i + 1, DowngradeState { package: Some(a), ..st })
        } else {
            Err(DowngradeArgError::TooManyTargets)
        }
    }
}

proof fn lemma_scan_same_tail(
    args1: Seq<Seq<char>>,
    i: nat,
    args2: Seq<Seq<char>>,
    j: nat,
    st: DowngradeState,
)
    requires
        i <= args1.len(),
        j <= args2.len(),
        args1.skip(i as int) == args2.skip(j as int),
    ensures
        downgrade_scan(args1, i, st) == downgrade_scan(args2, j, st),
    decreases args1.len() - i,
{
    assert(args1.len() - i == args2.len() - j) by {
        assert(args1.skip(i as int).len() == args2.skip(j as int).len());
    }
    if i < args1.len() {
        assert(args1[i as int] == args1.skip(i as int)[0]);
        assert(args2[j as int] == args2.skip(j as int)[0]);
        assert(args1.skip(i + 1 as int) =~= args1.skip(i as int).skip(1));
        assert(args2.skip(j + 1 as int) =~= args2.skip(j as int).skip(1));
        let a = args1[i as int];
        if a == "--date"@ && i + 1 < args1.len() {
            assert(args1[i + 1 as int] == args1.skip(i as int)[1]);
            assert(args2[j + 1 as int] == args2.skip(j as int)[1]);
            assert(args1.skip(i + 2 as int) =~= args1.skip(i as int).skip(2));
            assert(args2.skip(j + 2 as int) =~= args2.skip(j as int).skip(2));
            match normalized_ala_date(args1[i + 1 as int]) {
                Ok(d) => {
                    lemma_scan_same_tail(args1, i + 2, args2, j + 2, DowngradeState { date: Some(d), ..st });
                },
                Err(_) => {},
            }
        } else if a == "--date"@ {
        } else if has_prefix(a, "--date="@) {
            match normalized_ala_date(a.skip(7)) {
                Ok(d) => {
                    lemma_scan_same_tail(args1, i + 1, args2, j + 1, DowngradeState { date: Some(d), ..st });
                },
                Err(_) => {},
            }
        } else if a.len() > 0 && a[0] == '-' {
            lemma_scan_same_tail(args1, i + 1, args2, j + 1, DowngradeState { forwarded: st.forwarded.push(a), ..st });
        } else if st.package is None {
            lemma_scan_same_tail(args1, i + 1, args2, j + 1, DowngradeState { package: Some(a), ..st });
        }
    }
}

/// Where an option stands does not matter: an argument `o` that starts with
/// `-` (and is not `--date`) is forwarded whether it comes before or after
/// the package `p`, so swapping the two gives the same result; in
/// particular `downgrade <pkg> <opt> ...` and `downgrade <opt> <pkg> ...`
/// make the same request.
pub proof fn law_option_position_irrelevant(
    xs: Seq<Seq<char>>,
    p: Seq<char>,
    o: Seq<char>,
    rest: Seq<Seq<char>>,
    st: DowngradeState,
)
    requires
        !(p.len() > 0 && p[0] == '-'),
        o.len() > 0 && o[0] == '-',
        o != "--date"@,
        !has_prefix(o, "--date="@),
        st.package is None,
    ensures
        downgrade_scan(xs + seq![p, o] + rest, xs.len(), st) == downgrade_scan(xs + seq![o, p] + rest, xs.len(), st),
        downgrade_request(seq![p, o] + rest) == downgrade_request(seq![o, p] + rest),
{
    reveal_strlit("--date");
    reveal_strlit("--date=");
    let n = xs.len();
    let args1 = xs + seq![p, o] + rest;
    let args2 = xs + seq![o, p] + rest;
    assert(args1[n as int] == p && args1[n + 1 as int] == o);
    assert(args2[n as int] == o && args2[n + 1 as int] == p);
    assert(p != "--date"@);
    assert(!has_prefix(p, "--date="@)) by {
        if has_prefix(p, "--date="@) {
            assert(p.subrange(0, 7)[0] == p[0]);
        }
    }
    let after = DowngradeState { date: st.date, package: Some(p), forwarded: st.forwarded.push(o) };
    assert(args1.skip(n + 2 as int) =~= args2.skip(n + 2 as int));
    lemma_scan_same_tail(args1, n + 2, args2, n + 2, after);
    assert(downgrade_scan(args1, n + 1, DowngradeState { package: Some(p), ..st }) == downgrade_scan(args1, n + 2, after));
    assert(downgrade_scan(args2, n + 1, DowngradeState { forwarded: st.forwarded.push(o), ..st }) == downgrade_scan(args2, n + 2, after));
    law_option_position_irrelevant_scan(p, o, rest);
}

proof fn law_option_position_irrelevant_scan(p: Seq<char>, o: Seq<char>, rest: Seq<Seq<char>>)
    requires
        !(p.len() > 0 && p[0] == '-'),
        o.len() > 0 && o[0] == '-',
        o != "--date"@,
        !has_prefix(o, "--date="@),
    ensures
        downgrade_scan(seq![p, o] + rest, 0, downgrade_start()) == downgrade_scan(seq![o, p] + rest, 0, downgrade_start()),
{
    reveal_strlit("--date");
    reveal_strlit("--date=");
    let args1 = seq![p, o] + rest;
    let args2 = seq![o, p] + rest;
    let st = downgrade_start();
    assert(args1[0] == p && args1[1] == o);
    assert(args2[0] == o && args2[1] == p);
    assert(p != "--date"@);
    assert(!has_prefix(p, "--date="@)) by {
        if has_prefix(p, "--date="@) {
            assert(p.subrange(0, 7)[0] == p[0]);
        }
    }
    let after = DowngradeState { date: st.date, package: Some(p), forwarded: st.forwarded.push(o) };
    assert(args1.skip(2) =~= args2.skip(2));
    lemma_scan_same_tail(args1, 2, args2, 2, after);
    assert(downgrade_scan(args1, 1, DowngradeState { package: Some(p), ..st }) == downgrade_scan(args1, 2, after));
    assert(downgrade_scan(args2, 1, DowngradeState { forwarded: st.forwarded.push(o), ..st }) == downgrade_scan(args2, 2, after));
}

pub open spec fn downgrade_start() -> DowngradeState {
    DowngradeState { date: None, package: None, forwarded: seq![] }
}

/// The request for `downgrade` with these arguments: with a package, its
/// pacman arguments are the forwarded ones and the package; without one, a
/// date is needed and the pacman arguments are the forwarded ones followed by
/// `-S --repo --downgrade <date>`.
pub open spec fn downgrade_request(args: Seq<Seq<char>>) -> Result<
    (Option<Seq<char>>, Option<Seq<char>>, Seq<Seq<char>>),
    DowngradeArgError,
> {
    match downgrade_scan(args, 0, downgrade_start()) {
        Err(e) => Err(e),
        Ok(st) => match st.package {
            Some(p) => Ok((Some(p), st.date, st.forwarded.push(p))),
            None => match st.date {
                Some(d) => Ok(
                    (
                        None,
                        Some(d),
                        st.forwarded + seq!["-S"@, "--repo"@, "--downgrade"@, d],
                    ),
                ),
                None => Err(DowngradeArgError::NoTarget),
            },
        },
    }
}

/// The view of a request: (package, date, pacman arguments).
pub open spec fn request_view(r: DowngradeRequest) -> (Option<Seq<char>>, Option<Seq<char>>, Seq<Seq<char>>) {
    match r {
        DowngradeRequest::Package { package, date, args } => (
            Some(package@),
            match date {
                Some(d) => Some(d@),
                None => None,
            },
            string_views(args@),
        ),
        DowngradeRequest::System { snapshot, args } => (None, Some(snapshot@), string_views(args@)),
    }
}

fn string_of(s: &str) -> (r: String)
    ensures
        r@ == s@,
{
    String::from_str(s)
}

/// Reads the arguments of `downgrade`.
#[verifier::spinoff_prover]
#[verifier::rlimit(40)]
pub fn parse_downgrade_args(args: &[String]) -> (r: Result<DowngradeRequest, DowngradeArgError>)
    ensures
        r matches Ok(req) ==> downgrade_request(string_views(args@)) == Ok::<
            (Option<Seq<char>>, Option<Seq<char>>, Seq<Seq<char>>),
            DowngradeArgError,
        >(request_view(req)),
        r matches Err(e) ==> downgrade_request(string_views(args@)) == Err::<
            (Option<Seq<char>>, Option<Seq<char>>, Seq<Seq<char>>),
            DowngradeArgError,
        >(e),
{
    let ghost sargs = string_views(args@);
    let mut date: Option<String> = None;
    let mut package: Option<String> = None;
    let mut forwarded: Vec<String> = Vec::new();
    let mut i: usize = 0;
    assert(string_views(forwarded@) =~= Seq::<Seq<char>>::empty());
    while i < args.len()
        invariant
            sargs == string_views(args@),
            i <= args@.len(),
            downgrade_scan(sargs, i as nat, DowngradeState {
                date: match date { Some(d) => Some(d@), None => None },
                package: match package { Some(p) => Some(p@), None => None },
                forwarded: string_views(forwarded@),
            }) == downgrade_scan(sargs, 0, downgrade_start()),
        decreases args@.len() - i,
    {
        let arg = args[i].as_str();
        assert(sargs[i as int] == arg@);
        let ghost fwd = string_views(forwarded@);
        if str_eq(arg, "--date") {
            if i + 1 >= args.len() {
                return Err(DowngradeArgError::MissingDateValue);
            }
            assert(sargs[i + 1] == args@[i + 1]@);
            match normalize_ala_date(args[i + 1].as_str()) {
                Ok(d) => {
                    date = Some(d);
                },
                Err(e) => {
                    return Err(DowngradeArgError::BadDate(e));
                },
            }
            i = i + 2;
        } else if occurs_at_exec(arg, "--date=", 0) {
            proof {
                reveal_strlit("--date=");
                assert("--date="@.len() == 7);
            }
            let rest = arg.substring_char(7, arg.unicode_len());
            assert(rest@ =~= arg@.skip(7));
            match normalize_ala_date(rest) {
                Ok(d) => {
                    date = Some(d);
                },
                Err(e) => {
                    return Err(DowngradeArgError::BadDate(e));
                },
            }
            i = i + 1;
        } else if arg.unicode_len() > 0 && arg.get_char(0) == '-' {
            forwarded.push(string_of(arg));
            assert(string_views(forwarded@) =~= fwd.push(arg@));
            i = i + 1;
        } else if package.is_none() {
            package = Some(string_of(arg));
            i = i + 1;
        } else {
            return Err(DowngradeArgError::TooManyTargets);
        }
    }
    let ghost fwd = string_views(forwarded@);
    match package {
        Some(p) => {
            forwarded.push(p.clone());
            assert(string_views(forwarded@) =~= fwd.push(p@));
            Ok(DowngradeRequest::Package { package: p, date, args: forwarded })
        },
        None => match date {
            Some(d) => {
                forwarded.push(string_of("-S"));
                forwarded.push(string_of("--repo"));
                forwarded.push(string_of("--downgrade"));
                forwarded.push(d.clone());
                assert(string_views(forwarded@) =~= fwd + seq!["-S"@, "--repo"@, "--downgrade"@, d@]);
                Ok(DowngradeRequest::System { snapshot: d, args: forwarded })
            },
            None => Err(DowngradeArgError::NoTarget),
        },
    }
}

/// The texts of the capture groups 1, 2, ... of each successive match of the
/// regular expression `pattern` in `haystack` (an empty text for a group that
/// took no part in the match).
pub uninterp spec fn regex_capture_groups(pattern: Seq<char>, haystack: Seq<char>) -> Seq<Seq<Seq<char>>>;

/// Whether `selector` is a CSS selector that `scraper` can parse.
pub uninterp spec fn css_selector_parses(selector: Seq<char>) -> bool;

/// The values of attribute `attr` (when present) of the elements that the
/// CSS selector `selector` picks in the HTML fragment `html`, in document order.
pub uninterp spec fn html_selected_attrs(html: Seq<char>, selector: Seq<char>, attr: Seq<char>) -> Seq<Option<Seq<char>>>;

pub open spec fn nested_views(v: Seq<Vec<String>>) -> Seq<Seq<Seq<char>>> {
    Seq::new(v.len(), |i: int| string_views(v[i]@))
}

pub open spec fn option_views(v: Seq<Option<String>>) -> Seq<Option<Seq<char>>> {
    Seq::new(v.len(), |i: int| match v[i] { Some(s) => Some(s@), None => None })
}

/// `regex::Regex::new` then `Regex::captures_iter`: for every match, the
/// texts of its capture groups after the whole match (`""` for a group
/// that did not participate); `None` exactly when the pattern does not
/// compile (`regex_compiles`). The groups of the matches are named
/// `regex_capture_groups`.
#[verifier::external_body]
fn regex_captures(pattern: &str, haystack: &str) -> (r: Option<Vec<Vec<String>>>)
    ensures
        r is None <==> !regex_compiles(pattern@),
        r matches Some(v) ==> nested_views(v@) == regex_capture_groups(pattern@, haystack@),
{
    let re = regex::Regex::new(pattern).ok()?;
    let mut out = Vec::new();
    for caps in re.captures_iter(haystack) {
        out.push(caps.iter().skip(1).map(|m| m.map(|m| m.as_str().to_string()).unwrap_or_default()).collect());
    }
    Some(out)
}

/// `scraper::Html::parse_fragment`, `scraper::Selector::parse`, `Html::select`
/// and `Element::attr`: the values of attribute `attr` of the elements that
/// `selector` picks in the fragment, in document order; `None` exactly when
/// the selector does not parse (named `css_selector_parses`). The values are
/// named `html_selected_attrs`.
#[verifier::external_body]
fn html_select_attrs(html: &str, selector: &str, attr: &str) -> (r: Option<Vec<Option<String>>>)
    ensures
        r is None <==> !css_selector_parses(selector@),
        r matches Some(v) ==> option_views(v@) == html_selected_attrs(html@, selector@, attr@),
{
    let doc = scraper::Html::parse_fragment(html);
    let sel = scraper::Selector::parse(selector).ok()?;
    Some(doc.select(&sel).map(|e| e.value().attr(attr).map(|a| a.to_string())).collect())
}

/// One archived file of a package.
#[derive(Debug, Clone)]
pub struct AlaPkg {
    pub file: String,
    pub url: String,
    /// `YYYY/MM/DD`, when the listing gives a date.
    pub date: Option<String>,
    /// `YYYY-MM-DD HH:MM`, when the listing gives a date and a time.
    pub date_display: Option<String>,
    pub size: Option<String>,
}

pub open spec fn opt_view(o: Option<String>) -> Option<Seq<char>> {
    match o {
        Some(s) => Some(s@),
        None => None,
    }
}

/// The view of an archived file: (file, url, date, date shown, size).
pub open spec fn ala_pkg_view(p: AlaPkg) -> (Seq<char>, Seq<char>, Option<Seq<char>>, Option<Seq<char>>, Option<Seq<char>>) {
    (p.file@, p.url@, opt_view(p.date), opt_view(p.date_display), opt_view(p.size))
}

pub open spec fn ala_pkg_views(v: Seq<AlaPkg>) -> Seq<(Seq<char>, Seq<char>, Option<Seq<char>>, Option<Seq<char>>, Option<Seq<char>>)> {
    Seq::new(v.len(), |i: int| ala_pkg_view(v[i]))
}

/// Group `k` of a listing entry, or the empty text.
pub open spec fn entry_field(e: Seq<Seq<char>>, k: int) -> Seq<char> {
    if 0 <= k < e.len() {
        e[k]
    } else {
        seq![]
    }
}

/// The index of the last of the first `n` listing entries for `href`.
pub open spec fn last_entry_for(entries: Seq<Seq<Seq<char>>>, href: Seq<char>, n: nat) -> Option<int>
    decreases n,
{
    if n == 0 || n > entries.len() {
        None
    } else if href.len() > 0 && entry_field(entries[n - 1], 0) == href {
        Some(n - 1)
    } else {
        last_entry_for(entries, href, (n - 1) as nat)
    }
}

pub open spec fn slash_to_dash(s: Seq<char>) -> Seq<char> {
    s.map_values(|c: char| if c == '/' { '-' } else { c })
}

/// The date, shown date and size that a listing entry `(href, day, time, size)` gives.
pub open spec fn entry_meta(e: Seq<Seq<char>>) -> (Option<Seq<char>>, Option<Seq<char>>, Option<Seq<char>>) {
    let iso = ala_listing_date(entry_field(e, 1));
    let time = entry_field(e, 2);
    let size = entry_field(e, 3);
    (
        iso,
        match iso {
            Some(d) => if time.len() > 0 { Some(slash_to_dash(d) + seq![' '] + time) } else { None },
            None => None,
        },
        if size.len() > 0 { Some(size) } else { None },
    )
}

/// A link names a package file of `pkg`: it starts with `pkg`, holds
/// `.pkg.tar` and is not a signature.
pub open spec fn is_package_file(pkg: Seq<char>, href: Seq<char>) -> bool {
    &&& has_prefix(href, pkg)
    &&& find_seq_from(href, ".pkg.tar"@, 0) < href.len()
    &&& !occurs_at(href, ".sig"@, href.len() - 4)
}

/// The archived files listed in the first `n` links of an index page.
pub open spec fn listed_versions(
    pkg: Seq<char>,
    index_url: Seq<char>,
    entries: Seq<Seq<Seq<char>>>,
    hrefs: Seq<Option<Seq<char>>>,
    n: nat,
) -> Seq<(Seq<char>, Seq<char>, Option<Seq<char>>, Option<Seq<char>>, Option<Seq<char>>)>
    decreases n,
{
    if n == 0 || n > hrefs.len() {
        seq![]
    } else {
        let prev = listed_versions(pkg, index_url, entries, hrefs, (n - 1) as nat);
        match hrefs[n - 1] {
            Some(href) => if is_package_file(pkg, href) {
                let meta = match last_entry_for(entries, href, entries.len()) {
                    Some(j) => entry_meta(entries[j]),
                    None => (None, None, None),
                };
                prev.push((href, index_url + href, meta.0, meta.1, meta.2))
            } else {
                prev
            },
            None => prev,
        }
    }
}

/// Why no version could be offered.
#[derive(Debug, Clone, Copy, PartialEq, Eq)]
pub enum ListingError {
    /// The archive lists no file of the package.
    NoVersions,
    /// The listing could not be read.
    Unreadable,
}

fn last_entry_index(entries: &[Vec<String>], href: &str) -> (r: Option<usize>)
    ensures
        r matches Some(j) ==> j < entries@.len(),
        r matches Some(j) ==> last_entry_for(nested_views(entries@), href@, entries@.len()) == Some(j as int),
        r is None ==> last_entry_for(nested_views(entries@), href@, entries@.len()) is None,
{
    let ghost ev = nested_views(entries@);
    if href.unicode_len() == 0 {
        proof {
            lemma_no_entry_for_empty(ev, href@, entries@.len() as nat);
        }
        return None;
    }
    let mut i: usize = entries.len();
    while i > 0
        invariant
            ev == nested_views(entries@),
            i <= entries@.len(),
            href@.len() > 0,
            last_entry_for(ev, href@, i as nat) == last_entry_for(ev, href@, entries@.len() as nat),
        decreases i,
    {
        let e = &entries[i - 1];
        assert(ev[i - 1] == string_views(e@));
        if e.len() > 0 && str_eq(e[0].as_str(), href) {
            return Some(i - 1);
        }
        assert(entry_field(ev[i - 1], 0) != href@);
        i = i - 1;
    }
    None
}

proof fn lemma_no_entry_for_empty(ev: Seq<Seq<Seq<char>>>, href: Seq<char>, m: nat)
    requires
        href.len() == 0,
    ensures
        last_entry_for(ev, href, m) is None,
    decreases m,
{
    if m > 0 && m <= ev.len() {
        lemma_no_entry_for_empty(ev, href, (m - 1) as nat);
    }
}

fn field_of<'a>(e: &'a Vec<String>, k: usize) -> (r: &'a str)
    ensures
        r@ == entry_field(string_views(e@), k as int),
{
    if k < e.len() {
        e[k].as_str()
    } else {
        proof {
            reveal_strlit("");
        }
        ""
    }
}

fn meta_of(e: &Vec<String>) -> (r: (Option<String>, Option<String>, Option<String>))
    ensures
        (opt_view(r.0), opt_view(r.1), opt_view(r.2)) == entry_meta(string_views(e@)),
{
    let iso = parse_ala_date(field_of(e, 1));
    let time = field_of(e, 2);
    let size = field_of(e, 3);
    let display = match &iso {
        Some(d) => {
            if time.unicode_len() > 0 {
                let ds = d.as_str();
                let n = ds.unicode_len();
                let mut out = String::new();
                let mut i: usize = 0;
                while i < n
                    invariant
                        n == ds@.len(),
                        i <= n,
                        out@ == slash_to_dash(ds@.take(i as int)),
                    decreases n - i,
                {
                    let c = ds.get_char(i);
                    push_char(&mut out, if c == '/' { '-' } else { c });
                    assert(slash_to_dash(ds@.take(i + 1)) =~= slash_to_dash(ds@.take(i as int)).push(
                        if c == '/' { '-' } else { c },
                    ));
                    i = i + 1;
                }
                assert(ds@.take(n as int) =~= ds@);
                push_char(&mut out, ' ');
                out.append(time);
                Some(out)
            } else {
                None
            }
        },
        None => None,
    };
    let size_opt = if size.unicode_len() > 0 {
        Some(String::from_str(size))
    } else {
        None
    };
    (iso, display, size_opt)
}

fn is_package_file_exec(pkg: &str, href: &str) -> (r: bool)
    ensures
        r == is_package_file(pkg@, href@),
{
    proof {
        reveal_strlit(".pkg.tar");
        reveal_strlit(".sig");
    }
    let n = href.unicode_len();
    let starts = occurs_at_exec(href, pkg, 0);
    let has_tar = find_str(href, ".pkg.tar") < n;
    let sig = if n >= 4 {
        occurs_at_exec(href, ".sig", n - 4)
    } else {
        false
    };
    starts && has_tar && !sig
}

/// The archived files of `pkg` that an index page lists: `entries` are the
/// groups `(href, day, time, size)` of the listing lines, `hrefs` the links of
/// the page; a link that names a file of the package becomes a version, with
/// the date, time and size of the last listing line for it.
pub fn collect_versions(
    pkg: &str,
    index_url: &str,
    entries: &[Vec<String>],
    hrefs: &[Option<String>],
) -> (r: Result<Vec<AlaPkg>, ListingError>)
    ensures
        r matches Ok(v) ==> ala_pkg_views(v@) == listed_versions(pkg@, index_url@, nested_views(entries@), option_views(hrefs@), hrefs@.len() as nat)
            && v@.len() > 0,
        r matches Err(e) ==> e == ListingError::NoVersions && listed_versions(pkg@, index_url@, nested_views(entries@), option_views(hrefs@), hrefs@.len() as nat).len() == 0,
{
    let ghost ev = nested_views(entries@);
    let ghost hv = option_views(hrefs@);
    let mut out: Vec<AlaPkg> = Vec::new();
    let mut i: usize = 0;
    assert(ala_pkg_views(out@) =~= Seq::empty());
    while i < hrefs.len()
        invariant
            ev == nested_views(entries@),
            hv == option_views(hrefs@),
            i <= hrefs@.len(),
            ala_pkg_views(out@) == listed_versions(pkg@, index_url@, ev, hv, i as nat),
        decreases hrefs@.len() - i,
    {
        let ghost before = ala_pkg_views(out@);
        match &hrefs[i] {
            Some(href) => {
                let h = href.as_str();
                assert(hv[i as int] == Some(h@));
                if is_package_file_exec(pkg, h) {
                    let meta = match last_entry_index(entries, h) {
                        Some(j) => {
                            assert(ev[j as int] == string_views(entries@[j as int]@));
                            meta_of(&entries[j])
                        },
                        None => (None, None, None),
                    };
                    let mut url = String::from_str(index_url);
                    url.append(h);
                    let p = AlaPkg {
                        file: String::from_str(h),
                        url,
                        date: meta.0,
                        date_display: meta.1,
                        size: meta.2,
                    };
                    out.push(p);
                    assert(ala_pkg_views(out@) =~= before.push(ala_pkg_view(p)));
                }
            },
            None => {
                assert(hv[i as int] is None);
            },
        }
        i = i + 1;
    }
    if out.len() == 0 {
        Err(ListingError::NoVersions)
    } else {
        Ok(out)
    }
}

/// The regular expression of a line of an archive index listing: the link,
/// then the day `DD-Mon-YYYY`, the time `HH:MM` and the size.
pub const LISTING_LINE: &'static str = r#"href="([^"]+)">[^<]*</a>\s*([0-9]{2}-[A-Za-z]{3}-[0-9]{4})\s+([0-9]{2}:[0-9]{2})\s+(\S+)"#;

/// The archived files of `pkg` that the index page `body` (found at
/// `index_url`) lists: the listing lines and the links of `pre` blocks are
/// read from the page, then combined as `collect_versions` states.
pub fn versions_from_listing(pkg: &str, index_url: &str, body: &str) -> (r: Result<Vec<AlaPkg>, ListingError>)
    ensures
        !(regex_compiles(LISTING_LINE@) && css_selector_parses("pre a"@)) ==> r == Err::<Vec<AlaPkg>, ListingError>(ListingError::Unreadable),
        regex_compiles(LISTING_LINE@) && css_selector_parses("pre a"@) ==> {
            let listed = listed_versions(
                pkg@,
                index_url@,
                regex_capture_groups(LISTING_LINE@, body@),
                html_selected_attrs(body@, "pre a"@, "href"@),
                html_selected_attrs(body@, "pre a"@, "href"@).len(),
            );
            &&& r matches Ok(v) ==> ala_pkg_views(v@) == listed && v@.len() > 0
            &&& r matches Err(e) ==> e == ListingError::NoVersions && listed.len() == 0
        },
{
    let entries = match regex_captures(LISTING_LINE, body) {
        Some(e) => e,
        None => {
            return Err(ListingError::Unreadable);
        },
    };
    let hrefs = match html_select_attrs(body, "pre a", "href") {
        Some(h) => h,
        None => {
            return Err(ListingError::Unreadable);
        },
    };
    collect_versions(pkg, index_url, entries.as_slice(), hrefs.as_slice())
}

/// `s` without its trailing `/`s.
pub open spec fn trim_trailing_slashes(s: Seq<char>) -> Seq<char>
    decreases s.len(),
{
    if s.len() > 0 && s.last() == '/' {
        trim_trailing_slashes(s.drop_last())
    } else {
        s
    }
}

/// The repositories named by the first `n` links of a snapshot page, each
/// once, in the order of their first link: a link to a directory (it ends in
/// `/` and is not `../`) names the repository written in lower case without
/// the trailing `/`s.
pub open spec fn snapshot_repos(hrefs: Seq<Option<Seq<char>>>, n: nat) -> Seq<Seq<char>>
    decreases n,
{
    if n == 0 || n > hrefs.len() {
        seq![]
    } else {
        let prev = snapshot_repos(hrefs, (n - 1) as nat);
        match hrefs[n - 1] {
            Some(h) => if h == "../"@ || !(h.len() > 0 && h.last() == '/') {
                prev
            } else {
                let name = lower_seq(trim_trailing_slashes(h));
                if name.len() == 0 || prev.contains(name) {
                    prev
                } else {
                    prev.push(name)
                }
            },
            None => prev,
        }
    }
}

fn contains_string(v: &Vec<String>, s: &str) -> (r: bool)
    ensures
        r == string_views(v@).contains(s@),
{
    let mut i: usize = 0;
    while i < v.len()
        invariant
            i <= v@.len(),
            forall|k: int| 0 <= k < i ==> v@[k]@ != s@,
        decreases v@.len() - i,
    {
        if str_eq(v[i].as_str(), s) {
            assert(string_views(v@)[i as int] == s@);
            return true;
        }
        i = i + 1;
    }
    assert forall|k: int| 0 <= k < string_views(v@).len() implies string_views(v@)[k] != s@ by {
        assert(string_views(v@)[k] == v@[k]@);
    }
    false
}

/// The repositories that a snapshot page links to; see `snapshot_repos`.
pub fn repos_from_links(hrefs: &[Option<String>]) -> (r: Result<Vec<String>, ListingError>)
    ensures
        r matches Ok(v) ==> string_views(v@) == snapshot_repos(option_views(hrefs@), hrefs@.len() as nat) && v@.len() > 0,
        r matches Err(e) ==> e == ListingError::NoVersions && snapshot_repos(option_views(hrefs@), hrefs@.len() as nat).len() == 0,
{
    proof {
        reveal_strlit("../");
    }
    let ghost hv = option_views(hrefs@);
    let mut out: Vec<String> = Vec::new();
    let mut i: usize = 0;
    assert(string_views(out@) =~= Seq::<Seq<char>>::empty());
    while i < hrefs.len()
        invariant
            hv == option_views(hrefs@),
            i <= hrefs@.len(),
            string_views(out@) == snapshot_repos(hv, i as nat),
        decreases hrefs@.len() - i,
    {
        let ghost before = string_views(out@);
        match &hrefs[i] {
            Some(href) => {
                let h = href.as_str();
                assert(hv[i as int] == Some(h@));
                let n = h.unicode_len();
                if !str_eq(h, "../") && n > 0 && h.get_char(n - 1) == '/' {
                    let mut k = n;
                    assert(h@.take(n as int) =~= h@);
                    while k > 0 && h.get_char(k - 1) == '/'
                        invariant
                            n == h@.len(),
                            k <= n,
                            trim_trailing_slashes(h@.take(k as int)) == trim_trailing_slashes(h@),
                        decreases k,
                    {
                        assert(h@.take(k as int).drop_last() =~= h@.take(k - 1));
                        k = k - 1;
                    }
                    assert(h@.take(n as int) =~= h@);
                    let trimmed = h.substring_char(0, k);
                    assert(trimmed@ =~= h@.take(k as int));
                    let name = to_ascii_lowercase(trimmed);
                    if name.as_str().unicode_len() > 0 && !contains_string(&out, name.as_str()) {
                        out.push(name);
                        assert(string_views(out@) =~= before.push(lower_seq(trimmed@)));
                    }
                }
            },
            None => {},
        }
        i = i + 1;
    }
    if out.len() == 0 {
        Err(ListingError::NoVersions)
    } else {
        Ok(out)
    }
}

/// The repositories of the snapshot page `body`: its `pre` links read as
/// `repos_from_links` states.
pub fn repos_from_snapshot(body: &str) -> (r: Result<Vec<String>, ListingError>)
    ensures
        !css_selector_parses("pre a"@) ==> r == Err::<Vec<String>, ListingError>(ListingError::Unreadable),
        css_selector_parses("pre a"@) ==> {
            let repos = snapshot_repos(
                html_selected_attrs(body@, "pre a"@, "href"@),
                html_selected_attrs(body@, "pre a"@, "href"@).len(),
            );
            &&& r matches Ok(v) ==> string_views(v@) == repos && v@.len() > 0
            &&& r matches Err(e) ==> e == ListingError::NoVersions && repos.len() == 0
        },
{
    match html_select_attrs(body, "pre a", "href") {
        Some(h) => repos_from_links(h.as_slice()),
        None => Err(ListingError::Unreadable),
    }
}

/// The archive's address for the snapshot of `date`.
pub fn snapshot_url(date: &str) -> (r: String)
    ensures
        r@ == "https://archive.archlinux.org/repos/"@ + date@ + seq!['/'],
{
    let mut url = String::from_str("https://archive.archlinux.org/repos/");
    url.append(date);
    push_char(&mut url, '/');
    url
}

/// The archive's index page of a package: under the package's first
/// character (lower-cased), then its name; `None` for an empty name.
pub fn package_index_url(pkg: &str) -> (r: Option<String>)
    ensures
        pkg@.len() == 0 <==> r is None,
        r matches Some(url) ==> url@ == "https://archive.archlinux.org/packages/"@ + seq![lower_char(pkg@[0])] + seq!['/'] + pkg@ + seq!['/'],
{
    if pkg.unicode_len() == 0 {
        return None;
    }
    let first = char_to_ascii_lowercase(pkg.get_char(0));
    let mut url = String::from_str("https://archive.archlinux.org/packages/");
    push_char(&mut url, first);
    push_char(&mut url, '/');
    url.append(pkg);
    push_char(&mut url, '/');
    Some(url)
}

/// The view of an archived file: (file, url, date, date shown, size).
pub type AlaView = (Seq<char>, Seq<char>, Option<Seq<char>>, Option<Seq<char>>, Option<Seq<char>>);

/// The order of `Option<String>`: `None` first, then the strings in order.
pub open spec fn opt_text_lt(a: Option<Seq<char>>, b: Option<Seq<char>>) -> bool {
    match (a, b) {
        (None, Some(_)) => true,
        (Some(x), Some(y)) => text_lt(x, y),
        _ => false,
    }
}

/// `p` comes strictly before `q` when archived files are listed newest
/// first: by date, then file name, then address, each in decreasing order.
pub open spec fn newer(p: AlaView, q: AlaView) -> bool {
    ||| opt_text_lt(q.2, p.2)
    ||| (q.2 == p.2 && text_lt(q.0, p.0))
    ||| (q.2 == p.2 && q.0 == p.0 && text_lt(q.1, p.1))
}

/// No file is newer than one listed before it.
pub open spec fn newest_first(s: Seq<AlaView>) -> bool {
    forall|i: int, j: int| 0 <= i < j < s.len() ==> !newer(#[trigger] s[j], #[trigger] s[i])
}

/// A list ordered newest first has its dates in decreasing order, undated
/// files last; files of one date come by decreasing file name, and files of
/// one date and name by decreasing address.
pub proof fn law_newest_first_order(s: Seq<AlaView>, i: int, j: int)
    requires
        newest_first(s),
        0 <= i < j < s.len(),
    ensures
        s[i].2 is None ==> s[j].2 is None,
        s[i].2 is Some && s[j].2 is Some ==> !text_lt(s[i].2->0, s[j].2->0),
        s[i].2 == s[j].2 ==> !text_lt(s[i].0, s[j].0),
        s[i].2 == s[j].2 && s[i].0 == s[j].0 ==> !text_lt(s[i].1, s[j].1),
{
    assert(!newer(s[j], s[i]));
}

proof fn lemma_newer_irreflexive(p: AlaView)
    ensures
        !newer(p, p),
{
    lemma_bytes_lt_irreflexive(encode_utf8(p.0));
    lemma_bytes_lt_irreflexive(encode_utf8(p.1));
    if p.2 is Some {
        lemma_bytes_lt_irreflexive(encode_utf8(p.2->0));
    }
}

proof fn lemma_opt_text_lt_transitive(a: Option<Seq<char>>, b: Option<Seq<char>>, c: Option<Seq<char>>)
    requires
        opt_text_lt(a, b),
        opt_text_lt(b, c),
    ensures
        opt_text_lt(a, c),
{
    if a is Some {
        lemma_bytes_lt_transitive(encode_utf8(a->0), encode_utf8(b->0), encode_utf8(c->0));
    }
}

proof fn lemma_newer_transitive(p: AlaView, q: AlaView, r: AlaView)
    requires
        newer(p, q),
        newer(q, r),
    ensures
        newer(p, r),
{
    if opt_text_lt(r.2, q.2) && opt_text_lt(q.2, p.2) {
        lemma_opt_text_lt_transitive(r.2, q.2, p.2);
    } else if r.2 == q.2 && q.2 == p.2 {
        if text_lt(r.0, q.0) && text_lt(q.0, p.0) {
            lemma_bytes_lt_transitive(encode_utf8(r.0), encode_utf8(q.0), encode_utf8(p.0));
        } else if r.0 == q.0 && q.0 == p.0 {
            lemma_bytes_lt_transitive(encode_utf8(r.1), encode_utf8(q.1), encode_utf8(p.1));
        }
    }
}

fn opt_str_lt(a: &Option<String>, b: &Option<String>) -> (r: bool)
    ensures
        r == opt_text_lt(opt_view(*a), opt_view(*b)),
{
    match (a, b) {
        (None, Some(_)) => true,
        (Some(x), Some(y)) => str_lt(x.as_str(), y.as_str()),
        _ => false,
    }
}

fn opt_str_eq(a: &Option<String>, b: &Option<String>) -> (r: bool)
    ensures
        r == (opt_view(*a) == opt_view(*b)),
{
    match (a, b) {
        (None, None) => true,
        (Some(x), Some(y)) => str_eq(x.as_str(), y.as_str()),
        _ => false,
    }
}

fn is_newer(p: &AlaPkg, q: &AlaPkg) -> (r: bool)
    ensures
        r == newer(ala_pkg_view(*p), ala_pkg_view(*q)),
{
    if opt_str_lt(&q.date, &p.date) {
        return true;
    }
    if !opt_str_eq(&q.date, &p.date) {
        return false;
    }
    if str_lt(q.file.as_str(), p.file.as_str()) {
        return true;
    }
    if !str_eq(q.file.as_str(), p.file.as_str()) {
        return false;
    }
    str_lt(q.url.as_str(), p.url.as_str())
}

/// Orders archived files newest first (by date, then file name, then
/// address, each decreasing), keeping every file.
pub fn sort_newest_first(versions: &mut Vec<AlaPkg>)
    ensures
        ala_pkg_views(final(versions)@).to_multiset() == ala_pkg_views(old(versions)@).to_multiset(),
        newest_first(ala_pkg_views(final(versions)@)),
{
    broadcast use vstd::seq_lib::group_to_multiset_ensures, vstd::multiset::group_multiset_axioms;
    let ghost orig = ala_pkg_views(versions@);
    let mut out: Vec<AlaPkg> = Vec::new();
    assert(ala_pkg_views(out@) =~= Seq::<AlaView>::empty());
    while versions.len() > 0
        invariant
            ala_pkg_views(out@).to_multiset().add(ala_pkg_views(versions@).to_multiset()) =~= orig.to_multiset(),
            newest_first(ala_pkg_views(out@)),
        decreases versions@.len(),
    {
        let ghost rest = ala_pkg_views(versions@);
        let x = versions.remove(0);
        assert(ala_pkg_views(versions@) =~= rest.remove(0));
        assert(rest[0] == ala_pkg_view(x));
        let mut p: usize = 0;
        while p < out.len() && !is_newer(&x, &out[p])
            invariant
                p <= out@.len(),
                forall|k: int| 0 <= k < p ==> !newer(ala_pkg_view(x), #[trigger] ala_pkg_views(out@)[k]),
            decreases out@.len() - p,
        {
            p = p + 1;
        }
        let ghost before = ala_pkg_views(out@);
        out.insert(p, x);
        assert(ala_pkg_views(out@) =~= before.insert(p as int, ala_pkg_view(x)));
        proof {
            vstd::seq_lib::to_multiset_insert(before, p as int, ala_pkg_view(x));
            vstd::seq_lib::to_multiset_remove(rest, 0);
            assert(rest.to_multiset().count(rest[0]) > 0) by {
                vstd::seq_lib::to_multiset_contains(rest, rest[0]);
            }
            assert(ala_pkg_views(out@).to_multiset().add(ala_pkg_views(versions@).to_multiset())
                =~= before.to_multiset().add(rest.to_multiset()));
        }
        proof {
            let s = ala_pkg_views(out@);
            let xv = ala_pkg_view(x);
            assert forall|i: int, j: int| 0 <= i < j < s.len() implies !newer(#[trigger] s[j], #[trigger] s[i]) by {
                if j < p {
                } else if j == p {
                    assert(s[i] == before[i]);
                } else if i < p {
                    assert(s[j] == before[j - 1]);
                    assert(s[i] == before[i]);
                } else if i == p {
                    assert(s[j] == before[j - 1]);
                    if newer(s[j], xv) {
                        assert(newer(xv, before[p as int]));
                        lemma_newer_transitive(s[j], xv, before[p as int]);
                        if j - 1 == p {
                            lemma_newer_irreflexive(before[p as int]);
                        }
                    }
                } else {
                    assert(s[j] == before[j - 1]);
                    assert(s[i] == before[i - 1]);
                }
            }
        }
    }
    *versions = out;
}

/// The first file, in the order of `s`, dated on or before `date`.
pub open spec fn first_on_or_before(s: Seq<AlaView>, date: Seq<char>, i: nat) -> Option<nat>
    decreases s.len() - i,
{
    if i >= s.len() {
        None
    } else if s[i as int].2 is Some && !text_lt(date, s[i as int].2->0) {
        Some(i)
    } else {
        first_on_or_before(s, date, i + 1)
    }
}

/// The index of the first file dated on or before `date` (a `YYYY/MM/DD`
/// date compares as text).
pub fn pick_on_or_before(versions: &[AlaPkg], date: &str) -> (r: Option<usize>)
    ensures
        r matches Some(i) ==> first_on_or_before(ala_pkg_views(versions@), date@, 0) == Some(i as nat),
        r is None ==> first_on_or_before(ala_pkg_views(versions@), date@, 0) is None,
{
    let ghost s = ala_pkg_views(versions@);
    let mut i: usize = 0;
    while i < versions.len()
        invariant
            s == ala_pkg_views(versions@),
            i <= versions@.len(),
            first_on_or_before(s, date@, i as nat) == first_on_or_before(s, date@, 0),
        decreases versions@.len() - i,
    {
        assert(s[i as int] == ala_pkg_view(versions@[i as int]));
        match &versions[i].date {
            Some(d) => {
                if !str_lt(date, d.as_str()) {
                    return Some(i);
                }
            },
            None => {},
        }
        i = i + 1;
    }
    None
}

/// A file dated on or before `date`.
pub open spec fn dated_by(p: AlaView, date: Seq<char>) -> bool {
    p.2 is Some && !text_lt(date, p.2->0)
}

proof fn lemma_first_on_or_before(s: Seq<AlaView>, date: Seq<char>, k: nat)
    ensures
        first_on_or_before(s, date, k) matches Some(i) ==> {
            &&& k <= i < s.len()
            &&& dated_by(s[i as int], date)
            &&& forall|j: int| k <= j < i ==> !dated_by(#[trigger] s[j], date)
        },
        first_on_or_before(s, date, k) is None ==> forall|j: int| k <= j < s.len() ==> !dated_by(#[trigger] s[j], date),
    decreases s.len() - k,
{
    if k < s.len() && !dated_by(s[k as int], date) {
        lemma_first_on_or_before(s, date, k + 1);
    }
}

/// On a list ordered newest first, the file picked for a date is the latest
/// one dated on or before it: no file dated on or before the date is newer;
/// and none is picked only when no file is dated on or before it.
pub proof fn law_date_pick_is_latest(s: Seq<AlaView>, date: Seq<char>)
    requires
        newest_first(s),
    ensures
        first_on_or_before(s, date, 0) matches Some(i) ==> {
            &&& i < s.len()
            &&& dated_by(s[i as int], date)
            &&& forall|j: int| 0 <= j < s.len() && dated_by(#[trigger] s[j], date) ==> !newer(s[j], s[i as int])
        },
        first_on_or_before(s, date, 0) is None ==> forall|j: int| 0 <= j < s.len() ==> !dated_by(#[trigger] s[j], date),
{
    lemma_first_on_or_before(s, date, 0);
    if let Some(i) = first_on_or_before(s, date, 0) {
        assert forall|j: int| 0 <= j < s.len() && dated_by(#[trigger] s[j], date) implies !newer(s[j], s[i as int]) by {
            if j == i {
                lemma_newer_irreflexive(s[j]);
            }
        }
    }
}

/// The menu selects entry `k` (counted from 0, shown from 1) of an unnamed list.
pub open spec fn selects_entry(m: MenuSpec, k: int) -> bool {
    menu_contains(m, k + 1, seq![])
}

/// The one entry, numbered from 1, of a list of `count` entries that the
/// menu selects (entries have no name); `None` when it selects none or
/// several.
pub fn select_one(menu: &NumberMenu, count: usize) -> (r: Option<usize>)
    requires
        count < usize::MAX,
    ensures
        r matches Some(i) ==> i < count && selects_entry(menu@, i as int) && forall|k: int|
            0 <= k < count && k != i ==> !(#[trigger] selects_entry(menu@, k)),
        r is None ==> forall|i: int|
            0 <= i < count && #[trigger] selects_entry(menu@, i) ==> exists|k: int|
                0 <= k < count && k != i && selects_entry(menu@, k),
{
    proof {
        reveal_strlit("");
        assert(""@ =~= Seq::<char>::empty());
    }
    let mut found: Option<usize> = None;
    let mut many = false;
    let mut i: usize = 0;
    while i < count
        invariant
            count < usize::MAX,
            i <= count,
            ""@ == Seq::<char>::empty(),
            found matches Some(f) ==> f < i && selects_entry(menu@, f as int),
            found is None ==> !many && forall|k: int| 0 <= k < i ==> !(#[trigger] selects_entry(menu@, k)),
            !many ==> (found matches Some(f) ==> forall|k: int|
                0 <= k < i && k != f ==> !(#[trigger] selects_entry(menu@, k))),
            many ==> (found matches Some(f) && exists|k: int|
                0 <= k < i && k != f && #[trigger] selects_entry(menu@, k)),
        decreases count - i,
    {
        if menu.contains(i + 1, "") {
            match found {
                None => {
                    found = Some(i);
                },
                Some(f) => {
                    if !many {
                        assert(selects_entry(menu@, i as int));
                    }
                    many = true;
                },
            }
        }
        i = i + 1;
    }
    if many {
        proof {
            let f = found->0;
            let k = choose|k: int| 0 <= k < count && k != f && #[trigger] selects_entry(menu@, k);
            assert forall|i: int|
                0 <= i < count && #[trigger] selects_entry(menu@, i) implies exists|k2: int|
                    0 <= k2 < count && k2 != i && selects_entry(menu@, k2) by {
                if i == f {
                    assert(selects_entry(menu@, k));
                } else {
                    assert(selects_entry(menu@, f as int));
                }
            }
        }
        None
    } else {
        found
    }
}

/// A snapshot's repositories are distinct, non-empty and in lower case.
pub proof fn law_snapshot_repos_distinct(hrefs: Seq<Option<Seq<char>>>, n: nat)
    ensures
        snapshot_repos(hrefs, n).no_duplicates(),
        forall|k: int| 0 <= k < snapshot_repos(hrefs, n).len() ==> (#[trigger] snapshot_repos(hrefs, n)[k]).len() > 0,
        forall|k: int| 0 <= k < snapshot_repos(hrefs, n).len() ==> lower_seq(#[trigger] snapshot_repos(hrefs, n)[k]) == snapshot_repos(hrefs, n)[k],
    decreases n,
{
    if n > 0 && n <= hrefs.len() {
        law_snapshot_repos_distinct(hrefs, (n - 1) as nat);
        let prev = snapshot_repos(hrefs, (n - 1) as nat);
        if let Some(h) = hrefs[n - 1] {
            let name = lower_seq(trim_trailing_slashes(h));
            assert(lower_seq(name) =~= name) by {
                assert forall|i: int| 0 <= i < name.len() implies #[trigger] lower_char(name[i]) == name[i] by {
                    let c = trim_trailing_slashes(h)[i];
                    assert(name[i] == lower_char(c));
                }
            }
        }
    }
}

/// Why no version was chosen.
#[derive(Debug, Clone, Copy, PartialEq, Eq)]
pub enum VersionChoiceError {
    /// There is no version to choose from.
    NoVersions,
    /// No version is dated on or before the requested date.
    NoneOnOrBefore,
    /// The menu answer does not select exactly one version.
    NotExactlyOne,
}

/// Entry `i` is the only one of `count` entries that the menu selects.
pub open spec fn only_selected(m: MenuSpec, count: int, i: int) -> bool {
    &&& 0 <= i < count
    &&& selects_entry(m, i)
    &&& forall|k: int| 0 <= k < count && k != i ==> !(#[trigger] selects_entry(m, k))
}

/// The version chosen among `vs` (listed newest first): with a date, the
/// first one on or before it; without, the first one when nobody is asked
/// (`answer` is `None`) or the answer is blank, else the one entry that the
/// answer, read as a number menu, selects.
pub open spec fn version_choice_spec(
    vs: Seq<AlaView>,
    date: Option<Seq<char>>,
    answer: Option<Seq<char>>,
    i: int,
) -> bool {
    &&& vs.len() > 0
    &&& match date {
        Some(d) => first_on_or_before(vs, d, 0) == Some(i as nat),
        None => match answer {
            None => i == 0,
            Some(a) => if trimmed(a).len() == 0 { i == 0 } else { only_selected(menu_of(a), vs.len() as int, i) },
        },
    }
}

pub open spec fn opt_str_view(o: Option<&str>) -> Option<Seq<char>> {
    match o {
        Some(s) => Some(s@),
        None => None,
    }
}

/// Chooses the version to install among versions listed newest first.
pub fn version_choice(versions: &[AlaPkg], date: Option<&str>, answer: Option<&str>) -> (r: Result<usize, VersionChoiceError>)
    requires
        versions@.len() < usize::MAX,
        answer matches Some(a) ==> menu_fits(a@),
    ensures
        r matches Ok(i) ==> version_choice_spec(
            ala_pkg_views(versions@),
            opt_str_view(date),
            opt_str_view(answer),
            i as int,
        ),
        r matches Err(e) ==> forall|i: int| !#[trigger] version_choice_spec(
            ala_pkg_views(versions@),
            opt_str_view(date),
            opt_str_view(answer),
            i,
        ),
        r matches Err(e) ==> (e == VersionChoiceError::NoVersions <==> versions@.len() == 0),
        r matches Err(e) ==> (e == VersionChoiceError::NoneOnOrBefore <==> (versions@.len() > 0 && date is Some)),
{
    if versions.len() == 0 {
        return Err(VersionChoiceError::NoVersions);
    }
    match date {
        Some(d) => match pick_on_or_before(versions, d) {
            Some(i) => Ok(i),
            None => Err(VersionChoiceError::NoneOnOrBefore),
        },
        None => match answer {
            None => Ok(0),
            Some(a) => {
                if trim(a).unicode_len() == 0 {
                    return Ok(0);
                }
                let menu = NumberMenu::new(a);
                match select_one(&menu, versions.len()) {
                    Some(i) => Ok(i),
                    None => {
                        proof {
                            assert forall|i: int| !only_selected(menu_of(a@), versions@.len() as int, i) by {
                                if only_selected(menu_of(a@), versions@.len() as int, i) {
                                    let k = choose|k: int| 0 <= k < versions@.len() && k != i && selects_entry(menu@, k);
                                    assert(!selects_entry(menu_of(a@), k));
                                }
                            }
                        }
                        Err(VersionChoiceError::NotExactlyOne)
                    },
                }
            },
        },
    }
}

} // verus!
