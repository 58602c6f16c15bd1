//! Arch Linux Archive helpers: dates as the archive writes and accepts
//! them, and version strings of archived package files.

use vstd::prelude::*;
use vstd::string::*;
use vstd::utf8::*;
use crate::text::{find_seq_from, find_str, last_index_before, last_index_of, occurs_at_exec, all_digits, contains_char, digits_value, is_digit, find_char_from, find_from, lemma_find_from, lower_seq, str_eq, to_ascii_lowercase};

verus! {

broadcast use vstd::string::group_string_axioms;

/// The two-digit number of a month written by its English three-letter
/// abbreviation (in any ASCII case).
pub open spec fn month_digits(mon: Seq<char>) -> Option<Seq<char>> {
    if lower_seq(mon) == seq!['j', 'a', 'n'] {
        Some(seq!['0', '1'])
    } else if lower_seq(mon) == seq!['f', 'e', 'b'] {
        Some(seq!['0', '2'])
    } else if lower_seq(mon) == seq!['m', 'a', 'r'] {
        Some(seq!['0', '3'])
    } else if lower_seq(mon) == seq!['a', 'p', 'r'] {
        Some(seq!['0', '4'])
    } else if lower_seq(mon) == seq!['m', 'a', 'y'] {
        Some(seq!['0', '5'])
    } else if lower_seq(mon) == seq!['j', 'u', 'n'] {
        Some(seq!['0', '6'])
    } else if lower_seq(mon) == seq!['j', 'u', 'l'] {
        Some(seq!['0', '7'])
    } else if lower_seq(mon) == seq!['a', 'u', 'g'] {
        Some(seq!['0', '8'])
    } else if lower_seq(mon) == seq!['s', 'e', 'p'] {
        Some(seq!['0', '9'])
    } else if lower_seq(mon) == seq!['o', 'c', 't'] {
        Some(seq!['1', '0'])
    } else if lower_seq(mon) == seq!['n', 'o', 'v'] {
        Some(seq!['1', '1'])
    } else if lower_seq(mon) == seq!['d', 'e', 'c'] {
        Some(seq!['1', '2'])
    } else {
        None
    }
}

/// A listing date `DD-Mon-YYYY` (exactly three `-`-separated parts, the
/// day of two bytes and the year of four) as `YYYY/MM/DD`.
pub open spec fn ala_listing_date(day: Seq<char>) -> Option<Seq<char>> {
    let n = day.len();
    let d1 = find_from(day, '-', 0);
    let d2 = find_from(day, '-', d1 + 1);
    let d3 = find_from(day, '-', d2 + 1);
    if d1 < n && d2 < n && d3 == n {
        let dd = day.take(d1 as int);
        let mon = day.subrange(d1 + 1 as int, d2 as int);
        let yyyy = day.subrange(d2 + 1 as int, n as int);
        if encode_utf8(dd).len() == 2 && encode_utf8(yyyy).len() == 4 {
            match month_digits(mon) {
                Some(mm) => Some(yyyy + seq!['/'] + mm + seq!['/'] + dd),
                None => None,
            }
        } else {
            None
        }
    } else {
        None
    }
}

fn month_number(mon: &str) -> (r: Option<&'static str>)
    ensures
        r matches Some(x) ==> month_digits(mon@) == Some(x@),
        r is None ==> month_digits(mon@) is None,
{
    proof {
        reveal_strlit("jan");
        reveal_strlit("feb");
        reveal_strlit("mar");
        reveal_strlit("apr");
        reveal_strlit("may");
        reveal_strlit("jun");
        reveal_strlit("jul");
        reveal_strlit("aug");
        reveal_strlit("sep");
        reveal_strlit("oct");
        reveal_strlit("nov");
        reveal_strlit("dec");
        reveal_strlit("01");
        reveal_strlit("02");
        reveal_strlit("03");
        reveal_strlit("04");
        reveal_strlit("05");
        reveal_strlit("06");
        reveal_strlit("07");
        reveal_strlit("08");
        reveal_strlit("09");
        reveal_strlit("10");
        reveal_strlit("11");
        reveal_strlit("12");
        assert("jan"@ =~= seq!['j', 'a', 'n']);
        assert("feb"@ =~= seq!['f', 'e', 'b']);
        assert("mar"@ =~= seq!['m', 'a', 'r']);
        assert("apr"@ =~= seq!['a', 'p', 'r']);
        assert("may"@ =~= seq!['m', 'a', 'y']);
        assert("jun"@ =~= seq!['j', 'u', 'n']);
        assert("jul"@ =~= seq!['j', 'u', 'l']);
        assert("aug"@ =~= seq!['a', 'u', 'g']);
        assert("sep"@ =~= seq!['s', 'e', 'p']);
        assert("oct"@ =~= seq!['o', 'c', 't']);
        assert("nov"@ =~= seq!['n', 'o', 'v']);
        assert("dec"@ =~= seq!['d', 'e', 'c']);
        assert("01"@ =~= seq!['0', '1']);
        assert("02"@ =~= seq!['0', '2']);
        assert("03"@ =~= seq!['0', '3']);
        assert("04"@ =~= seq!['0', '4']);
        assert("05"@ =~= seq!['0', '5']);
        assert("06"@ =~= seq!['0', '6']);
        assert("07"@ =~= seq!['0', '7']);
        assert("08"@ =~= seq!['0', '8']);
        assert("09"@ =~= seq!['0', '9']);
        assert("10"@ =~= seq!['1', '0']);
        assert("11"@ =~= seq!['1', '1']);
        assert("12"@ =~= seq!['1', '2']);
    }
    let lower = to_ascii_lowercase(mon);
    let m = lower.as_str();
    if str_eq(m, "jan") {
        Some("01")
    } else if str_eq(m, "feb") {
        Some("02")
    } else if str_eq(m, "mar") {
        Some("03")
    } else if str_eq(m, "apr") {
        Some("04")
    } else if str_eq(m, "may") {
        Some("05")
    } else if str_eq(m, "jun") {
        Some("06")
    } else if str_eq(m, "jul") {
        Some("07")
    } else if str_eq(m, "aug") {
        Some("08")
    } else if str_eq(m, "sep") {
        Some("09")
    } else if str_eq(m, "oct") {
        Some("10")
    } else if str_eq(m, "nov") {
        Some("11")
    } else if str_eq(m, "dec") {
        Some("12")
    } else {
        None
    }
}

/// Converts a listing date `DD-Mon-YYYY` of the archive to `YYYY/MM/DD`.
pub fn parse_ala_date(day: &str) -> (r: Option<String>)
    ensures
        r matches Some(x) ==> ala_listing_date(day@) == Some(x@),
        r is None ==> ala_listing_date(day@) is None,
{
    let n = day.unicode_len();
    let d1 = find_char_from(day, '-', 0);
    if d1 == n {
        return None;
    }
    let d2 = find_char_from(day, '-', d1 + 1);
    if d2 == n {
        return None;
    }
    let d3 = find_char_from(day, '-', d2 + 1);
    if d3 < n {
        return None;
    }
    let dd = day.substring_char(0, d1);
    let mon = day.substring_char(d1 + 1, d2);
    let yyyy = day.substring_char(d2 + 1, n);
    if dd.as_bytes().len() != 2 || yyyy.as_bytes().len() != 4 {
        return None;
    }
    let mm = match month_number(mon) {
        Some(mm) => mm,
        None => {
            return None;
        },
    };
    let mut out = String::from_str(yyyy);
    out.append("/");
    out.append(mm);
    out.append("/");
    out.append(dd);
    proof {
        reveal_strlit("/");
        assert("/"@ =~= seq!['/']);
        assert(dd@ =~= day@.take(d1 as int));
        assert(out@ =~= yyyy@ + seq!['/'] + mm@ + seq!['/'] + dd@);
    }
    Some(out)
}

/// Why a date given on the command line was refused.
#[derive(Debug, Clone, Copy, PartialEq, Eq)]
pub enum DateError {
    /// Not `YYYY-MM-DD`, `YYYY/MM/DD`, `DD-MM-YYYY` or `DD/MM/YYYY` with a
    /// month in 1..=12 and a day in 1..=31.
    Format,
    /// A part of the date is empty.
    EmptyNumber,
    /// A part of the date does not fit in 32 bits.
    NumberTooLarge,
}

/// `s` split at `sep` into exactly three parts.
pub open spec fn split_three(s: Seq<char>, sep: char) -> Option<(Seq<char>, Seq<char>, Seq<char>)> {
    let n = s.len();
    let d1 = find_from(s, sep, 0);
    let d2 = find_from(s, sep, d1 + 1);
    let d3 = find_from(s, sep, d2 + 1);
    if d1 < n && d2 < n && d3 == n {
        Some((s.take(d1 as int), s.subrange(d1 + 1 as int, d2 as int), s.subrange(d2 + 1 as int, n as int)))
    } else {
        None
    }
}

/// What `str::parse::<u32>` gives on a string of decimal digits.
pub open spec fn digits_u32(s: Seq<char>) -> Result<nat, DateError> {
    if s.len() == 0 {
        Err(DateError::EmptyNumber)
    } else if digits_value(s) > u32::MAX {
        Err(DateError::NumberTooLarge)
    } else {
        Ok(digits_value(s))
    }
}

pub open spec fn digit_char(d: nat) -> char {
    (48 + d) as char
}

/// `n` (below 100) as two decimal digits, zero-padded.
pub open spec fn two_digits(n: nat) -> Seq<char> {
    seq![digit_char(n / 10), digit_char(n % 10)]
}

/// `n` (below 10000) as four decimal digits, zero-padded.
pub open spec fn four_digits(n: nat) -> Seq<char> {
    seq![digit_char(n / 1000), digit_char((n / 100) % 10), digit_char((n / 10) % 10), digit_char(n % 10)]
}

/// The date given on the command line in the form the archive uses,
/// `YYYY/MM/DD`: the parts are separated by `-` (or, when there is none, by
/// `/`); the four-byte part is the year, first or last; the month must be in
/// 1..=12 and the day in 1..=31. Numbers are read year, month, day, and the
/// first that cannot be read gives the error.
pub open spec fn normalized_ala_date(s: Seq<char>) -> Result<Seq<char>, DateError> {
    let sep = if s.contains('-') { '-' } else { '/' };
    if !s.contains('-') && !s.contains('/') {
        Err(DateError::Format)
    } else {
        match split_three(s, sep) {
            None => Err(DateError::Format),
            Some((a, m, b)) => {
                if encode_utf8(a).len() != 4 && encode_utf8(b).len() != 4 {
                    Err(DateError::Format)
                } else if !(all_digits(a) && all_digits(m) && all_digits(b)) {
                    Err(DateError::Format)
                } else {
                    let (ys, ds) = if encode_utf8(a).len() == 4 { (a, b) } else { (b, a) };
                    match digits_u32(ys) {
                        Err(e) => Err(e),
                        Ok(year) => match digits_u32(m) {
                            Err(e) => Err(e),
                            Ok(month) => match digits_u32(ds) {
                                Err(e) => Err(e),
                                Ok(day) => if 1 <= month <= 12 && 1 <= day <= 31 {
                                    Ok(four_digits(year) + seq!['/'] + two_digits(month) + seq!['/']
                                        + two_digits(day))
                                } else {
                                    Err(DateError::Format)
                                },
                            },
                        },
                    }
                }
            },
        }
    }
}

proof fn lemma_ascii_digits_encode(s: Seq<char>)
    requires
        all_digits(s),
    ensures
        encode_utf8(s).len() == s.len(),
    decreases s.len(),
{
    if s.len() > 0 {
        assert(is_digit(s[0]));
        assert(all_digits(s.drop_first()));
        lemma_ascii_digits_encode(s.drop_first());
    }
}

proof fn lemma_four_digits_bound(s: Seq<char>)
    requires
        all_digits(s),
        s.len() == 4,
    ensures
        digits_value(s) <= 9999,
{
    let s3 = s.drop_last();
    let s2 = s3.drop_last();
    let s1 = s2.drop_last();
    let s0 = s1.drop_last();
    assert(is_digit(s[0]) && is_digit(s[1]) && is_digit(s[2]) && is_digit(s[3]));
    assert(s0.len() == 0);
    assert(digits_value(s0) == 0);
    assert(s1.last() == s[0]);
    assert(s2.last() == s[1]);
    assert(s3.last() == s[2]);
    assert(s.last() == s[3]);
    assert(digits_value(s1) <= 9);
    assert(digits_value(s2) <= 99);
    assert(digits_value(s3) <= 999);
    assert(digits_value(s) == digits_value(s3) * 10 + ((s.last() as u32) - 48) as nat);
}

/// Appends the decimal digit `d`.
fn push_digit(out: &mut String, d: u32)
    requires
        d < 10,
    ensures
        final(out)@ == old(out)@.push(digit_char(d as nat)),
{
    let digits = "0123456789";
    proof {
        reveal_strlit("0123456789");
    }
    let one = digits.substring_char(d as usize, d as usize + 1);
    out.append(one);
    proof {
        assert(one@ =~= seq![digit_char(d as nat)]);
    }
}

/// Reads a string of decimal digits as `str::parse::<u32>` does.
fn digits_to_u32(s: &str) -> (r: Result<u32, DateError>)
    requires
        all_digits(s@),
    ensures
        r matches Ok(v) ==> digits_u32(s@) == Ok::<nat, DateError>(v as nat),
        r matches Err(e) ==> digits_u32(s@) == Err::<nat, DateError>(e),
{
    let n = s.unicode_len();
    if n == 0 {
        return Err(DateError::EmptyNumber);
    }
    let mut value: u64 = 0;
    let mut i: usize = 0;
    while i < n
        invariant
            n == s@.len(),
            all_digits(s@),
            i <= n,
            value <= u32::MAX,
            value == digits_value(s@.take(i as int)),
        decreases n - i,
    {
        let c = s.get_char(i);
        assert(is_digit(s@[i as int]));
        assert(s@.take(i + 1).drop_last() =~= s@.take(i as int));
        let digit = (c as u32 - 48) as u64;
        value = value * 10 + digit;
        if value > 0xffff_ffff {
            proof {
                lemma_digits_prefix_too_large(s@, i + 1);
            }
            return Err(DateError::NumberTooLarge);
        }
        i = i + 1;
    }
    assert(s@.take(n as int) =~= s@);
    Ok(value as u32)
}

proof fn lemma_digits_prefix_too_large(s: Seq<char>, i: int)
    requires
        all_digits(s),
        0 <= i <= s.len(),
        digits_value(s.take(i)) > u32::MAX,
    ensures
        digits_value(s) > u32::MAX,
    decreases s.len() - i,
{
    if i < s.len() {
        assert(s.take(i + 1).drop_last() =~= s.take(i));
        assert(is_digit(s[i]));
        lemma_digits_prefix_too_large(s, i + 1);
    } else {
        assert(s.take(i) =~= s);
    }
}

/// Normalizes a date given on the command line to the archive's `YYYY/MM/DD`.
pub fn normalize_ala_date(s: &str) -> (r: Result<String, DateError>)
    ensures
        r matches Ok(x) ==> normalized_ala_date(s@) == Ok::<Seq<char>, DateError>(x@),
        r matches Err(e) ==> normalized_ala_date(s@) == Err::<Seq<char>, DateError>(e),
{
    let sep = if contains_char(s, '-') {
        '-'
    } else if contains_char(s, '/') {
        '/'
    } else {
        return Err(DateError::Format);
    };
    let n = s.unicode_len();
    let d1 = find_char_from(s, sep, 0);
    if d1 == n {
        return Err(DateError::Format);
    }
    let d2 = find_char_from(s, sep, d1 + 1);
    if d2 == n {
        return Err(DateError::Format);
    }
    let d3 = find_char_from(s, sep, d2 + 1);
    if d3 < n {
        return Err(DateError::Format);
    }
    let a = s.substring_char(0, d1);
    let m = s.substring_char(d1 + 1, d2);
    let b = s.substring_char(d2 + 1, n);
    assert(a@ =~= s@.take(d1 as int));
    let a_is_year = a.as_bytes().len() == 4;
    if !a_is_year && b.as_bytes().len() != 4 {
        return Err(DateError::Format);
    }
    if !all_digits_exec(a) || !all_digits_exec(m) || !all_digits_exec(b) {
        return Err(DateError::Format);
    }
    let (ys, ds) = if a_is_year {
        (a, b)
    } else {
        (b, a)
    };
    let year = digits_to_u32(ys)?;
    let month = digits_to_u32(m)?;
    let day = digits_to_u32(ds)?;
    if month < 1 || month > 12 || day < 1 || day > 31 {
        return Err(DateError::Format);
    }
    proof {
        lemma_ascii_digits_encode(ys@);
        lemma_four_digits_bound(ys@);
    }
    let mut out = String::new();
    push_digit(&mut out, year / 1000);
    push_digit(&mut out, (year / 100) % 10);
    push_digit(&mut out, (year / 10) % 10);
    push_digit(&mut out, year % 10);
    out.append("/");
    push_digit(&mut out, month / 10);
    push_digit(&mut out, month % 10);
    out.append("/");
    push_digit(&mut out, day / 10);
    push_digit(&mut out, day % 10);
    proof {
        reveal_strlit("/");
        assert("/"@ =~= seq!['/']);
        assert(out@ =~= four_digits(year as nat) + seq!['/'] + two_digits(month as nat) + seq!['/']
            + two_digits(day as nat));
    }
    Ok(out)
}

/// Whether every character of `s` is an ASCII decimal digit.
fn all_digits_exec(s: &str) -> (r: bool)
    ensures
        r == all_digits(s@),
{
    let n = s.unicode_len();
    let mut i: usize = 0;
    while i < n
        invariant
            n == s@.len(),
            i <= n,
            forall|k: int| 0 <= k < i ==> is_digit(#[trigger] s@[k]),
        decreases n - i,
    {
        let c = s.get_char(i);
        if c < '0' || c > '9' {
            assert(!is_digit(s@[i as int]));
            return false;
        }
        i = i + 1;
    }
    true
}

/// The version in an archive file name: the text before the first
/// `.pkg.tar`, without its last `-`-separated part (the architecture) and
/// without a leading `<pkg>-`.
pub open spec fn pkgver_of(pkg: Seq<char>, file: Seq<char>) -> Seq<char> {
    let stem = file.take(find_seq_from(file, seq!['.', 'p', 'k', 'g', '.', 't', 'a', 'r'], 0) as int);
    let no_arch = match last_index_before(stem, '-', stem.len()) {
        Some(k) => stem.take(k as int),
        None => stem,
    };
    let prefix = pkg.push('-');
    if no_arch.len() >= prefix.len() && no_arch.take(prefix.len() as int) == prefix {
        no_arch.skip(prefix.len() as int)
    } else {
        no_arch
    }
}

/// The version of package `pkg` that the archive file `file` holds.
pub fn pkgver_from_file(pkg: &str, file: &str) -> (r: String)
    ensures
        r@ == pkgver_of(pkg@, file@),
{
    proof {
        reveal_strlit(".pkg.tar");
        assert(".pkg.tar"@ =~= seq!['.', 'p', 'k', 'g', '.', 't', 'a', 'r']);
    }
    let cut = find_str(file, ".pkg.tar");
    proof {
        lemma_find_seq_from_bound(file@, ".pkg.tar"@, 0);
    }
    let stem = file.substring_char(0, cut);
    let no_arch = match last_index_of(stem, '-') {
        Some(k) => {
            proof {
                lemma_last_index_bound(stem@, '-', stem@.len());
            }
            stem.substring_char(0, k)
        },
        None => stem,
    };
    let mut prefix = String::from_str(pkg);
    prefix.append("-");
    proof {
        reveal_strlit("-");
        assert(prefix@ =~= pkg@.push('-'));
    }
    let pl = prefix.as_str().unicode_len();
    let nl = no_arch.unicode_len();
    if pl <= nl && occurs_at_exec(no_arch, prefix.as_str(), 0) {
        assert(no_arch@.subrange(0, pl as int) =~= no_arch@.take(pl as int));
        String::from_str(no_arch.substring_char(pl, nl))
    } else {
        proof {
            if no_arch@.len() >= prefix@.len() && no_arch@.take(prefix@.len() as int) == prefix@ {
                assert(no_arch@.subrange(0, pl as int) =~= no_arch@.take(pl as int));
            }
        }
        String::from_str(no_arch)
    }
}

proof fn lemma_find_seq_from_bound(s: Seq<char>, p: Seq<char>, i: nat)
    ensures
        find_seq_from(s, p, i) <= s.len(),
    decreases s.len() + 1 - i,
{
    if i + p.len() <= s.len() && s.subrange(i as int, (i + p.len()) as int) != p {
        lemma_find_seq_from_bound(s, p, i + 1);
    }
}

proof fn lemma_last_index_bound(s: Seq<char>, c: char, i: nat)
    ensures
        last_index_before(s, c, i) matches Some(k) ==> k < i && k < s.len(),
    decreases i,
{
    if i > 0 && i <= s.len() && s[i - 1] != c {
        lemma_last_index_bound(s, c, (i - 1) as nat);
    }
}

proof fn lemma_digit_char(n: nat)
    requires
        n < 10,
    ensures
        is_digit(digit_char(n)),
        digit_char(n) as u32 == 48 + n,
        digit_char(n) != '/',
        digit_char(n) != '-',
{
}

proof fn lemma_four_digits_value(y: nat)
    requires
        y <= 9999,
    ensures
        all_digits(four_digits(y)),
        digits_value(four_digits(y)) == y,
        four_digits(y).len() == 4,
{
    let s = four_digits(y);
    lemma_digit_char(y / 1000);
    lemma_digit_char((y / 100) % 10);
    lemma_digit_char((y / 10) % 10);
    lemma_digit_char(y % 10);
    let s3 = s.drop_last();
    let s2 = s3.drop_last();
    let s1 = s2.drop_last();
    let s0 = s1.drop_last();
    assert(s0.len() == 0);
    assert(digits_value(s0) == 0);
    assert(s1.last() == s[0]);
    assert(s[0] == digit_char(y / 1000));
    assert(s2.last() == s[1]);
    assert(s3.last() == s[2]);
    assert(digits_value(s1) == y / 1000);
    assert(digits_value(s2) == (y / 1000) * 10 + (y / 100) % 10);
    assert(digits_value(s3) == ((y / 1000) * 10 + (y / 100) % 10) * 10 + (y / 10) % 10);
    assert(((y / 1000) * 10 + (y / 100) % 10) * 10 + (y / 10) % 10 == y / 10);
    assert(digits_value(s) == (y / 10) * 10 + y % 10);
}

proof fn lemma_two_digits_value(m: nat)
    requires
        m <= 99,
    ensures
        all_digits(two_digits(m)),
        digits_value(two_digits(m)) == m,
        two_digits(m).len() == 2,
{
    let s = two_digits(m);
    lemma_digit_char(m / 10);
    lemma_digit_char(m % 10);
    let s1 = s.drop_last();
    let s0 = s1.drop_last();
    assert(s0.len() == 0);
    assert(digits_value(s0) == 0);
    assert(s1.last() == s[0]);
    assert(s[0] == digit_char(m / 10));
    assert(digits_value(s1) == m / 10);
}

/// Normalizing a date is idempotent: a normalized date normalizes to itself.
pub proof fn law_normalized_date_is_fixed_point(s: Seq<char>, d: Seq<char>)
    requires
        normalized_ala_date(s) == Ok::<Seq<char>, DateError>(d),
    ensures
        normalized_ala_date(d) == Ok::<Seq<char>, DateError>(d),
{
    let sep = if s.contains('-') { '-' } else { '/' };
    let (a, m, b) = split_three(s, sep)->0;
    let (ys, ds) = if encode_utf8(a).len() == 4 { (a, b) } else { (b, a) };
    let year = digits_u32(ys)->Ok_0;
    let month = digits_u32(m)->Ok_0;
    let day = digits_u32(ds)->Ok_0;
    lemma_ascii_digits_encode(ys);
    lemma_four_digits_bound(ys);
    let fy = four_digits(year);
    let fm = two_digits(month);
    let fd = two_digits(day);
    lemma_four_digits_value(year);
    lemma_two_digits_value(month);
    lemma_two_digits_value(day);
    lemma_ascii_digits_encode(fy);
    assert(d =~= fy + seq!['/'] + fm + seq!['/'] + fd);
    assert(d.len() == 10);
    assert(forall|i: int| 0 <= i < 4 ==> #[trigger] d[i] == fy[i]);
    assert(forall|i: int| 5 <= i < 7 ==> #[trigger] d[i] == fm[i - 5]);
    assert(forall|i: int| 8 <= i < 10 ==> #[trigger] d[i] == fd[i - 8]);
    assert(is_digit(fy[0]) && is_digit(fy[1]) && is_digit(fy[2]) && is_digit(fy[3]));
    assert(is_digit(fm[0]) && is_digit(fm[1]) && is_digit(fd[0]) && is_digit(fd[1]));
    assert forall|i: int| 0 <= i < d.len() implies d[i] != '-' by {
        if i < 4 {
            assert(is_digit(fy[i]));
        } else if 5 <= i < 7 {
            assert(is_digit(fm[i - 5]));
        } else if 8 <= i < 10 {
            assert(is_digit(fd[i - 8]));
        }
    }
    assert(!d.contains('-'));
    assert(d[4] == '/');
    assert(d.contains('/'));
    assert(d[0] == fy[0] && d[1] == fy[1] && d[2] == fy[2] && d[3] == fy[3]);
    assert(d[5] == fm[0] && d[6] == fm[1] && d[8] == fd[0] && d[9] == fd[1]);
    assert(d[7] == '/');
    assert(find_from(d, '/', 4) == 4);
    assert(find_from(d, '/', 7) == 7);
    assert(find_from(d, '/', 3) == 4);
    assert(find_from(d, '/', 2) == 4);
    assert(find_from(d, '/', 1) == 4);
    assert(find_from(d, '/', 0) == 4);
    assert(find_from(d, '/', 6) == 7);
    assert(find_from(d, '/', 5) == 7);
    assert(find_from(d, '/', 10) == 10);
    assert(find_from(d, '/', 9) == 10);
    assert(find_from(d, '/', 8) == 10);
    assert(d.take(4) =~= fy);
    assert(d.subrange(5, 7) =~= fm);
    assert(d.subrange(8, 10) =~= fd);
    assert(split_three(d, '/') == Some((fy, fm, fd)));
}

/// The text that ends the version part of an archive file name.
pub open spec fn pkg_tar_marker() -> Seq<char> {
    seq!['.', 'p', 'k', 'g', '.', 't', 'a', 'r']
}

proof fn lemma_marker_found_after(stem: Seq<char>, rest: Seq<char>, i: nat)
    requires
        i <= stem.len(),
        forall|k: int| 0 <= k && k + 8 <= stem.len() ==> #[trigger] stem.subrange(k, k + 8) != pkg_tar_marker(),
    ensures
        find_seq_from(stem + pkg_tar_marker() + rest, pkg_tar_marker(), i) == stem.len(),
    decreases stem.len() - i,
{
    let p = pkg_tar_marker();
    let file = stem + p + rest;
    let n: int = stem.len() as int;
    if i as int == n {
        assert(file.subrange(n, n + 8) =~= p);
    } else {
        if file.subrange(i as int, i + 8 as int) == p {
            if i + 8 <= n {
                assert(file.subrange(i as int, i + 8 as int) =~= stem.subrange(i as int, i + 8 as int));
            } else {
                let d: int = n - i;
                assert(file.subrange(i as int, i + 8 as int)[d] == file[n]);
                assert(file[n] == p[0]);
                assert(p[d] == '.');
                assert(d == 4);
                assert(file.subrange(i as int, i + 8 as int)[5] == file[n + 1]);
                assert(file[n + 1] == p[1]);
            }
        }
        lemma_marker_found_after(stem, rest, i + 1);
    }
}

proof fn lemma_last_dash(s: Seq<char>, k: int, i: nat)
    requires
        0 <= k < i <= s.len(),
        s[k] == '-',
        forall|t: int| k < t < s.len() ==> #[trigger] s[t] != '-',
    ensures
        last_index_before(s, '-', i) == Some(k as nat),
    decreases i,
{
    if i - 1 > k {
        lemma_last_dash(s, k, (i - 1) as nat);
    }
}

/// The version read from the name of an archive file built as
/// `<pkg>-<ver>-<arch>.pkg.tar<ext>` is `<ver>`, when the architecture holds
/// no `-` and `.pkg.tar` occurs nowhere before the extension.
#[verifier::spinoff_prover]
pub proof fn law_pkgver_round_trip(pkg: Seq<char>, ver: Seq<char>, arch: Seq<char>, ext: Seq<char>)
    requires
        !arch.contains('-'),
        forall|k: int|
            0 <= k && k + 8 <= (pkg + seq!['-'] + ver + seq!['-'] + arch).len() ==> #[trigger] (pkg + seq!['-']
                + ver + seq!['-'] + arch).subrange(k, k + 8) != pkg_tar_marker(),
    ensures
        pkgver_of(pkg, pkg + seq!['-'] + ver + seq!['-'] + arch + pkg_tar_marker() + ext) == ver,
{
    let stem = pkg + seq!['-'] + ver + seq!['-'] + arch;
    let file = stem + pkg_tar_marker() + ext;
    lemma_marker_found_after(stem, ext, 0);
    assert(pkg_tar_marker() =~= seq!['.', 'p', 'k', 'g', '.', 't', 'a', 'r']);
    assert(file.take(stem.len() as int) =~= stem);
    let k: int = (pkg.len() + 1 + ver.len()) as int;
    assert(stem[k] == '-');
    assert forall|t: int| k < t < stem.len() implies #[trigger] stem[t] != '-' by {
        assert(stem[t] == arch[t - k - 1]);
        if arch[t - k - 1] == '-' {
            assert(arch.contains('-'));
        }
    }
    lemma_last_dash(stem, k, stem.len());
    let no_arch = stem.take(k);
    assert(no_arch =~= pkg + seq!['-'] + ver);
    let prefix = pkg.push('-');
    assert(no_arch.take(prefix.len() as int) =~= prefix);
    assert(prefix.len() == pkg.len() + 1);
    assert(no_arch.len() == pkg.len() + 1 + ver.len());
    assert forall|t: int| 0 <= t < ver.len() implies #[trigger] no_arch.skip(prefix.len() as int)[t] == ver[t] by {
        assert(no_arch[pkg.len() + 1 + t] == ver[t]);
    }
    assert(no_arch.skip(prefix.len() as int) =~= ver);
}

/// The months of the archive listing are numbered in calendar order:
/// `jan` is `01`, `feb` is `02`, ... `dec` is `12`, in any ASCII case.
pub proof fn law_month_digits_calendar()
    ensures
        month_digits(seq!['j', 'a', 'n']) == Some(seq!['0', '1']),
        month_digits(seq!['f', 'e', 'b']) == Some(seq!['0', '2']),
        month_digits(seq!['m', 'a', 'r']) == Some(seq!['0', '3']),
        month_digits(seq!['a', 'p', 'r']) == Some(seq!['0', '4']),
        month_digits(seq!['m', 'a', 'y']) == Some(seq!['0', '5']),
        month_digits(seq!['j', 'u', 'n']) == Some(seq!['0', '6']),
        month_digits(seq!['j', 'u', 'l']) == Some(seq!['0', '7']),
        month_digits(seq!['a', 'u', 'g']) == Some(seq!['0', '8']),
        month_digits(seq!['s', 'e', 'p']) == Some(seq!['0', '9']),
        month_digits(seq!['o', 'c', 't']) == Some(seq!['1', '0']),
        month_digits(seq!['n', 'o', 'v']) == Some(seq!['1', '1']),
        month_digits(seq!['d', 'e', 'c']) == Some(seq!['1', '2']),
        month_digits(seq!['J', 'U', 'N']) == Some(seq!['0', '6']),
        month_digits(seq!['D', 'e', 'c']) == Some(seq!['1', '2']),
{
    assert(lower_seq(seq!['j', 'a', 'n']) =~= seq!['j', 'a', 'n']);
    assert(lower_seq(seq!['f', 'e', 'b']) =~= seq!['f', 'e', 'b']);
    assert(lower_seq(seq!['m', 'a', 'r']) =~= seq!['m', 'a', 'r']);
    assert(lower_seq(seq!['a', 'p', 'r']) =~= seq!['a', 'p', 'r']);
    assert(lower_seq(seq!['m', 'a', 'y']) =~= seq!['m', 'a', 'y']);
    assert(lower_seq(seq!['j', 'u', 'n']) =~= seq!['j', 'u', 'n']);
    assert(lower_seq(seq!['j', 'u', 'l']) =~= seq!['j', 'u', 'l']);
    assert(lower_seq(seq!['a', 'u', 'g']) =~= seq!['a', 'u', 'g']);
    assert(lower_seq(seq!['s', 'e', 'p']) =~= seq!['s', 'e', 'p']);
    assert(lower_seq(seq!['o', 'c', 't']) =~= seq!['o', 'c', 't']);
    assert(lower_seq(seq!['n', 'o', 'v']) =~= seq!['n', 'o', 'v']);
    assert(lower_seq(seq!['d', 'e', 'c']) =~= seq!['d', 'e', 'c']);
    assert(lower_seq(seq!['J', 'U', 'N']) =~= seq!['j', 'u', 'n']);
    assert(lower_seq(seq!['D', 'e', 'c']) =~= seq!['d', 'e', 'c']);
}

/// A listing date `DD-Mon-YYYY` reads as `YYYY/MM/DD`, with `MM` the
/// number of the month: the day and year are copied unchanged.
pub proof fn law_listing_date_layout(dd: Seq<char>, mon: Seq<char>, yyyy: Seq<char>, mm: Seq<char>)
    requires
        !dd.contains('-'),
        !mon.contains('-'),
        !yyyy.contains('-'),
        encode_utf8(dd).len() == 2,
        encode_utf8(yyyy).len() == 4,
        month_digits(mon) == Some(mm),
    ensures
        ala_listing_date(dd + seq!['-'] + mon + seq!['-'] + yyyy) == Some(yyyy + seq!['/'] + mm + seq!['/'] + dd),
{
    let day = dd + seq!['-'] + mon + seq!['-'] + yyyy;
    let d1 = dd.len();
    let d2 = dd.len() + 1 + mon.len();
    assert(day[d1 as int] == '-');
    assert(day[d2 as int] == '-');
    assert forall|t: int| 0 <= t < d1 implies #[trigger] day[t] != '-' by {
        assert(day[t] == dd[t]);
    }
    assert forall|t: int| d1 < t < d2 implies #[trigger] day[t] != '-' by {
        assert(day[t] == mon[t - d1 - 1]);
    }
    assert forall|t: int| d2 < t < day.len() implies #[trigger] day[t] != '-' by {
        assert(day[t] == yyyy[t - d2 - 1]);
    }
    lemma_find_dash(day, 0, d1 as int);
    lemma_find_dash(day, d1 + 1, d2 as int);
    lemma_find_dash(day, d2 + 1, day.len() as int);
    assert(day.take(d1 as int) =~= dd);
    assert(day.subrange(d1 + 1 as int, d2 as int) =~= mon);
    assert(day.subrange(d2 + 1 as int, day.len() as int) =~= yyyy);
}

proof fn lemma_find_dash(s: Seq<char>, i: nat, k: int)
    requires
        i <= k <= s.len(),
        k < s.len() ==> s[k] == '-',
        forall|t: int| i <= t < k ==> #[trigger] s[t] != '-',
    ensures
        find_from(s, '-', i) == k,
    decreases k - i,
{
    if i < k {
        lemma_find_dash(s, i + 1, k);
    }
}

proof fn lemma_find_char(s: Seq<char>, c: char, i: nat, k: int)
    requires
        i <= k <= s.len(),
        k < s.len() ==> s[k] == c,
        forall|t: int| i <= t < k ==> #[trigger] s[t] != c,
    ensures
        find_from(s, c, i) == k,
    decreases k - i,
{
    if i < k {
        lemma_find_char(s, c, i + 1, k);
    }
}

proof fn lemma_split_three_of(x: Seq<char>, y: Seq<char>, z: Seq<char>, c: char)
    requires
        !x.contains(c),
        !y.contains(c),
        !z.contains(c),
    ensures
        split_three(x + seq![c] + y + seq![c] + z, c) == Some((x, y, z)),
{
    let s = x + seq![c] + y + seq![c] + z;
    let d1: int = x.len() as int;
    let d2: int = (x.len() + 1 + y.len()) as int;
    assert(s[d1] == c);
    assert(s[d2] == c);
    assert forall|t: int| 0 <= t < d1 implies #[trigger] s[t] != c by {
        assert(s[t] == x[t]);
    }
    assert forall|t: int| d1 < t < d2 implies #[trigger] s[t] != c by {
        assert(s[t] == y[t - d1 - 1]);
    }
    assert forall|t: int| d2 < t < s.len() implies #[trigger] s[t] != c by {
        assert(s[t] == z[t - d2 - 1]);
    }
    lemma_find_char(s, c, 0, d1);
    lemma_find_char(s, c, (d1 + 1) as nat, d2);
    lemma_find_char(s, c, (d2 + 1) as nat, s.len() as int);
    assert(s.take(d1) =~= x);
    assert(s.subrange(d1 + 1, d2) =~= y);
    assert(s.subrange(d2 + 1, s.len() as int) =~= z);
}

proof fn lemma_contains_of_parts(x: Seq<char>, y: Seq<char>, z: Seq<char>, c: char, q: char)
    requires
        !x.contains(q),
        !y.contains(q),
        !z.contains(q),
    ensures
        (x + seq![c] + y + seq![c] + z).contains(q) == (c == q),
{
    let s = x + seq![c] + y + seq![c] + z;
    assert(s[x.len() as int] == c);
    if s.contains(q) && c != q {
        let t = choose|t: int| 0 <= t < s.len() && s[t] == q;
        let d1: int = x.len() as int;
        let d2: int = (x.len() + 1 + y.len()) as int;
        if t < d1 {
            assert(s[t] == x[t]);
        } else if d1 < t < d2 {
            assert(s[t] == y[t - d1 - 1]);
        } else if t > d2 {
            assert(s[t] == z[t - d2 - 1]);
        }
    }
}

/// The four accepted layouts of a date name the same day: `YYYY-MM-DD`,
/// `DD-MM-YYYY`, `YYYY/MM/DD` and `DD/MM/YYYY` normalize alike (the year is
/// the part of four bytes, the day the other outer part).
pub proof fn law_date_layouts_agree(y: Seq<char>, m: Seq<char>, d: Seq<char>)
    requires
        !y.contains('-') && !y.contains('/'),
        !m.contains('-') && !m.contains('/'),
        !d.contains('-') && !d.contains('/'),
        encode_utf8(y).len() == 4,
        encode_utf8(d).len() != 4,
    ensures
        normalized_ala_date(d + seq!['-'] + m + seq!['-'] + y) == normalized_ala_date(y + seq!['-'] + m + seq!['-'] + d),
        normalized_ala_date(y + seq!['/'] + m + seq!['/'] + d) == normalized_ala_date(y + seq!['-'] + m + seq!['-'] + d),
        normalized_ala_date(d + seq!['/'] + m + seq!['/'] + y) == normalized_ala_date(y + seq!['-'] + m + seq!['-'] + d),
{
    lemma_split_three_of(y, m, d, '-');
    lemma_split_three_of(d, m, y, '-');
    lemma_split_three_of(y, m, d, '/');
    lemma_split_three_of(d, m, y, '/');
    lemma_contains_of_parts(y, m, d, '-', '-');
    lemma_contains_of_parts(d, m, y, '-', '-');
    lemma_contains_of_parts(y, m, d, '/', '-');
    lemma_contains_of_parts(d, m, y, '/', '-');
    lemma_contains_of_parts(y, m, d, '/', '/');
    lemma_contains_of_parts(d, m, y, '/', '/');
}

} // verus!
