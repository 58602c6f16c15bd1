//! Small verified helpers on strings, bytes and characters.

use vstd::prelude::*;
use vstd::utf8::*;
use vstd::string::*;

verus! {

broadcast use vstd::utf8::encode_utf8_decode_utf8;

/// The character views of a list of strings.
pub open spec fn views(names: Seq<&str>) -> Seq<Seq<char>> {
    Seq::new(names.len(), |i: int| names[i]@)
}

/// Two strings are equal exactly when their characters are.
pub fn str_eq(a: &str, b: &str) -> (r: bool)
    ensures
        r == (a@ == b@),
{
    let x = a.as_bytes();
    let y = b.as_bytes();
    if x.len() != y.len() {
        return false;
    }
    let n = x.len();
    let mut i: usize = 0;
    while i < n
        invariant
            n == x@.len(),
            n == y@.len(),
            x@ == encode_utf8(a@),
            y@ == encode_utf8(b@),
            i <= n,
            forall|k: int| 0 <= k < i ==> x@[k] == y@[k],
        decreases n - i,
    {
        if x[i] != y[i] {
            return false;
        }
        i = i + 1;
    }
    assert(x@ =~= y@);
    assert(decode_utf8(encode_utf8(a@)) == a@);
    assert(decode_utf8(encode_utf8(b@)) == b@);
    true
}

/// The characters with the Unicode `White_Space` property.
pub open spec fn is_white_space(c: char) -> bool {
    let u = c as u32;
    ||| 0x9 <= u <= 0xD
    ||| u == 0x20
    ||| u == 0x85
    ||| u == 0xA0
    ||| u == 0x1680
    ||| 0x2000 <= u <= 0x200A
    ||| u == 0x2028
    ||| u == 0x2029
    ||| u == 0x202F
    ||| u == 0x205F
    ||| u == 0x3000
}

/// Whether `c` is Unicode white space.
pub fn is_whitespace(c: char) -> (r: bool)
    ensures
        r == is_white_space(c),
{
    let u = c as u32;
    (0x9 <= u && u <= 0xD) || u == 0x20 || u == 0x85 || u == 0xA0 || u == 0x1680 || (0x2000 <= u
        && u <= 0x200A) || u == 0x2028 || u == 0x2029 || u == 0x202F || u == 0x205F || u == 0x3000
}

pub open spec fn is_digit(c: char) -> bool {
    '0' <= c <= '9'
}

pub open spec fn all_digits(s: Seq<char>) -> bool {
    forall|i: int| 0 <= i < s.len() ==> is_digit(#[trigger] s[i])
}

/// The value of a string of decimal digits.
pub open spec fn digits_value(s: Seq<char>) -> nat
    decreases s.len(),
{
    if s.len() == 0 {
        0
    } else {
        digits_value(s.drop_last()) * 10 + ((s.last() as u32) - 48) as nat
    }
}

/// What `str::parse::<usize>` gives: an optional `+` followed by at least one
/// decimal digit, whose value fits in `usize`.
pub open spec fn parse_usize_spec(s: Seq<char>) -> Option<usize> {
    let d = if s.len() > 0 && s[0] == '+' {
        s.drop_first()
    } else {
        s
    };
    if d.len() > 0 && all_digits(d) && digits_value(d) <= usize::MAX {
        Some(digits_value(d) as usize)
    } else {
        None
    }
}

/// Parses a decimal `usize` as `str::parse::<usize>` does.
pub fn parse_usize(s: &str) -> (r: Option<usize>)
    ensures
        r == parse_usize_spec(s@),
{
    let n = s.unicode_len();
    let mut i: usize = 0;
    if n > 0 && s.get_char(0) == '+' {
        i = 1;
    }
    let ghost d = if s@.len() > 0 && s@[0] == '+' {
        s@.drop_first()
    } else {
        s@
    };
    let start = i;
    assert(d =~= s@.skip(start as int));
    if start == n {
        return None;
    }
    let mut value: usize = 0;
    let mut overflow = false;
    while i < n
        invariant
            n == s@.len(),
            start <= i <= n,
            d =~= s@.skip(start as int),
            d == (if s@.len() > 0 && s@[0] == '+' {
                s@.drop_first()
            } else {
                s@
            }),
            all_digits(s@.subrange(start as int, i as int)),
            !overflow ==> value == digits_value(s@.subrange(start as int, i as int)),
            overflow ==> digits_value(s@.subrange(start as int, i as int)) > usize::MAX,
        decreases n - i,
    {
        let c = s.get_char(i);
        if c < '0' || c > '9' {
            assert(d[i - start] == c);
            assert(!is_digit(d[i - start]));
            return None;
        }
        let ghost prefix = s@.subrange(start as int, i as int);
        assert(s@.subrange(start as int, i + 1).drop_last() =~= prefix);
        let digit = (c as u32 - 48) as usize;
        if !overflow {
            if value > (usize::MAX - digit) / 10 {
                overflow = true;
            } else {
                value = value * 10 + digit;
            }
        }
        i = i + 1;
        assert(all_digits(s@.subrange(start as int, i as int)));
    }
    assert(s@.subrange(start as int, n as int) =~= d);
    if overflow {
        None
    } else {
        Some(value)
    }
}

/// The index of the first `c` at or after `i`, or the length when there is none.
pub open spec fn find_from(s: Seq<char>, c: char, i: nat) -> nat
    decreases s.len() - i,
{
    if i < s.len() {
        if s[i as int] == c {
            i
        } else {
            find_from(s, c, i + 1)
        }
    } else {
        s.len()
    }
}

/// The index of the first `c` in `s` at or after `i`, or the length of `s`.
pub fn find_char_from(s: &str, c: char, i: usize) -> (r: usize)
    requires
        i <= s@.len(),
    ensures
        r == find_from(s@, c, i as nat),
        i <= r <= s@.len(),
{
    let n = s.unicode_len();
    let mut k = i;
    while k < n
        invariant
            n == s@.len(),
            i <= k <= n,
            find_from(s@, c, k as nat) == find_from(s@, c, i as nat),
        decreases n - k,
    {
        if s.get_char(k) == c {
            return k;
        }
        k = k + 1;
    }
    k
}

/// Whether `s` contains the character `c`.
pub fn contains_char(s: &str, c: char) -> (r: bool)
    ensures
        r == s@.contains(c),
{
    let k = find_char_from(s, c, 0);
    proof {
        lemma_find_from(s@, c, 0);
    }
    k < s.unicode_len()
}

/// `find_from` finds the first occurrence at or after `i`.
pub proof fn lemma_find_from(s: Seq<char>, c: char, i: nat)
    requires
        i <= s.len(),
    ensures
        i <= find_from(s, c, i) <= s.len(),
        find_from(s, c, i) < s.len() ==> s[find_from(s, c, i) as int] == c,
        forall|k: int| i <= k < find_from(s, c, i) ==> s[k] != c,
        find_from(s, c, i) == s.len() ==> forall|k: int| i <= k < s.len() ==> s[k] != c,
        (find_from(s, c, i) < s.len()) == (exists|k: int| i <= k < s.len() && s[k] == c),
    decreases s.len() - i,
{
    if i < s.len() && s[i as int] != c {
        lemma_find_from(s, c, i + 1);
    }
}

/// `p` occurs in `s` at index `k`.
pub open spec fn occurs_at(s: Seq<char>, p: Seq<char>, k: int) -> bool {
    0 <= k && k + p.len() <= s.len() && s.subrange(k, k + p.len()) == p
}

/// The index of the first occurrence of `p` in `s` at or after `i`, or the
/// length of `s` when there is none.
pub open spec fn find_seq_from(s: Seq<char>, p: Seq<char>, i: nat) -> nat
    decreases s.len() + 1 - i,
{
    if i + p.len() <= s.len() {
        if s.subrange(i as int, (i + p.len()) as int) == p {
            i
        } else {
            find_seq_from(s, p, i + 1)
        }
    } else {
        s.len()
    }
}

/// Whether `p` occurs in `s` at index `k`.
pub fn occurs_at_exec(s: &str, p: &str, k: usize) -> (r: bool)
    ensures
        r == occurs_at(s@, p@, k as int),
{
    let n = s.unicode_len();
    let m = p.unicode_len();
    if k > n || m > n - k {
        return false;
    }
    let mut j: usize = 0;
    while j < m
        invariant
            n == s@.len(),
            m == p@.len(),
            k + m <= n,
            j <= m,
            forall|t: int| 0 <= t < j ==> s@[k + t] == p@[t],
        decreases m - j,
    {
        if s.get_char(k + j) != p.get_char(j) {
            assert(s@.subrange(k as int, k + m)[j as int] != p@[j as int]);
            return false;
        }
        j = j + 1;
    }
    assert(s@.subrange(k as int, k + m) =~= p@);
    true
}

/// The index of the first occurrence of `p` in `s`, or the length of `s`.
pub fn find_str(s: &str, p: &str) -> (r: usize)
    ensures
        r == find_seq_from(s@, p@, 0),
{
    let n = s.unicode_len();
    let m = p.unicode_len();
    if m > n {
        return n;
    }
    if m == 0 {
        assert(s@.subrange(0, 0) =~= p@);
        return 0;
    }
    let mut k: usize = 0;
    while k <= n - m
        invariant
            n == s@.len(),
            m == p@.len(),
            0 < m <= n,
            k <= n - m + 1,
            find_seq_from(s@, p@, k as nat) == find_seq_from(s@, p@, 0),
        decreases n - m + 1 - k,
    {
        if occurs_at_exec(s, p, k) {
            return k;
        }
        k = k + 1;
    }
    n
}

/// The index of the last `c` in `s` before index `i`, if any.
pub open spec fn last_index_before(s: Seq<char>, c: char, i: nat) -> Option<nat>
    decreases i,
{
    if i == 0 || i > s.len() {
        None
    } else if s[i - 1] == c {
        Some((i - 1) as nat)
    } else {
        last_index_before(s, c, (i - 1) as nat)
    }
}

/// The index of the last `c` in `s`, if any.
pub fn last_index_of(s: &str, c: char) -> (r: Option<usize>)
    ensures
        r matches Some(k) ==> last_index_before(s@, c, s@.len()) == Some(k as nat),
        r is None ==> last_index_before(s@, c, s@.len()) is None,
{
    let n = s.unicode_len();
    let mut i: usize = n;
    while i > 0
        invariant
            n == s@.len(),
            i <= n,
            last_index_before(s@, c, i as nat) == last_index_before(s@, c, n as nat),
        decreases i,
    {
        if s.get_char(i - 1) == c {
            return Some(i - 1);
        }
        i = i - 1;
    }
    None
}

/// `c` with ASCII upper-case letters mapped to lower case.
pub open spec fn lower_char(c: char) -> char {
    if 'A' <= c <= 'Z' {
        ((c as u32) + 32) as char
    } else {
        c
    }
}

/// `s` with ASCII upper-case letters mapped to lower case.
pub open spec fn lower_seq(s: Seq<char>) -> Seq<char> {
    s.map_values(|c: char| lower_char(c))
}

/// The ASCII lower case of a character: `'A'..='Z'` become `'a'..='z'`,
/// every other character is unchanged.
pub(crate) fn char_to_ascii_lowercase(c: char) -> (r: char)
    ensures
        r == lower_char(c),
{
    if 'A' <= c && c <= 'Z' {
        let b: u8 = (c as u8) + 32;
        b as char
    } else {
        c
    }
}

/// `String::push`: appends one character, as its documentation states.
#[verifier::external_body]
pub(crate) fn push_char(s: &mut String, c: char)
    ensures
        final(s)@ == old(s)@.push(c),
{
    s.push(c)
}

/// `s` with ASCII letters lower-cased.
pub fn to_ascii_lowercase(s: &str) -> (r: String)
    ensures
        r@ == lower_seq(s@),
{
    let n = s.unicode_len();
    let mut out = String::new();
    let mut i: usize = 0;
    while i < n
        invariant
            n == s@.len(),
            i <= n,
            out@ == lower_seq(s@.take(i as int)),
        decreases n - i,
    {
        let c = char_to_ascii_lowercase(s.get_char(i));
        push_char(&mut out, c);
        assert(lower_seq(s@.take(i + 1)) =~= lower_seq(s@.take(i as int)).push(c));
        i = i + 1;
    }
    assert(s@.take(n as int) =~= s@);
    out
}

/// Strict lexicographic order on byte strings (a proper prefix comes first).
pub open spec fn bytes_lt(a: Seq<u8>, b: Seq<u8>) -> bool
    decreases a.len(),
{
    if a.len() == 0 {
        b.len() > 0
    } else if b.len() == 0 {
        false
    } else if a[0] != b[0] {
        a[0] < b[0]
    } else {
        bytes_lt(a.drop_first(), b.drop_first())
    }
}

/// The order of `str`: that of the UTF-8 bytes.
pub open spec fn text_lt(a: Seq<char>, b: Seq<char>) -> bool {
    bytes_lt(encode_utf8(a), encode_utf8(b))
}

pub proof fn lemma_bytes_lt_irreflexive(a: Seq<u8>)
    ensures
        !bytes_lt(a, a),
    decreases a.len(),
{
    if a.len() > 0 {
        lemma_bytes_lt_irreflexive(a.drop_first());
    }
}

pub proof fn lemma_bytes_lt_transitive(a: Seq<u8>, b: Seq<u8>, c: Seq<u8>)
    requires
        bytes_lt(a, b),
        bytes_lt(b, c),
    ensures
        bytes_lt(a, c),
    decreases a.len(),
{
    if a.len() > 0 && b.len() > 0 && c.len() > 0 && a[0] == b[0] && b[0] == c[0] {
        lemma_bytes_lt_transitive(a.drop_first(), b.drop_first(), c.drop_first());
    }
}

proof fn lemma_bytes_lt_total(a: Seq<u8>, b: Seq<u8>)
    requires
        a != b,
    ensures
        bytes_lt(a, b) || bytes_lt(b, a),
    decreases a.len(),
{
    if a.len() == 0 && b.len() == 0 {
        assert(a =~= b);
    } else if a.len() > 0 && b.len() > 0 && a[0] == b[0] {
        if a.drop_first() == b.drop_first() {
            assert(a =~= seq![a[0]] + a.drop_first());
            assert(b =~= seq![b[0]] + b.drop_first());
        }
        lemma_bytes_lt_total(a.drop_first(), b.drop_first());
    }
}

/// The order of `str` is a strict total order.
pub proof fn lemma_text_lt_order(a: Seq<char>, b: Seq<char>, c: Seq<char>)
    ensures
        !text_lt(a, a),
        text_lt(a, b) && text_lt(b, c) ==> text_lt(a, c),
        a != b ==> text_lt(a, b) || text_lt(b, a),
{
    lemma_bytes_lt_irreflexive(encode_utf8(a));
    if text_lt(a, b) && text_lt(b, c) {
        lemma_bytes_lt_transitive(encode_utf8(a), encode_utf8(b), encode_utf8(c));
    }
    if a != b {
        assert(decode_utf8(encode_utf8(a)) == a);
        assert(decode_utf8(encode_utf8(b)) == b);
        lemma_bytes_lt_total(encode_utf8(a), encode_utf8(b));
    }
}

/// Whether `a < b` in the order of `str` (bytewise).
pub fn str_lt(a: &str, b: &str) -> (r: bool)
    ensures
        r == text_lt(a@, b@),
{
    let x = a.as_bytes();
    let y = b.as_bytes();
    let mut i: usize = 0;
    assert(x@.skip(0) =~= x@);
    assert(y@.skip(0) =~= y@);
    while i < x.len() && i < y.len() && x[i] == y[i]
        invariant
            i <= x@.len(),
            i <= y@.len(),
            x@ == encode_utf8(a@),
            y@ == encode_utf8(b@),
            bytes_lt(x@.skip(i as int), y@.skip(i as int)) == bytes_lt(x@, y@),
        decreases x@.len() - i,
    {
        assert(x@.skip(i as int).drop_first() =~= x@.skip(i + 1));
        assert(y@.skip(i as int).drop_first() =~= y@.skip(i + 1));
        i = i + 1;
    }
    if i == x.len() {
        i < y.len()
    } else if i == y.len() {
        false
    } else {
        assert(x@.skip(i as int)[0] == x@[i as int]);
        assert(y@.skip(i as int)[0] == y@[i as int]);
        x[i] < y[i]
    }
}

/// The index of the first character at or after `i` that is not white space.
pub open spec fn skip_space_from(s: Seq<char>, i: nat) -> nat
    decreases s.len() - i,
{
    if i < s.len() && is_white_space(s[i as int]) {
        skip_space_from(s, i + 1)
    } else {
        i
    }
}

/// The index just after the last character before `j` that is not white space.
pub open spec fn trim_end_at(s: Seq<char>, j: nat) -> nat
    decreases j,
{
    if j > 0 && j <= s.len() && is_white_space(s[j - 1]) {
        trim_end_at(s, (j - 1) as nat)
    } else {
        j
    }
}

/// `s` without leading and trailing white space, as `str::trim` gives it.
pub open spec fn trimmed(s: Seq<char>) -> Seq<char> {
    let start = skip_space_from(s, 0);
    if start == s.len() {
        seq![]
    } else {
        s.subrange(start as int, trim_end_at(s, s.len()) as int)
    }
}

proof fn lemma_skip_space_bound(s: Seq<char>, i: nat)
    requires
        i <= s.len(),
    ensures
        i <= skip_space_from(s, i) <= s.len(),
        skip_space_from(s, i) < s.len() ==> !is_white_space(s[skip_space_from(s, i) as int]),
    decreases s.len() - i,
{
    if i < s.len() && is_white_space(s[i as int]) {
        lemma_skip_space_bound(s, i + 1);
    }
}

proof fn lemma_trim_end_bound(s: Seq<char>, j: nat, start: nat)
    requires
        j <= s.len(),
        start < j,
        !is_white_space(s[start as int]),
    ensures
        start < trim_end_at(s, j) <= j,
    decreases j,
{
    if j > 0 && is_white_space(s[j - 1]) {
        lemma_trim_end_bound(s, (j - 1) as nat, start);
    }
}

/// Every character of `w` is white space.
pub open spec fn all_white_space(w: Seq<char>) -> bool {
    forall|i: int| 0 <= i < w.len() ==> is_white_space(#[trigger] w[i])
}

proof fn lemma_skip_padding(s: Seq<char>, i: nat, k: nat)
    requires
        i <= k <= s.len(),
        forall|t: int| i <= t < k ==> is_white_space(#[trigger] s[t]),
        k < s.len() ==> !is_white_space(s[k as int]),
    ensures
        skip_space_from(s, i) == k,
    decreases k - i,
{
    if i < k {
        lemma_skip_padding(s, i + 1, k);
    }
}

proof fn lemma_trim_end_padding(s: Seq<char>, j: nat, k: nat)
    requires
        0 < k <= j <= s.len(),
        forall|t: int| k <= t < j ==> is_white_space(#[trigger] s[t]),
        !is_white_space(s[k - 1]),
    ensures
        trim_end_at(s, j) == k,
    decreases j,
{
    if j > k {
        lemma_trim_end_padding(s, (j - 1) as nat, k);
    }
}

/// Trimming takes off exactly the white space around a text that neither
/// starts nor ends with white space, and leaves nothing of a text that is
/// all white space.
pub proof fn law_trimmed_removes_padding(w1: Seq<char>, x: Seq<char>, w2: Seq<char>)
    requires
        all_white_space(w1),
        all_white_space(w2),
    ensures
        x.len() > 0 && !is_white_space(x[0]) && !is_white_space(x.last()) ==> trimmed(w1 + x + w2) == x,
        trimmed(w1 + w2) == Seq::<char>::empty(),
{
    let s = w1 + x + w2;
    if x.len() > 0 && !is_white_space(x[0]) && !is_white_space(x.last()) {
        assert forall|t: int| 0 <= t < w1.len() implies is_white_space(#[trigger] s[t]) by {
            assert(s[t] == w1[t]);
        }
        assert(s[w1.len() as int] == x[0]);
        lemma_skip_padding(s, 0, w1.len());
        let k = w1.len() + x.len();
        assert forall|t: int| k <= t < s.len() implies is_white_space(#[trigger] s[t]) by {
            assert(s[t] == w2[t - k]);
        }
        assert(s[k - 1] == x.last());
        lemma_trim_end_padding(s, s.len(), k);
        assert(s.subrange(w1.len() as int, k as int) =~= x);
    }
    let e = w1 + w2;
    assert forall|t: int| 0 <= t < e.len() implies is_white_space(#[trigger] e[t]) by {
        if t < w1.len() {
            assert(e[t] == w1[t]);
        } else {
            assert(e[t] == w2[t - w1.len()]);
        }
    }
    lemma_skip_padding(e, 0, e.len());
}

/// `s` without leading and trailing white space.
pub fn trim(s: &str) -> (r: &str)
    ensures
        r@ == trimmed(s@),
{
    let n = s.unicode_len();
    let mut i: usize = 0;
    while i < n && is_whitespace(s.get_char(i))
        invariant
            n == s@.len(),
            i <= n,
            skip_space_from(s@, i as nat) == skip_space_from(s@, 0),
        decreases n - i,
    {
        i = i + 1;
    }
    if i == n {
        proof {
            reveal_strlit("");
        }
        return "";
    }
    let mut j: usize = n;
    proof {
        lemma_skip_space_bound(s@, 0);
        lemma_trim_end_bound(s@, n as nat, i as nat);
    }
    while j > i + 1 && is_whitespace(s.get_char(j - 1))
        invariant
            n == s@.len(),
            i < j <= n,
            !is_white_space(s@[i as int]),
            trim_end_at(s@, j as nat) == trim_end_at(s@, n as nat),
        decreases j,
    {
        j = j - 1;
    }
    s.substring_char(i, j)
}

} // verus!
