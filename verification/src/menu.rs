//! The number-menu selection language: `1 2-4 ^3 ,extra ^core`.
//!
//! Words are separated by white space or commas. A word is a number `N`,
//! a range `N-M`, or a name; a leading `^` turns an inclusion into an
//! exclusion.

use std::ops::Range;
use vstd::prelude::*;
use crate::text::{find_char_from, find_from, is_white_space, is_whitespace, parse_usize, parse_usize_spec, str_eq, views};

verus! {

/// The meaning of a menu: the ranges `[start, end)` and names it includes
/// and excludes, in the order in which they were written.
#[verifier::ext_equal]
pub struct MenuSpec {
    pub in_range: Seq<(int, int)>,
    pub ex_range: Seq<(int, int)>,
    pub in_word: Seq<Seq<char>>,
    pub ex_word: Seq<Seq<char>>,
}

/// What one word of the menu denotes.
pub enum WordClass {
    Span { invert: bool, start: int, end: int },
    Name { invert: bool, name: Seq<char> },
}

pub open spec fn is_menu_separator(c: char) -> bool {
    is_white_space(c) || c == ','
}

/// The index of the first character at or after `i` that is not `^`.
pub open spec fn skip_carets(w: Seq<char>, i: nat) -> nat
    decreases w.len() - i,
{
    if i < w.len() && w[i as int] == '^' {
        skip_carets(w, i + 1)
    } else {
        i
    }
}

/// A non-empty word: after its leading `^`s, the text before the first `-`
/// is the start; when that is a number, the word is `start` alone or, after
/// the `-`, the range up to the number that ends at the next `-`; any text
/// that is not a number makes the word stand for the text before the first `-`.
pub open spec fn classify_word(w: Seq<char>) -> WordClass {
    let invert = w.len() > 0 && w[0] == '^';
    let body = w.skip(skip_carets(w, 0) as int);
    let d1 = find_from(body, '-', 0);
    let start_str = body.take(d1 as int);
    match parse_usize_spec(start_str) {
        None => WordClass::Name { invert, name: start_str },
        Some(st) => if d1 == body.len() {
            WordClass::Span { invert, start: st as int, end: st + 1 }
        } else {
            let d2 = find_from(body, '-', d1 + 1);
            match parse_usize_spec(body.subrange(d1 + 1 as int, d2 as int)) {
                Some(e) => WordClass::Span { invert, start: st as int, end: e + 1 },
                None => WordClass::Name { invert, name: start_str },
            }
        },
    }
}

pub open spec fn empty_menu() -> MenuSpec {
    MenuSpec { in_range: seq![], ex_range: seq![], in_word: seq![], ex_word: seq![] }
}

/// The menu `m` with the word `w` added; empty words add nothing.
pub open spec fn add_word(m: MenuSpec, w: Seq<char>) -> MenuSpec {
    if w.len() == 0 {
        m
    } else {
        match classify_word(w) {
            WordClass::Span { invert, start, end } => if invert {
                MenuSpec { ex_range: m.ex_range.push((start, end)), ..m }
            } else {
                MenuSpec { in_range: m.in_range.push((start, end)), ..m }
            },
            WordClass::Name { invert, name } => if invert {
                MenuSpec { ex_word: m.ex_word.push(name), ..m }
            } else {
                MenuSpec { in_word: m.in_word.push(name), ..m }
            },
        }
    }
}

/// The menu read from the first `i` characters of `s`, with the word that is
/// still open after them.
pub open spec fn menu_scan(s: Seq<char>, i: nat) -> (MenuSpec, Seq<char>)
    decreases i,
{
    if i == 0 || i > s.len() {
        (empty_menu(), seq![])
    } else {
        let prev = menu_scan(s, (i - 1) as nat);
        let c = s[i - 1];
        if is_menu_separator(c) {
            (add_word(prev.0, prev.1), seq![])
        } else {
            (prev.0, prev.1.push(c))
        }
    }
}

/// The menu that the text `s` denotes.
pub open spec fn menu_of(s: Seq<char>) -> MenuSpec {
    add_word(menu_scan(s, s.len()).0, menu_scan(s, s.len()).1)
}

/// The ranges of a word can be written with `usize` bounds.
pub open spec fn word_fits(w: Seq<char>) -> bool {
    w.len() == 0 || match classify_word(w) {
        WordClass::Span { end, .. } => end <= usize::MAX,
        WordClass::Name { .. } => true,
    }
}

/// Every word of `s` fits (no word ends its range at `usize::MAX + 1`).
pub open spec fn menu_fits(s: Seq<char>) -> bool {
    &&& forall|i: nat|
        i < s.len() && is_menu_separator(s[i as int]) ==> word_fits(#[trigger] menu_scan(s, i).1)
    &&& word_fits(menu_scan(s, s.len()).1)
}

pub open spec fn range_hit(rs: Seq<(int, int)>, n: int) -> bool {
    exists|i: int| 0 <= i < rs.len() && (#[trigger] rs[i]).0 <= n < rs[i].1
}

/// Whether the menu `m` selects entry number `n` named `w`: an inclusion
/// selects it, otherwise an exclusion rejects it, otherwise it is selected
/// exactly when the menu includes nothing.
pub open spec fn menu_contains(m: MenuSpec, n: int, w: Seq<char>) -> bool {
    if range_hit(m.in_range, n) || m.in_word.contains(w) {
        true
    } else if range_hit(m.ex_range, n) || m.ex_word.contains(w) {
        false
    } else {
        m.in_range.len() == 0 && m.in_word.len() == 0
    }
}

pub open spec fn ranges_view(v: Seq<Range<usize>>) -> Seq<(int, int)> {
    Seq::new(v.len(), |i: int| (v[i].start as int, v[i].end as int))
}

#[derive(Debug)]
pub struct NumberMenu<'a> {
    pub in_range: Vec<Range<usize>>,
    pub ex_range: Vec<Range<usize>>,
    pub in_word: Vec<&'a str>,
    pub ex_word: Vec<&'a str>,
}

impl<'a> View for NumberMenu<'a> {
    type V = MenuSpec;

    open spec fn view(&self) -> MenuSpec {
        MenuSpec {
            in_range: ranges_view(self.in_range@),
            ex_range: ranges_view(self.ex_range@),
            in_word: views(self.in_word@),
            ex_word: views(self.ex_word@),
        }
    }
}

fn any_range_contains(v: &Vec<Range<usize>>, n: usize) -> (r: bool)
    ensures
        r == range_hit(ranges_view(v@), n as int),
{
    let mut i: usize = 0;
    while i < v.len()
        invariant
            i <= v@.len(),
            forall|k: int| 0 <= k < i ==> !((#[trigger] v@[k]).start <= n < v@[k].end),
        decreases v@.len() - i,
    {
        if v[i].start <= n && n < v[i].end {
            assert(ranges_view(v@)[i as int] == (v@[i as int].start as int, v@[i as int].end as int));
            return true;
        }
        i = i + 1;
    }
    assert forall|k: int| 0 <= k < v@.len() implies !((#[trigger] ranges_view(v@)[k]).0 <= n < ranges_view(v@)[k].1) by {
        assert(ranges_view(v@)[k] == (v@[k].start as int, v@[k].end as int));
    }
    false
}

fn any_word_equals(v: &Vec<&str>, w: &str) -> (r: bool)
    ensures
        r == views(v@).contains(w@),
{
    let mut i: usize = 0;
    while i < v.len()
        invariant
            i <= v@.len(),
            forall|k: int| 0 <= k < i ==> v@[k]@ != w@,
        decreases v@.len() - i,
    {
        if str_eq(v[i], w) {
            assert(views(v@)[i as int] == w@);
            return true;
        }
        i = i + 1;
    }
    assert forall|k: int| 0 <= k < views(v@).len() implies views(v@)[k] != w@ by {
        assert(views(v@)[k] == v@[k]@);
    }
    false
}

impl<'a> NumberMenu<'a> {
    fn add_word(&mut self, word: &'a str)
        requires
            word_fits(word@),
        ensures
            final(self)@ == add_word(old(self)@, word@),
    {
        if word.is_empty() {
            return;
        }
        let ghost w = word@;
        let n = word.unicode_len();
        let invert = word.get_char(0) == '^';
        let mut k: usize = 0;
        while k < n && word.get_char(k) == '^'
            invariant
                n == w.len(),
                w == word@,
                k <= n,
                skip_carets(w, k as nat) == skip_carets(w, 0),
            decreases n - k,
        {
            k = k + 1;
        }
        assert(skip_carets(w, k as nat) == k);
        let body = word.substring_char(k, n);
        let bn = n - k;
        assert(body@ =~= w.skip(k as int));
        let d1 = find_char_from(body, '-', 0);
        let start_str = body.substring_char(0, d1);
        assert(start_str@ =~= body@.take(d1 as int));
        match parse_usize(start_str) {
            None => {
                if invert {
                    self.ex_word.push(start_str);
                } else {
                    self.in_word.push(start_str);
                }
            },
            Some(st) => {
                if d1 == bn {
                    if invert {
                        self.ex_range.push(Range { start: st, end: st + 1 });
                    } else {
                        self.in_range.push(Range { start: st, end: st + 1 });
                    }
                } else {
                    let d2 = find_char_from(body, '-', d1 + 1);
                    let end_str = body.substring_char(d1 + 1, d2);
                    match parse_usize(end_str) {
                        Some(e) => {
                            if invert {
                                self.ex_range.push(Range { start: st, end: e + 1 });
                            } else {
                                self.in_range.push(Range { start: st, end: e + 1 });
                            }
                        },
                        None => {
                            if invert {
                                self.ex_word.push(start_str);
                            } else {
                                self.in_word.push(start_str);
                            }
                        },
                    }
                }
            },
        }
        assert(self@ =~= add_word(old(self)@, w));
    }

    /// Reads a menu from `input`; see `menu_of`.
    pub fn new(input: &'a str) -> (menu: Self)
        requires
            menu_fits(input@),
        ensures
            menu@ == menu_of(input@),
    {
        let mut menu = NumberMenu {
            in_range: Vec::new(),
            ex_range: Vec::new(),
            in_word: Vec::new(),
            ex_word: Vec::new(),
        };
        let ghost s = input@;
        let n = input.unicode_len();
        let mut start: usize = 0;
        let mut i: usize = 0;
        assert(menu@ =~= empty_menu());
        while i < n
            invariant
                n == s.len(),
                s == input@,
                start <= i <= n,
                menu_fits(s),
                menu_scan(s, i as nat) == (menu@, s.subrange(start as int, i as int)),
            decreases n - i,
        {
            let c = input.get_char(i);
            let ghost before = menu@;
            if is_whitespace(c) || c == ',' {
                let w = input.substring_char(start, i);
                assert(word_fits(menu_scan(s, i as nat).1));
                menu.add_word(w);
                start = i + 1;
                assert(s.subrange(start as int, i + 1) =~= Seq::<char>::empty());
            } else {
                assert(s.subrange(start as int, i + 1) =~= s.subrange(start as int, i as int).push(c));
            }
            i = i + 1;
        }
        let w = input.substring_char(start, n);
        menu.add_word(w);
        menu
    }

    /// Whether the menu selects entry number `n` named `word`; see `menu_contains`.
    pub fn contains(&self, n: usize, word: &str) -> (r: bool)
        ensures
            r == menu_contains(self@, n as int, word@),
    {
        if any_range_contains(&self.in_range, n) || any_word_equals(&self.in_word, word) {
            true
        } else if any_range_contains(&self.ex_range, n) || any_word_equals(&self.ex_word, word) {
            false
        } else {
            self.in_range.len() == 0 && self.in_word.len() == 0
        }
    }
}

proof fn lemma_blank_scan(s: Seq<char>, i: nat)
    requires
        i <= s.len(),
        forall|k: int| 0 <= k < s.len() ==> is_menu_separator(#[trigger] s[k]),
    ensures
        menu_scan(s, i) == (empty_menu(), Seq::<char>::empty()),
    decreases i,
{
    if i > 0 {
        lemma_blank_scan(s, (i - 1) as nat);
        assert(is_menu_separator(s[i - 1]));
    }
}

/// A menu answer with no words (empty, or only separators) selects every entry.
pub proof fn law_blank_menu_selects_all(s: Seq<char>, n: int, w: Seq<char>)
    requires
        forall|k: int| 0 <= k < s.len() ==> is_menu_separator(#[trigger] s[k]),
    ensures
        menu_contains(menu_of(s), n, w),
{
    lemma_blank_scan(s, s.len());
    assert(menu_of(s) == empty_menu());
}

/// An entry that an inclusion names is selected whatever the exclusions say;
/// with no inclusion, an entry is selected exactly when no exclusion names it.
pub proof fn law_inclusion_wins(m: MenuSpec, n: int, w: Seq<char>)
    ensures
        (range_hit(m.in_range, n) || m.in_word.contains(w)) ==> menu_contains(m, n, w),
        (m.in_range.len() == 0 && m.in_word.len() == 0) ==> (menu_contains(m, n, w) <==> !(range_hit(
            m.ex_range,
            n,
        ) || m.ex_word.contains(w))),
{
}

/// Whether the ranges of `word` can be written with `usize` bounds.
fn word_fits_exec(word: &str) -> (r: bool)
    ensures
        r == word_fits(word@),
{
    if word.is_empty() {
        return true;
    }
    let ghost w = word@;
    let n = word.unicode_len();
    let mut k: usize = 0;
    while k < n && word.get_char(k) == '^'
        invariant
            n == w.len(),
            w == word@,
            k <= n,
            skip_carets(w, k as nat) == skip_carets(w, 0),
        decreases n - k,
    {
        k = k + 1;
    }
    assert(skip_carets(w, k as nat) == k);
    let body = word.substring_char(k, n);
    let bn = n - k;
    assert(body@ =~= w.skip(k as int));
    let d1 = find_char_from(body, '-', 0);
    let start_str = body.substring_char(0, d1);
    assert(start_str@ =~= body@.take(d1 as int));
    match parse_usize(start_str) {
        None => true,
        Some(st) => {
            if d1 == bn {
                st < usize::MAX
            } else {
                let d2 = find_char_from(body, '-', d1 + 1);
                let end_str = body.substring_char(d1 + 1, d2);
                match parse_usize(end_str) {
                    Some(e) => e < usize::MAX,
                    None => true,
                }
            }
        },
    }
}

impl<'a> NumberMenu<'a> {
    /// Reads a menu from `input`; `None` when a range of it would end past
    /// `usize::MAX` (a word that is the number `usize::MAX`).
    pub fn checked_new(input: &'a str) -> (r: Option<Self>)
        ensures
            r is None <==> !menu_fits(input@),
            r matches Some(m) ==> m@ == menu_of(input@),
    {
        let ghost s = input@;
        let n = input.unicode_len();
        let mut start: usize = 0;
        let mut i: usize = 0;
        while i < n
            invariant
                n == s.len(),
                s == input@,
                start <= i <= n,
                menu_scan(s, i as nat).1 == s.subrange(start as int, i as int),
                forall|k: nat| k < i && is_menu_separator(s[k as int]) ==> word_fits(#[trigger] menu_scan(s, k).1),
            decreases n - i,
        {
            let c = input.get_char(i);
            if is_whitespace(c) || c == ',' {
                let w = input.substring_char(start, i);
                if !word_fits_exec(w) {
                    return None;
                }
                start = i + 1;
                assert(s.subrange(start as int, i + 1) =~= Seq::<char>::empty());
            } else {
                assert(s.subrange(start as int, i + 1) =~= s.subrange(start as int, i as int).push(c));
            }
            i = i + 1;
        }
        let w = input.substring_char(start, n);
        if !word_fits_exec(w) {
            return None;
        }
        Some(NumberMenu::new(input))
    }
}

/// The menu `m1` followed by the menu `m2`: each list of `m2` after that of `m1`.
pub open spec fn menu_concat(m1: MenuSpec, m2: MenuSpec) -> MenuSpec {
    MenuSpec {
        in_range: m1.in_range + m2.in_range,
        ex_range: m1.ex_range + m2.ex_range,
        in_word: m1.in_word + m2.in_word,
        ex_word: m1.ex_word + m2.ex_word,
    }
}

proof fn lemma_scan_prefix(a: Seq<char>, b: Seq<char>, i: nat)
    requires
        i <= a.len(),
    ensures
        menu_scan(a + b, i) == menu_scan(a, i),
    decreases i,
{
    if i > 0 {
        lemma_scan_prefix(a, b, (i - 1) as nat);
        assert((a + b)[i - 1] == a[i - 1]);
    }
}

proof fn lemma_add_word_concat(m1: MenuSpec, m2: MenuSpec, w: Seq<char>)
    ensures
        add_word(menu_concat(m1, m2), w) == menu_concat(m1, add_word(m2, w)),
{
    if w.len() > 0 {
        match classify_word(w) {
            WordClass::Span { invert, start, end } => {
                assert((m1.ex_range + m2.ex_range).push((start, end)) =~= m1.ex_range + m2.ex_range.push((start, end)));
                assert((m1.in_range + m2.in_range).push((start, end)) =~= m1.in_range + m2.in_range.push((start, end)));
            },
            WordClass::Name { invert, name } => {
                assert((m1.ex_word + m2.ex_word).push(name) =~= m1.ex_word + m2.ex_word.push(name));
                assert((m1.in_word + m2.in_word).push(name) =~= m1.in_word + m2.in_word.push(name));
            },
        }
        assert(add_word(menu_concat(m1, m2), w) =~= menu_concat(m1, add_word(m2, w)));
    }
}

proof fn lemma_scan_after_separator(a: Seq<char>, c: char, b: Seq<char>, j: nat)
    requires
        is_menu_separator(c),
        j <= b.len(),
    ensures
        menu_scan(a + seq![c] + b, a.len() + 1 + j) == (
            menu_concat(menu_of(a), menu_scan(b, j).0),
            menu_scan(b, j).1,
        ),
    decreases j,
{
    let s = a + seq![c] + b;
    if j == 0 {
        assert(s =~= a + (seq![c] + b));
        lemma_scan_prefix(a, seq![c] + b, a.len());
        assert(s[a.len() as int] == c);
        assert(menu_concat(menu_of(a), empty_menu()) =~= menu_of(a));
    } else {
        lemma_scan_after_separator(a, c, b, (j - 1) as nat);
        assert(s[a.len() + 1 + j - 1] == b[j - 1]);
        let prev = menu_scan(b, (j - 1) as nat);
        if is_menu_separator(b[j - 1]) {
            lemma_add_word_concat(menu_of(a), prev.0, prev.1);
        }
    }
}

/// Reading two answers joined by a separator (any Unicode white space, a
/// line break, a tab, or a comma) gives the menu of the first followed by the
/// menu of the second; so a trailing separator, such as the line break of a
/// line read from the terminal, changes nothing.
pub proof fn law_menu_of_joined(a: Seq<char>, c: char, b: Seq<char>)
    requires
        is_white_space(c) || c == ',' || c == '\n' || c == '\r' || c == '\t' || c == ' ',
    ensures
        menu_of(a + seq![c] + b) == menu_concat(menu_of(a), menu_of(b)),
        menu_of(a + seq![c]) == menu_of(a),
{
    assert(is_menu_separator(c));
    lemma_joined(a, c, b);
    lemma_joined(a, c, Seq::<char>::empty());
    assert(a + seq![c] + Seq::<char>::empty() =~= a + seq![c]);
    assert(menu_of(Seq::<char>::empty()) == empty_menu());
    assert(menu_concat(menu_of(a), empty_menu()) =~= menu_of(a));
}

proof fn lemma_joined(a: Seq<char>, c: char, b: Seq<char>)
    requires
        is_menu_separator(c),
    ensures
        menu_of(a + seq![c] + b) == menu_concat(menu_of(a), menu_of(b)),
{
    let s = a + seq![c] + b;
    lemma_scan_after_separator(a, c, b, b.len());
    assert(s.len() == a.len() + 1 + b.len());
    let sc = menu_scan(b, b.len());
    lemma_add_word_concat(menu_of(a), sc.0, sc.1);
}

} // verus!
