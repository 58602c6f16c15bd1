//! Answers typed at prompts, and the pacman log that `history` shows.

use vstd::prelude::*;
use vstd::string::*;
use crate::text::{all_white_space, is_white_space, law_trimmed_removes_padding, parse_usize, parse_usize_spec, str_eq, trim, trimmed};
use crate::targets::string_views;

verus! {

broadcast use vstd::string::group_string_axioms;

/// The Unicode lower case of a text, as `str::to_lowercase` gives it.
pub uninterp spec fn unicode_lowercase(s: Seq<char>) -> Seq<char>;

/// `str::to_lowercase`: the text in Unicode lower case; the result is named
/// `unicode_lowercase` and nothing else is said of it.
#[verifier::external_body]
fn to_lowercase(s: &str) -> (r: String)
    ensures
        r@ == unicode_lowercase(s@),
{
    s.to_lowercase()
}

/// Whether an already lower-cased answer to a yes/no question accepts:
/// `y` or `yes` surrounded by any white space; a blank answer takes the
/// default; anything else refuses.
pub open spec fn confirms_lowered(lowered: Seq<char>, default: bool) -> bool {
    let t = trimmed(lowered);
    if t == "y"@ || t == "yes"@ {
        true
    } else if t.len() == 0 {
        default
    } else {
        false
    }
}

/// Whether an answer to a yes/no question accepts: `y` or `yes` in any
/// case, surrounded by any white space; a blank answer takes the default;
/// anything else refuses.
pub open spec fn confirms(line: Seq<char>, default: bool) -> bool {
    confirms_lowered(unicode_lowercase(line), default)
}

/// Decides a yes/no answer that is already in lower case.
pub fn confirm_lowered(lowered: &str, default: bool) -> (r: bool)
    ensures
        r == confirms_lowered(lowered@, default),
{
    let t = trim(lowered);
    if str_eq(t, "y") || str_eq(t, "yes") {
        true
    } else if t.unicode_len() == 0 {
        default
    } else {
        false
    }
}

/// Whatever white space surrounds it, `y` and `yes` accept, `n`, `no` and
/// `yess` refuse, and a blank answer takes the default.
pub proof fn law_yes_no_answers(w1: Seq<char>, w2: Seq<char>, default: bool)
    requires
        all_white_space(w1),
        all_white_space(w2),
    ensures
        confirms_lowered(w1 + seq!['y'] + w2, default),
        confirms_lowered(w1 + seq!['y', 'e', 's'] + w2, default),
        !confirms_lowered(w1 + seq!['n'] + w2, default),
        !confirms_lowered(w1 + seq!['n', 'o'] + w2, default),
        !confirms_lowered(w1 + seq!['y', 'e', 's', 's'] + w2, default),
        confirms_lowered(w1 + w2, default) == default,
{
    reveal_strlit("y");
    reveal_strlit("yes");
    assert(!is_white_space('y') && !is_white_space('s') && !is_white_space('n') && !is_white_space('o'));
    law_trimmed_removes_padding(w1, seq!['y'], w2);
    law_trimmed_removes_padding(w1, seq!['y', 'e', 's'], w2);
    law_trimmed_removes_padding(w1, seq!['n'], w2);
    law_trimmed_removes_padding(w1, seq!['n', 'o'], w2);
    law_trimmed_removes_padding(w1, seq!['y', 'e', 's', 's'], w2);
    assert("y"@ =~= seq!['y']);
    assert("yes"@ =~= seq!['y', 'e', 's']);
    assert(seq!['n'] != seq!['y'] && seq!['n'] != seq!['y', 'e', 's']);
    assert(seq!['n', 'o'] != seq!['y'] && seq!['n', 'o'] != seq!['y', 'e', 's']);
    assert(seq!['y', 'e', 's', 's'].len() != 1 && seq!['y', 'e', 's', 's'].len() != 3);
}

/// Reads the answer to a yes/no question.
pub fn confirm_answer(line: &str, default: bool) -> (r: bool)
    ensures
        r == confirms(line@, default),
{
    let lower = to_lowercase(line);
    confirm_lowered(lower.as_str(), default)
}

/// What a line typed at the provider prompt selects.
#[derive(Debug, Clone, Copy, PartialEq, Eq)]
pub enum ProviderChoice {
    /// The provider at this index (counted from 0); a blank line picks the first.
    Chosen(usize),
    /// The line is not a number: ask again.
    NotANumber,
    /// The number is not between 1 and the number of providers: ask again.
    OutOfRange(usize),
}

/// The meaning of a line typed at the provider prompt with `max` providers.
pub open spec fn provider_choice_spec(line: Seq<char>, max: nat) -> ProviderChoice {
    let t = trimmed(line);
    if t.len() == 0 {
        ProviderChoice::Chosen(0)
    } else {
        match parse_usize_spec(t) {
            None => ProviderChoice::NotANumber,
            Some(n) => if n < 1 || n > max {
                ProviderChoice::OutOfRange(n)
            } else {
                ProviderChoice::Chosen((n - 1) as usize)
            },
        }
    }
}

/// At the provider prompt, whatever white space surrounds it: `1` picks the
/// first provider and `2` the second (when there are that many), `0` and a
/// number past the last are refused as out of range, a word is not a
/// number, and a blank line picks the first.
pub proof fn law_provider_answers(w1: Seq<char>, w2: Seq<char>, max: nat)
    requires
        all_white_space(w1),
        all_white_space(w2),
    ensures
        max >= 1 ==> provider_choice_spec(w1 + seq!['1'] + w2, max) == ProviderChoice::Chosen(0),
        max >= 2 ==> provider_choice_spec(w1 + seq!['2'] + w2, max) == ProviderChoice::Chosen(1),
        max < 2 ==> provider_choice_spec(w1 + seq!['2'] + w2, max) == ProviderChoice::OutOfRange(2),
        provider_choice_spec(w1 + seq!['0'] + w2, max) == ProviderChoice::OutOfRange(0),
        provider_choice_spec(w1 + seq!['x'] + w2, max) == ProviderChoice::NotANumber,
        provider_choice_spec(w1 + w2, max) == ProviderChoice::Chosen(0),
{
    assert(!is_white_space('1') && !is_white_space('2') && !is_white_space('0') && !is_white_space('x'));
    law_trimmed_removes_padding(w1, seq!['1'], w2);
    law_trimmed_removes_padding(w1, seq!['2'], w2);
    law_trimmed_removes_padding(w1, seq!['0'], w2);
    law_trimmed_removes_padding(w1, seq!['x'], w2);
    assert(seq!['1'].drop_last().len() == 0);
    assert(parse_usize_spec(seq!['1']) == Some(1usize)) by {
        assert(seq!['1'].drop_last() =~= Seq::<char>::empty());
    }
    assert(parse_usize_spec(seq!['2']) == Some(2usize)) by {
        let t = seq!['2'];
        assert(t.drop_last() =~= Seq::<char>::empty());
        assert(crate::text::digits_value(t.drop_last()) == 0);
        assert(t.last() == '2');
        assert(('2' as u32) == 50);
        assert(crate::text::digits_value(t) == 2);
        assert(crate::text::is_digit(t[0]));
        assert(crate::text::all_digits(t));
    }
    assert(parse_usize_spec(seq!['0']) == Some(0usize)) by {
        let t = seq!['0'];
        assert(t.drop_last() =~= Seq::<char>::empty());
        assert(crate::text::digits_value(t.drop_last()) == 0);
        assert(t.last() == '0');
        assert(('0' as u32) == 48);
        assert(crate::text::digits_value(t) == 0);
        assert(crate::text::is_digit(t[0]));
        assert(crate::text::all_digits(t));
    }
    assert(parse_usize_spec(seq!['x']) is None) by {
        assert(!crate::text::is_digit(seq!['x'][0]));
    }
}

/// Reads a line typed at the provider prompt.
pub fn provider_choice(line: &str, max: usize) -> (r: ProviderChoice)
    ensures
        r == provider_choice_spec(line@, max as nat),
{
    let t = trim(line);
    if t.unicode_len() == 0 {
        return ProviderChoice::Chosen(0);
    }
    match parse_usize(t) {
        None => ProviderChoice::NotANumber,
        Some(n) => {
            if n < 1 || n > max {
                ProviderChoice::OutOfRange(n)
            } else {
                ProviderChoice::Chosen(n - 1)
            }
        },
    }
}

/// The log file that `history` reads: the value of the last `logfile`
/// option, if that one has a value, else the configured log file.
pub open spec fn history_log(keys: Seq<Seq<char>>, values: Seq<Option<Seq<char>>>, default: Seq<char>, n: nat) -> Seq<char>
    decreases n,
{
    if n == 0 || n > keys.len() {
        default
    } else if keys[n - 1] == "logfile"@ {
        match values[n - 1] {
            Some(v) => v,
            None => default,
        }
    } else {
        history_log(keys, values, default, (n - 1) as nat)
    }
}

/// Picks the pacman log from the parsed global options (`keys[i]` with
/// the optional value `values[i]`) and the configured default.
pub fn history_log_file(keys: &[String], values: &[Option<String>], default: &str) -> (r: String)
    requires
        keys@.len() == values@.len(),
    ensures
        r@ == history_log(
            string_views(keys@),
            Seq::new(values@.len(), |i: int| match values@[i] { Some(v) => Some(v@), None => None }),
            default@,
            keys@.len() as nat,
        ),
{
    let ghost kv = string_views(keys@);
    let ghost vv = Seq::new(values@.len(), |i: int| match values@[i] { Some(v) => Some(v@), None => None::<Seq<char>> });
    let mut i = keys.len();
    while i > 0
        invariant
            kv == string_views(keys@),
            vv == Seq::new(values@.len(), |i: int| match values@[i] { Some(v) => Some(v@), None => None::<Seq<char>> }),
            keys@.len() == values@.len(),
            i <= keys@.len(),
            history_log(kv, vv, default@, i as nat) == history_log(kv, vv, default@, keys@.len() as nat),
        decreases i,
    {
        assert(kv[i - 1] == keys@[i - 1]@);
        if str_eq(keys[i - 1].as_str(), "logfile") {
            return match &values[i - 1] {
                Some(v) => v.clone(),
                None => String::from_str(default),
            };
        }
        i = i - 1;
    }
    String::from_str(default)
}

} // verus!
