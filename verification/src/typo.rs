//! Strict typo tolerance for repository package names.
//!
//! Names are compared after folding ASCII case and collapsing runs of a
//! repeated byte; the distance between the folded names is the Levenshtein
//! distance, and a candidate is accepted only when it is similar enough and
//! strictly closer than every other distinct candidate.

use vstd::prelude::*;
use vstd::utf8::*;
use crate::text::{str_eq, views};

verus! {

/// ASCII lower-casing of one byte; other bytes are unchanged.
pub open spec fn ascii_lower(b: u8) -> u8 {
    if 65 <= b <= 90 {
        (b + 32) as u8
    } else {
        b
    }
}

/// The bytes lower-cased, with every run of equal (lower-cased) bytes kept once.
pub open spec fn collapse(s: Seq<u8>) -> Seq<u8>
    decreases s.len(),
{
    if s.len() == 0 {
        seq![]
    } else {
        let c = collapse(s.drop_last());
        let b = ascii_lower(s.last());
        if c.len() > 0 && c.last() == b {
            c
        } else {
            c.push(b)
        }
    }
}

/// Levenshtein distance between the first `i` bytes of `a` and the first `j` bytes of `b`.
pub open spec fn lev_prefix(a: Seq<u8>, b: Seq<u8>, i: nat, j: nat) -> nat
    decreases i + j,
{
    if i == 0 {
        j
    } else if j == 0 {
        i
    } else {
        let del = lev_prefix(a, b, (i - 1) as nat, j) + 1;
        let ins = lev_prefix(a, b, i, (j - 1) as nat) + 1;
        let sub = lev_prefix(a, b, (i - 1) as nat, (j - 1) as nat) + if a[i - 1] == b[j - 1] {
            0nat
        } else {
            1nat
        };
        if del <= ins && del <= sub {
            del
        } else if ins <= sub {
            ins
        } else {
            sub
        }
    }
}

/// Levenshtein distance (insertions, deletions and substitutions of one byte).
pub open spec fn edit_distance(a: Seq<u8>, b: Seq<u8>) -> nat {
    lev_prefix(a, b, a.len(), b.len())
}

/// The largest distance allowed between names whose longer one has
/// `max_len` bytes: `max_len * (100 - similarity) / 100`, rounded up.
pub open spec fn typo_budget(max_len: nat, similarity: nat) -> nat {
    ((max_len * (100 - similarity) + 99) / 100) as nat
}

pub open spec fn first_byte(s: Seq<u8>) -> Option<u8> {
    if s.len() > 0 {
        Some(s[0])
    } else {
        None
    }
}

/// The folded form of a name given by its characters.
pub open spec fn folded(s: Seq<char>) -> Seq<u8> {
    collapse(encode_utf8(s))
}

/// The score `(distance, longer folded length)` of `cand` as a correction of
/// `input`, or `None` when `cand` is not an acceptable correction.
pub open spec fn typo_score(input: Seq<char>, cand: Seq<char>, similarity: nat) -> Option<(nat, nat)> {
    let ni = folded(input);
    let nc = folded(cand);
    let max_len: nat = if ni.len() >= nc.len() { ni.len() } else { nc.len() };
    let dist = edit_distance(ni, nc);
    let margin: nat = if dist <= max_len { (max_len - dist) as nat } else { 0 };
    if input.len() > 0 && cand.len() > 0 && cand != input && first_byte(nc) == first_byte(ni)
        && max_len > 0 && dist <= typo_budget(max_len, similarity) && margin * 100 >= max_len
        * similarity {
        Some((dist, max_len))
    } else {
        None
    }
}

/// Lexicographic order on scores: smaller distance first, then shorter names.
pub open spec fn score_lt(x: (nat, nat), y: (nat, nat)) -> bool {
    x.0 < y.0 || (x.0 == y.0 && x.1 < y.1)
}

/// `w` is the correction of `input` among `cands`: it is acceptable, and its
/// score is strictly smaller than that of every other acceptable name.
pub open spec fn is_best_typo(
    input: Seq<char>,
    cands: Seq<Seq<char>>,
    similarity: nat,
    w: Seq<char>,
) -> bool {
    &&& cands.contains(w)
    &&& typo_score(input, w, similarity) is Some
    &&& forall|j: int|
        0 <= j < cands.len() && cands[j] != w && (#[trigger] typo_score(
            input,
            cands[j],
            similarity,
        )) is Some ==> score_lt(
            typo_score(input, w, similarity)->0,
            typo_score(input, cands[j], similarity)->0,
        )
}

/// The scores that the arithmetic of the search can hold without overflow.
pub open spec fn score_fits(s: Seq<char>) -> bool {
    folded(s).len() * 100 + 99 <= usize::MAX
}

proof fn lemma_lev_bounds(a: Seq<u8>, b: Seq<u8>, i: nat, j: nat)
    ensures
        lev_prefix(a, b, i, j) <= if i >= j { i } else { j },
        lev_prefix(a, b, i, j) >= if i >= j { i - j } else { j - i },
    decreases i + j,
{
    if i > 0 && j > 0 {
        lemma_lev_bounds(a, b, (i - 1) as nat, j);
        lemma_lev_bounds(a, b, i, (j - 1) as nat);
        lemma_lev_bounds(a, b, (i - 1) as nat, (j - 1) as nat);
    }
}

/// When every entry of row `i` exceeds `m`, so does entry `j` of row `i + 1`.
proof fn lemma_row_step(a: Seq<u8>, b: Seq<u8>, i: nat, j: nat, lb: nat, m: nat)
    requires
        j <= lb,
        forall|k: nat| k <= lb ==> lev_prefix(a, b, i, k) > m,
    ensures
        lev_prefix(a, b, i + 1, j) > m,
    decreases j,
{
    if j == 0 {
        assert(lev_prefix(a, b, i, 0) > m);
    } else {
        lemma_row_step(a, b, i, (j - 1) as nat, lb, m);
        assert(lev_prefix(a, b, i, j) > m);
        assert(lev_prefix(a, b, i, (j - 1) as nat) > m);
    }
}

/// Once a whole row exceeds `m`, the final distance does too.
proof fn lemma_row_exceeds(a: Seq<u8>, b: Seq<u8>, i: nat, m: nat)
    requires
        i <= a.len(),
        forall|k: nat| k <= b.len() ==> lev_prefix(a, b, i, k) > m,
    ensures
        edit_distance(a, b) > m,
    decreases a.len() - i,
{
    if i < a.len() {
        let i1 = i + 1;
        assert forall|k: nat| k <= b.len() implies #[trigger] lev_prefix(a, b, i1, k) > m by {
            lemma_row_step(a, b, i, k, b.len(), m);
        }
        lemma_row_exceeds(a, b, i + 1, m);
    }
}

/// Levenshtein distance of `a` and `b` when it is at most `max_dist`, else `None`.
pub fn bounded_levenshtein(a: &[u8], b: &[u8], max_dist: usize) -> (r: Option<usize>)
    requires
        a@.len() < usize::MAX,
        b@.len() < usize::MAX,
    ensures
        r == (if edit_distance(a@, b@) <= max_dist {
            Some(edit_distance(a@, b@) as usize)
        } else {
            None
        }),
{
    let len_a = a.len();
    let len_b = b.len();
    let len_diff = if len_a >= len_b {
        len_a - len_b
    } else {
        len_b - len_a
    };
    proof {
        lemma_lev_bounds(a@, b@, len_a as nat, len_b as nat);
    }
    if len_diff > max_dist {
        return None;
    }
    if len_a == 0 {
        return if len_b <= max_dist {
            Some(len_b)
        } else {
            None
        };
    }
    if len_b == 0 {
        return if len_a <= max_dist {
            Some(len_a)
        } else {
            None
        };
    }
    let mut prev: Vec<usize> = Vec::new();
    let mut k: usize = 0;
    while k <= len_b
        invariant
            len_b == b@.len(),
            len_b < usize::MAX,
            k <= len_b + 1,
            prev@.len() == k,
            forall|t: int| 0 <= t < k ==> prev@[t] == lev_prefix(a@, b@, 0, t as nat),
        decreases len_b + 1 - k,
    {
        prev.push(k);
        k = k + 1;
    }
    let mut curr: Vec<usize> = vec![0; len_b + 1];
    let mut i: usize = 1;
    while i <= len_a
        invariant
            len_a == a@.len(),
            len_b == b@.len(),
            len_a < usize::MAX,
            len_b < usize::MAX,
            1 <= i <= len_a + 1,
            prev@.len() == len_b + 1,
            curr@.len() == len_b + 1,
            forall|t: int|
                0 <= t <= len_b ==> prev@[t] == lev_prefix(a@, b@, (i - 1) as nat, t as nat),
        decreases len_a + 1 - i,
    {
        curr.set(0, i);
        let mut row_min = i;
        let mut j: usize = 1;
        while j <= len_b
            invariant
                len_a == a@.len(),
                len_b == b@.len(),
                len_a < usize::MAX,
                len_b < usize::MAX,
                1 <= i <= len_a,
                1 <= j <= len_b + 1,
                prev@.len() == len_b + 1,
                curr@.len() == len_b + 1,
                forall|t: int|
                    0 <= t <= len_b ==> prev@[t] == lev_prefix(a@, b@, (i - 1) as nat, t as nat),
                forall|t: int| 0 <= t < j ==> curr@[t] == lev_prefix(a@, b@, i as nat, t as nat),
                forall|t: int| 0 <= t < j ==> row_min <= curr@[t],
            decreases len_b + 1 - j,
        {
            proof {
                lemma_lev_bounds(a@, b@, (i - 1) as nat, j as nat);
                lemma_lev_bounds(a@, b@, i as nat, (j - 1) as nat);
                lemma_lev_bounds(a@, b@, (i - 1) as nat, (j - 1) as nat);
            }
            let cost: usize = if a[i - 1] != b[j - 1] {
                1
            } else {
                0
            };
            let del = prev[j] + 1;
            let ins = curr[j - 1] + 1;
            let sub = prev[j - 1] + cost;
            let v = if del <= ins && del <= sub {
                del
            } else if ins <= sub {
                ins
            } else {
                sub
            };
            curr.set(j, v);
            if v < row_min {
                row_min = v;
            }
            j = j + 1;
        }
        if row_min > max_dist {
            proof {
                assert forall|t: nat| t <= b@.len() implies lev_prefix(a@, b@, i as nat, t)
                    > max_dist by {
                    assert(curr@[t as int] == lev_prefix(a@, b@, i as nat, t));
                }
                lemma_row_exceeds(a@, b@, i as nat, max_dist as nat);
            }
            return None;
        }
        std::mem::swap(&mut prev, &mut curr);
        i = i + 1;
    }
    let d = prev[len_b];
    if d <= max_dist {
        Some(d)
    } else {
        None
    }
}

/// Lower-cases the bytes of `s` (ASCII only) and keeps each run of equal bytes once.
pub fn collapse_repeats(s: &str) -> (out: Vec<u8>)
    ensures
        out@ == collapse(encode_utf8(s@)),
{
    let bytes = s.as_bytes();
    let n = bytes.len();
    let mut out: Vec<u8> = Vec::new();
    let mut prev: Option<u8> = None;
    let mut i: usize = 0;
    while i < n
        invariant
            n == bytes@.len(),
            bytes@ == encode_utf8(s@),
            i <= n,
            out@ == collapse(bytes@.take(i as int)),
            prev == (if out@.len() > 0 {
                Some(out@.last())
            } else {
                None::<u8>
            }),
        decreases n - i,
    {
        let raw = bytes[i];
        let b = if raw >= 65 && raw <= 90 {
            raw + 32
        } else {
            raw
        };
        assert(bytes@.take(i + 1).drop_last() =~= bytes@.take(i as int));
        if prev != Some(b) {
            out.push(b);
            prev = Some(b);
        }
        i = i + 1;
    }
    assert(bytes@.take(n as int) =~= bytes@);
    out
}

/// `max_len * (100 - similarity_percent) / 100`, rounded up.
pub fn max_typo_distance(max_len: usize, similarity_percent: usize) -> (r: usize)
    requires
        similarity_percent <= 100,
        max_len * (100 - similarity_percent) + 99 <= usize::MAX,
    ensures
        r == typo_budget(max_len as nat, similarity_percent as nat),
{
    ((max_len * (100 - similarity_percent)) + 99) / 100
}

/// The score of `candidate` as a correction of `input`, computed as `typo_score` states.
fn candidate_score(
    input: &str,
    normalized_input: &Vec<u8>,
    candidate: &str,
    similarity_percent: usize,
) -> (r: Option<(usize, usize)>)
    requires
        input@.len() > 0,
        normalized_input@ == folded(input@),
        similarity_percent <= 100,
        score_fits(input@),
        score_fits(candidate@),
    ensures
        r is Some == typo_score(input@, candidate@, similarity_percent as nat) is Some,
        r matches Some((d, l)) ==> typo_score(input@, candidate@, similarity_percent as nat)
            == Some((d as nat, l as nat)),
{
    if candidate.is_empty() || str_eq(candidate, input) {
        return None;
    }
    let normalized_candidate = collapse_repeats(candidate);
    let ni_len = normalized_input.len();
    let nc_len = normalized_candidate.len();
    let same_first = if ni_len > 0 && nc_len > 0 {
        normalized_input[0] == normalized_candidate[0]
    } else {
        ni_len == 0 && nc_len == 0
    };
    if !same_first {
        return None;
    }
    let max_len = if ni_len >= nc_len {
        ni_len
    } else {
        nc_len
    };
    if max_len == 0 {
        return None;
    }
    assert(max_len * (100 - similarity_percent) <= max_len * 100) by (nonlinear_arith)
        requires
            similarity_percent <= 100,
    ;
    assert(max_len * similarity_percent <= max_len * 100) by (nonlinear_arith)
        requires
            similarity_percent <= 100,
    ;
    let max_dist = max_typo_distance(max_len, similarity_percent);
    let dist = match bounded_levenshtein(normalized_input.as_slice(), normalized_candidate.as_slice(), max_dist) {
        Some(d) => d,
        None => {
            return None;
        },
    };
    let margin = if dist <= max_len {
        max_len - dist
    } else {
        0
    };
    if margin * 100 < max_len * similarity_percent {
        return None;
    }
    Some((dist, max_len))
}

/// Above 100 percent no name is similar enough: no score exists.
proof fn lemma_no_score_above_full_similarity(input: Seq<char>, cand: Seq<char>, similarity: nat)
    requires
        similarity > 100,
    ensures
        typo_score(input, cand, similarity) is None,
{
    let ni = folded(input);
    let nc = folded(cand);
    let max_len: nat = if ni.len() >= nc.len() { ni.len() } else { nc.len() };
    let dist = edit_distance(ni, nc);
    let margin: nat = if dist <= max_len { (max_len - dist) as nat } else { 0 };
    if max_len > 0 {
        assert(margin * 100 < max_len * similarity) by (nonlinear_arith)
            requires
                margin <= max_len,
                max_len > 0,
                similarity > 100,
        ;
    }
}

/// Picks the repository name that `input` most likely misspells.
///
/// Returns the acceptable candidate (see `typo_score`) whose score is
/// strictly smaller than the score of every other distinct acceptable
/// candidate, and `None` when there is no acceptable candidate or when the
/// smallest score is shared by two different names. Repeated names count once.
/// A similarity above 100 percent accepts no candidate.
pub fn best_repo_typo_match<'a>(input: &str, candidates: &[&'a str], similarity_percent: usize) -> (r: Option<&'a str>)
    requires
        score_fits(input@),
        forall|i: int| 0 <= i < candidates@.len() ==> score_fits(#[trigger] candidates@[i]@),
    ensures
        r matches Some(w) ==> exists|i: int| 0 <= i < candidates@.len() && candidates@[i] == w,
        r matches Some(w) ==> is_best_typo(input@, views(candidates@), similarity_percent as nat, w@),
        r is None ==> forall|w: Seq<char>| !is_best_typo(input@, views(candidates@), similarity_percent as nat, w),
{
    let ghost cands = views(candidates@);
    let ghost sim = similarity_percent as nat;
    if similarity_percent > 100 {
        proof {
            assert forall|w: Seq<char>| !is_best_typo(input@, cands, sim, w) by {
                lemma_no_score_above_full_similarity(input@, w, sim);
            }
        }
        return None;
    }
    if input.is_empty() {
        proof {
            assert forall|w: Seq<char>| !is_best_typo(input@, cands, sim, w) by {
                assert(typo_score(input@, w, sim) is None);
            }
        }
        return None;
    }
    let normalized_input = collapse_repeats(input);
    let mut best: Option<(&'a str, usize, usize)> = None;
    let mut tie = false;
    let ghost mut best_idx: int = 0;
    let n = candidates.len();
    let mut k: usize = 0;
    while k < n
        invariant
            n == candidates@.len(),
            cands == views(candidates@),
            sim == similarity_percent as nat,
            similarity_percent <= 100,
            input@.len() > 0,
            normalized_input@ == folded(input@),
            score_fits(input@),
            forall|i: int| 0 <= i < candidates@.len() ==> score_fits(#[trigger] candidates@[i]@),
            k <= n,
            best is None ==> forall|j: int| 0 <= j < k ==> (#[trigger] typo_score(input@, cands[j], sim)) is None,
            best is None ==> !tie,
            best matches Some((w, d, l)) ==> {
                &&& 0 <= best_idx < k
                &&& candidates@[best_idx] == w
                &&& typo_score(input@, w@, sim) == Some((d as nat, l as nat))
                &&& forall|j: int| 0 <= j < k && (#[trigger] typo_score(input@, cands[j], sim)) is Some
                    ==> !score_lt(typo_score(input@, cands[j], sim)->0, (d as nat, l as nat))
                &&& tie == exists|j: int| 0 <= j < k && cands[j] != w@ && (#[trigger] typo_score(input@, cands[j], sim))
                    == Some((d as nat, l as nat))
            },
        decreases n - k,
    {
        let candidate = candidates[k];
        assert(cands[k as int] == candidate@);
        let score = candidate_score(input, &normalized_input, candidate, similarity_percent);
        match score {
            None => {},
            Some((dist, max_len)) => {
                match best {
                    Some((name, best_dist, best_len)) => {
                        if dist < best_dist || (dist == best_dist && max_len < best_len) {
                            best = Some((candidate, dist, max_len));
                            tie = false;
                            proof { best_idx = k as int; }
                        } else if dist == best_dist && max_len == best_len && !str_eq(name, candidate) {
                            tie = true;
                        }
                    },
                    None => {
                        best = Some((candidate, dist, max_len));
                        tie = false;
                        proof { best_idx = k as int; }
                    },
                }
            },
        }
        k = k + 1;
    }
    if tie {
        proof {
            let (w, d, l) = best.unwrap();
            assert forall|w2: Seq<char>| !is_best_typo(input@, cands, sim, w2) by {
                if is_best_typo(input@, cands, sim, w2) {
                    let j = choose|j: int| 0 <= j < n && cands[j] != w@ && #[trigger] typo_score(input@, cands[j], sim)
                        == Some((d as nat, l as nat));
                    let i2 = choose|i2: int| 0 <= i2 < cands.len() && cands[i2] == w2;
                    assert(typo_score(input@, cands[i2], sim) is Some);
                    assert(cands[best_idx] == w@);
                    if w2 == w@ {
                        assert(score_lt(typo_score(input@, w2, sim)->0, typo_score(input@, cands[j], sim)->0));
                    } else {
                        assert(score_lt(typo_score(input@, w2, sim)->0, typo_score(input@, cands[best_idx], sim)->0));
                    }
                }
            }
        }
        None
    } else {
        match best {
            Some((w, d, l)) => {
                proof {
                    assert(cands[best_idx] == w@);
                    assert forall|j: int|
                        0 <= j < cands.len() && cands[j] != w@ && (#[trigger] typo_score(input@, cands[j], sim)) is Some
                        implies score_lt(typo_score(input@, w@, sim)->0, typo_score(input@, cands[j], sim)->0) by {
                        if typo_score(input@, cands[j], sim) == Some((d as nat, l as nat)) {
                            assert(false);
                        }
                    }
                }
                Some(w)
            },
            None => {
                proof {
                    assert forall|w2: Seq<char>| !is_best_typo(input@, cands, sim, w2) by {
                        if is_best_typo(input@, cands, sim, w2) {
                            let i2 = choose|i2: int| 0 <= i2 < cands.len() && cands[i2] == w2;
                            assert(typo_score(input@, cands[i2], sim) is Some);
                        }
                    }
                }
                None
            },
        }
    }
}

/// There is at most one correction: two names that are both the best
/// correction of the same input among the same candidates are equal.
pub proof fn law_best_typo_unique(input: Seq<char>, cands: Seq<Seq<char>>, similarity: nat, w1: Seq<char>, w2: Seq<char>)
    requires
        is_best_typo(input, cands, similarity, w1),
        is_best_typo(input, cands, similarity, w2),
    ensures
        w1 == w2,
{
    if w1 != w2 {
        let i1 = choose|i: int| 0 <= i < cands.len() && cands[i] == w1;
        let i2 = choose|i: int| 0 <= i < cands.len() && cands[i] == w2;
        assert(typo_score(input, cands[i2], similarity) is Some);
        assert(typo_score(input, cands[i1], similarity) is Some);
        assert(score_lt(typo_score(input, w1, similarity)->0, typo_score(input, w2, similarity)->0));
        assert(score_lt(typo_score(input, w2, similarity)->0, typo_score(input, w1, similarity)->0));
    }
}

/// The correction depends only on which names are candidates: not on their
/// order, nor on how often a name is offered (a package found in several
/// repositories counts once).
pub proof fn law_best_typo_depends_on_names_only(
    input: Seq<char>,
    cands1: Seq<Seq<char>>,
    cands2: Seq<Seq<char>>,
    similarity: nat,
    w: Seq<char>,
)
    requires
        cands1.to_set() == cands2.to_set(),
    ensures
        is_best_typo(input, cands1, similarity, w) == is_best_typo(input, cands2, similarity, w),
{
    assert forall|x: Seq<char>| cands1.contains(x) <==> cands2.contains(x) by {
        assert(cands1.to_set().contains(x) == cands1.contains(x));
        assert(cands2.to_set().contains(x) == cands2.contains(x));
    }
    if is_best_typo(input, cands1, similarity, w) {
        assert forall|j: int|
            0 <= j < cands2.len() && cands2[j] != w && (#[trigger] typo_score(input, cands2[j], similarity)) is Some
            implies score_lt(typo_score(input, w, similarity)->0, typo_score(input, cands2[j], similarity)->0) by {
            assert(cands2.contains(cands2[j]));
            let k = choose|k: int| 0 <= k < cands1.len() && cands1[k] == cands2[j];
            assert(typo_score(input, cands1[k], similarity) is Some);
        }
    }
    if is_best_typo(input, cands2, similarity, w) {
        assert forall|j: int|
            0 <= j < cands1.len() && cands1[j] != w && (#[trigger] typo_score(input, cands1[j], similarity)) is Some
            implies score_lt(typo_score(input, w, similarity)->0, typo_score(input, cands1[j], similarity)->0) by {
            assert(cands1.contains(cands1[j]));
            let k = choose|k: int| 0 <= k < cands2.len() && cands2[k] == cands1[j];
            assert(typo_score(input, cands2[k], similarity) is Some);
        }
    }
}

/// A correction is never the input itself, and it is as similar as asked:
/// its distance is within the budget of its length.
pub proof fn law_best_typo_is_a_near_other_name(input: Seq<char>, cands: Seq<Seq<char>>, similarity: nat, w: Seq<char>)
    requires
        is_best_typo(input, cands, similarity, w),
    ensures
        w != input,
        w.len() > 0,
        edit_distance(folded(input), folded(w)) <= typo_budget(
            (typo_score(input, w, similarity)->0).1,
            similarity,
        ),
{
}

proof fn lemma_lev_prefix_symmetric(a: Seq<u8>, b: Seq<u8>, i: nat, j: nat)
    requires
        i <= a.len(),
        j <= b.len(),
    ensures
        lev_prefix(a, b, i, j) == lev_prefix(b, a, j, i),
    decreases i + j,
{
    if i > 0 && j > 0 {
        lemma_lev_prefix_symmetric(a, b, (i - 1) as nat, j);
        lemma_lev_prefix_symmetric(a, b, i, (j - 1) as nat);
        lemma_lev_prefix_symmetric(a, b, (i - 1) as nat, (j - 1) as nat);
    }
}

/// The Levenshtein distance is symmetric, so the bounded distance of `a`
/// and `b` is that of `b` and `a` for every bound.
pub proof fn law_edit_distance_symmetric(a: Seq<u8>, b: Seq<u8>, max_dist: nat)
    ensures
        edit_distance(a, b) == edit_distance(b, a),
        (edit_distance(a, b) <= max_dist) == (edit_distance(b, a) <= max_dist),
{
    lemma_lev_prefix_symmetric(a, b, a.len(), b.len());
}

/// The correction is a closest acceptable name: no other acceptable name is
/// nearer to the input, and any other one as near has a larger length score
/// (the longer of its folded form and the folded input).
pub proof fn law_best_typo_is_closest(input: Seq<char>, cands: Seq<Seq<char>>, similarity: nat, w: Seq<char>, c: Seq<char>)
    requires
        is_best_typo(input, cands, similarity, w),
        cands.contains(c),
        c != w,
        typo_score(input, c, similarity) is Some,
    ensures
        edit_distance(folded(input), folded(w)) <= edit_distance(folded(input), folded(c)),
        edit_distance(folded(input), folded(w)) == edit_distance(folded(input), folded(c)) ==> (typo_score(
            input,
            w,
            similarity,
        )->0).1 < (typo_score(input, c, similarity)->0).1,
{
    let j = choose|j: int| 0 <= j < cands.len() && cands[j] == c;
    assert(typo_score(input, cands[j], similarity) is Some);
}

} // verus!
