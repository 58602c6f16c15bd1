//! Packages that nothing needs: installed as dependencies, and not reached
//! through the dependencies of any explicitly installed package.

use vstd::prelude::*;
use crate::text::{lemma_text_lt_order, str_eq, str_lt, text_lt, views};

verus! {

/// `s` holds every explicit package and is closed under dependency edges
/// (`edges[i]` lists the packages that satisfy a dependency of package `i`).
pub open spec fn closed_under_deps(s: Set<int>, explicit: Seq<bool>, edges: Seq<Seq<usize>>) -> bool {
    &&& forall|i: int| 0 <= i < explicit.len() && explicit[i] ==> s.contains(i)
    &&& forall|i: int, k: int|
        #![trigger s.contains(i), edges[i][k]]
        0 <= i < edges.len() && s.contains(i) && 0 <= k < edges[i].len() ==> s.contains(edges[i][k] as int)
}

/// Package `i` is needed: every set that holds the explicit packages and is
/// closed under dependencies holds it.
pub open spec fn needed(i: int, explicit: Seq<bool>, edges: Seq<Seq<usize>>) -> bool {
    forall|s: Set<int>| #[trigger] closed_under_deps(s, explicit, edges) ==> s.contains(i)
}

/// Explicit packages are needed, and so is everything that a needed package
/// depends on.
pub proof fn law_needs_follow_dependencies(explicit: Seq<bool>, edges: Seq<Seq<usize>>, i: int, k: int)
    requires
        0 <= i < explicit.len(),
    ensures
        explicit[i] ==> needed(i, explicit, edges),
        needed(i, explicit, edges) && i < edges.len() && 0 <= k < edges[i].len() ==> needed(
            edges[i][k] as int,
            explicit,
            edges,
        ),
{
    if needed(i, explicit, edges) && i < edges.len() && 0 <= k < edges[i].len() {
        assert forall|s: Set<int>| #[trigger] closed_under_deps(s, explicit, edges) implies s.contains(
            edges[i][k] as int,
        ) by {
            assert(s.contains(i));
        }
    }
}

pub open spec fn edge_views(edges: Seq<Vec<usize>>) -> Seq<Seq<usize>> {
    Seq::new(edges.len(), |i: int| edges[i]@)
}

/// The number of unmarked packages.
pub open spec fn count_unmarked(marked: Seq<bool>) -> nat
    decreases marked.len(),
{
    if marked.len() == 0 {
        0
    } else {
        count_unmarked(marked.drop_last()) + if marked.last() { 0nat } else { 1nat }
    }
}

proof fn lemma_mark_one(before: Seq<bool>, q: int)
    requires
        0 <= q < before.len(),
        !before[q],
    ensures
        count_unmarked(before.update(q, true)) + 1 == count_unmarked(before),
    decreases before.len(),
{
    let after = before.update(q, true);
    if q == before.len() - 1 {
        assert(after.drop_last() =~= before.drop_last());
    } else {
        assert(after.drop_last() =~= before.drop_last().update(q, true));
        lemma_mark_one(before.drop_last(), q);
    }
}

/// Every set closed under dependencies holds every marked package.
pub open spec fn marks_needed(marked: Seq<bool>, explicit: Seq<bool>, edges: Seq<Seq<usize>>) -> bool {
    forall|s: Set<int>|
        #[trigger] closed_under_deps(s, explicit, edges) ==> forall|x: int|
            0 <= x < marked.len() && marked[x] ==> s.contains(x)
}

/// The dependencies of marked packages among the first `p` are marked.
pub open spec fn deps_marked_upto(marked: Seq<bool>, edges: Seq<Seq<usize>>, p: int) -> bool {
    forall|x: int, e: int|
        #![trigger marked[x], edges[x][e]]
        0 <= x < p && marked[x] && 0 <= e < edges[x].len() ==> marked[edges[x][e] as int]
}

/// The indices, in increasing order, of the packages that were installed as
/// dependencies and that no explicitly installed package needs.
pub fn unneeded_indices(explicit: &[bool], edges: &[Vec<usize>]) -> (r: Vec<usize>)
    requires
        edges@.len() == explicit@.len(),
        forall|i: int, k: int|
            0 <= i < edges@.len() && 0 <= k < edges@[i]@.len() ==> #[trigger] edges@[i]@[k] < explicit@.len(),
    ensures
        forall|k: int, l: int| 0 <= k < l < r@.len() ==> r@[k] < r@[l],
        forall|k: int| 0 <= k < r@.len() ==> r@[k] < explicit@.len(),
        forall|i: int|
            0 <= i < explicit@.len() ==> (r@.contains(i as usize) <==> (!explicit@[i] && !needed(
                i,
                explicit@,
                edge_views(edges@),
            ))),
{
    let n = explicit.len();
    let ghost ev = edge_views(edges@);
    let mut marked: Vec<bool> = Vec::new();
    let mut i: usize = 0;
    while i < n
        invariant
            n == explicit@.len(),
            i <= n,
            marked@.len() == i,
            forall|k: int| 0 <= k < i ==> marked@[k] == explicit@[k],
        decreases n - i,
    {
        marked.push(explicit[i]);
        i = i + 1;
    }
    assert(marks_needed(marked@, explicit@, ev));
    loop
        invariant
            n == explicit@.len(),
            ev == edge_views(edges@),
            edges@.len() == n,
            forall|i: int, k: int|
                0 <= i < edges@.len() && 0 <= k < edges@[i]@.len() ==> #[trigger] edges@[i]@[k] < n,
            marked@.len() == n,
            forall|k: int| 0 <= k < n && explicit@[k] ==> marked@[k],
            marks_needed(marked@, explicit@, ev),
        ensures
            marked@.len() == n,
            forall|k: int| 0 <= k < n && explicit@[k] ==> marked@[k],
            marks_needed(marked@, explicit@, ev),
            deps_marked_upto(marked@, ev, n as int),
        decreases count_unmarked(marked@),
    {
        let ghost start = count_unmarked(marked@);
        let mut changed = false;
        let mut p: usize = 0;
        while p < n
            invariant
                n == explicit@.len(),
                ev == edge_views(edges@),
                edges@.len() == n,
                forall|i: int, k: int|
                    0 <= i < edges@.len() && 0 <= k < edges@[i]@.len() ==> #[trigger] edges@[i]@[k] < n,
                marked@.len() == n,
                p <= n,
                forall|k: int| 0 <= k < n && explicit@[k] ==> marked@[k],
                marks_needed(marked@, explicit@, ev),
                !changed ==> count_unmarked(marked@) == start,
                changed ==> count_unmarked(marked@) < start,
                !changed ==> deps_marked_upto(marked@, ev, p as int),
            decreases n - p,
        {
            if marked[p] {
                let succ = &edges[p];
                assert(ev[p as int] == succ@);
                let mut j: usize = 0;
                while j < succ.len()
                    invariant
                        n == explicit@.len(),
                        ev == edge_views(edges@),
                        edges@.len() == n,
                        forall|i: int, k: int|
                            0 <= i < edges@.len() && 0 <= k < edges@[i]@.len() ==> #[trigger] edges@[i]@[k] < n,
                        p < n,
                        succ@ == ev[p as int],
                        marked@.len() == n,
                        marked@[p as int],
                        j <= succ@.len(),
                        forall|k: int| 0 <= k < n && explicit@[k] ==> marked@[k],
                        marks_needed(marked@, explicit@, ev),
                        !changed ==> count_unmarked(marked@) == start,
                        changed ==> count_unmarked(marked@) < start,
                        !changed ==> deps_marked_upto(marked@, ev, p as int),
                        !changed ==> forall|e: int| 0 <= e < j ==> marked@[#[trigger] ev[p as int][e] as int],
                    decreases succ@.len() - j,
                {
                    let q = succ[j];
                    assert(edges@[p as int]@[j as int] == q);
                    if !marked[q] {
                        let ghost before = marked@;
                        marked.set(q, true);
                        proof {
                            lemma_mark_one(before, q as int);
                            assert forall|s: Set<int>|
                                #[trigger] closed_under_deps(s, explicit@, ev) implies forall|x: int|
                                    0 <= x < marked@.len() && marked@[x] ==> s.contains(x) by {
                                assert(before[p as int]);
                                assert(s.contains(p as int));
                                assert(s.contains(ev[p as int][j as int] as int));
                                assert forall|x: int| 0 <= x < marked@.len() && marked@[x] implies s.contains(x) by {
                                    if x != q {
                                        assert(before[x]);
                                    }
                                }
                            }
                        }
                        changed = true;
                    }
                    j = j + 1;
                }
            }
            p = p + 1;
        }
        if !changed {
            break;
        }
    }
    let ghost m = Set::new(|x: int| 0 <= x < n && marked@[x]);
    proof {
        assert forall|x: int, e: int|
            #![trigger m.contains(x), ev[x][e]]
            0 <= x < ev.len() && m.contains(x) && 0 <= e < ev[x].len() implies m.contains(ev[x][e] as int) by {
            assert(marked@[x]);
            assert(edges@[x]@[e] < n);
        }
        assert(closed_under_deps(m, explicit@, ev));
    }
    let mut out: Vec<usize> = Vec::new();
    let mut k: usize = 0;
    while k < n
        invariant
            n == explicit@.len(),
            marked@.len() == n,
            k <= n,
            forall|a: int, b: int| 0 <= a < b < out@.len() ==> out@[a] < out@[b],
            forall|a: int| 0 <= a < out@.len() ==> out@[a] < k,
            forall|x: int| 0 <= x < k ==> (out@.contains(x as usize) <==> !marked@[x]),
        decreases n - k,
    {
        let ghost before = out@;
        if !marked[k] {
            out.push(k);
            assert(out@[out@.len() - 1] == k);
        }
        proof {
            assert forall|x: int| 0 <= x < k + 1 implies (out@.contains(x as usize) <==> !marked@[x]) by {
                if out@.contains(x as usize) {
                    let a = choose|a: int| 0 <= a < out@.len() && out@[a] == x as usize;
                    if a < before.len() {
                        assert(before.contains(x as usize));
                    }
                }
                if x < k && before.contains(x as usize) {
                    let a = choose|a: int| 0 <= a < before.len() && before[a] == x as usize;
                    assert(out@[a] == x as usize);
                }
                if x == k && !marked@[x] {
                    assert(out@[out@.len() - 1] == x as usize);
                }
            }
        }
        k = k + 1;
    }
    proof {
        assert forall|i: int| 0 <= i < n implies (out@.contains(i as usize) <==> (!explicit@[i] && !needed(i, explicit@, ev))) by {
            if !marked@[i] {
                assert(!m.contains(i));
            }
        }
    }
    out
}

/// The texts of `s` are in strictly increasing order of `str`.
pub open spec fn strictly_sorted(s: Seq<Seq<char>>) -> bool {
    forall|k: int, l: int| 0 <= k < l < s.len() ==> text_lt(#[trigger] s[k], #[trigger] s[l])
}

/// Adds `name` to a list kept in strictly increasing order, unless it is there.
fn insert_sorted<'a>(out: &mut Vec<&'a str>, name: &'a str)
    requires
        strictly_sorted(views(old(out)@)),
    ensures
        strictly_sorted(views(final(out)@)),
        forall|w: Seq<char>| views(final(out)@).contains(w) <==> (views(old(out)@).contains(w) || w == name@),
{
    let ghost before = views(out@);
    let mut p: usize = 0;
    while p < out.len() && str_lt(out[p], name)
        invariant
            before == views(out@),
            p <= out@.len(),
            forall|k: int| 0 <= k < p ==> text_lt(#[trigger] before[k], name@),
        decreases out@.len() - p,
    {
        assert(before[p as int] == out@[p as int]@);
        p = p + 1;
    }
    if p < out.len() {
        assert(before[p as int] == out@[p as int]@);
        if str_eq(out[p], name) {
            assert forall|w: Seq<char>| views(out@).contains(w) <==> (before.contains(w) || w == name@) by {
                if w == name@ {
                    assert(before[p as int] == w);
                }
            }
            return;
        }
        proof {
            lemma_text_lt_order(before[p as int], name@, name@);
        }
    }
    out.insert(p, name);
    let ghost after = views(out@);
    assert(after =~= before.insert(p as int, name@));
    proof {
        assert forall|k: int, l: int| 0 <= k < l < after.len() implies text_lt(#[trigger] after[k], #[trigger] after[l]) by {
            if l < p {
                assert(after[k] == before[k] && after[l] == before[l]);
            } else if l == p {
                assert(after[k] == before[k]);
            } else if k < p {
                assert(after[k] == before[k] && after[l] == before[l - 1]);
                lemma_text_lt_order(before[k], name@, before[l - 1]);
                lemma_text_lt_order(before[k], before[p as int], before[l - 1]);
                if l - 1 > p {
                    lemma_text_lt_order(name@, before[p as int], before[l - 1]);
                }
            } else if k == p {
                assert(after[l] == before[l - 1]);
                if l - 1 > p {
                    lemma_text_lt_order(name@, before[p as int], before[l - 1]);
                }
            } else {
                assert(after[k] == before[k - 1] && after[l] == before[l - 1]);
            }
        }
        assert forall|w: Seq<char>| after.contains(w) <==> (before.contains(w) || w == name@) by {
            if after.contains(w) {
                let j = choose|j: int| 0 <= j < after.len() && after[j] == w;
                if j < p {
                    assert(before[j] == w);
                } else if j > p {
                    assert(before[j - 1] == w);
                }
            }
            if before.contains(w) {
                let j = choose|j: int| 0 <= j < before.len() && before[j] == w;
                if j < p {
                    assert(after[j] == w);
                } else {
                    assert(after[j + 1] == w);
                }
            }
            if w == name@ {
                assert(after[p as int] == w);
            }
        }
    }
}

/// Package `i` was installed as a dependency and nothing explicit needs it.
pub open spec fn unneeded(i: int, explicit: Seq<bool>, edges: Seq<Seq<usize>>) -> bool {
    0 <= i < explicit.len() && !explicit[i] && !needed(i, explicit, edges)
}

/// The names of the packages that were installed as dependencies and that no
/// explicitly installed package needs, each once, in the order of `str`.
/// `names[i]` is the name of package `i`; `edges[i]` lists the packages that
/// satisfy a dependency of package `i` (its optional ones too, when those are
/// kept).
pub fn unneeded_pkgs<'a>(names: &[&'a str], explicit: &[bool], edges: &[Vec<usize>]) -> (r: Vec<&'a str>)
    requires
        names@.len() == explicit@.len(),
        edges@.len() == explicit@.len(),
        forall|i: int, k: int|
            0 <= i < edges@.len() && 0 <= k < edges@[i]@.len() ==> #[trigger] edges@[i]@[k] < explicit@.len(),
    ensures
        strictly_sorted(views(r@)),
        forall|w: Seq<char>|
            views(r@).contains(w) <==> exists|i: int|
                unneeded(i, explicit@, edge_views(edges@)) && #[trigger] names@[i]@ == w,
{
    let idx = unneeded_indices(explicit, edges);
    let n = explicit.len();
    let ghost ev = edge_views(edges@);
    let mut out: Vec<&'a str> = Vec::new();
    let mut k: usize = 0;
    assert(views(out@) =~= Seq::<Seq<char>>::empty());
    while k < idx.len()
        invariant
            k <= idx@.len(),
            names@.len() == explicit@.len(),
            forall|j: int| 0 <= j < idx@.len() ==> idx@[j] < explicit@.len(),
            ev == edge_views(edges@),
            forall|i: int|
                0 <= i < explicit@.len() ==> (idx@.contains(i as usize) <==> (!explicit@[i] && !needed(i, explicit@, ev))),
            strictly_sorted(views(out@)),
            forall|w: Seq<char>|
                views(out@).contains(w) <==> exists|j: int| 0 <= j < k && #[trigger] names@[idx@[j] as int]@ == w,
        decreases idx@.len() - k,
    {
        let ghost prev = views(out@);
        insert_sorted(&mut out, names[idx[k]]);
        proof {
            assert forall|w: Seq<char>|
                views(out@).contains(w) <==> exists|j: int| 0 <= j < k + 1 && #[trigger] names@[idx@[j] as int]@ == w by {
                if prev.contains(w) {
                    let j = choose|j: int| 0 <= j < k && #[trigger] names@[idx@[j] as int]@ == w;
                    assert(0 <= j < k + 1 && names@[idx@[j] as int]@ == w);
                }
                if w == names@[idx@[k as int] as int]@ {
                    assert(0 <= k < k + 1 && names@[idx@[k as int] as int]@ == w);
                }
                if exists|j: int| 0 <= j < k + 1 && #[trigger] names@[idx@[j] as int]@ == w {
                    let j = choose|j: int| 0 <= j < k + 1 && #[trigger] names@[idx@[j] as int]@ == w;
                    if j < k {
                        assert(prev.contains(w));
                    }
                }
            }
        }
        k = k + 1;
    }
    proof {
        assert forall|w: Seq<char>|
            views(out@).contains(w) <==> exists|i: int| unneeded(i, explicit@, ev) && #[trigger] names@[i]@ == w by {
            if views(out@).contains(w) {
                let j = choose|j: int| 0 <= j < idx@.len() && #[trigger] names@[idx@[j] as int]@ == w;
                let i = idx@[j] as int;
                assert(idx@[j] == i as usize);
                assert(idx@.contains(i as usize));
                assert(0 <= i < explicit@.len());
                assert(!explicit@[i] && !needed(i, explicit@, ev));
                assert(names@[i]@ == w);
                assert(unneeded(i, explicit@, ev));
            }
            if exists|i: int| unneeded(i, explicit@, ev) && #[trigger] names@[i]@ == w {
                let i = choose|i: int| unneeded(i, explicit@, ev) && #[trigger] names@[i]@ == w;
                assert(idx@.contains(i as usize));
                let j = choose|j: int| 0 <= j < idx@.len() && idx@[j] == i as usize;
                assert(i < n);
                assert(idx@[j] as int == i);
                assert(names@[idx@[j] as int]@ == w);
                assert(views(out@).contains(w));
            }
        }
    }
    out
}

/// Every dependency edge of `e1` is also one of `e2` (for example, `e2`
/// adds the optional dependencies).
pub open spec fn edges_within(e1: Seq<Seq<usize>>, e2: Seq<Seq<usize>>) -> bool {
    &&& e1.len() == e2.len()
    &&& forall|i: int, k: int| 0 <= i < e1.len() && 0 <= k < e1[i].len() ==> e2[i].contains(#[trigger] e1[i][k])
}

/// Following fewer dependency edges never finds fewer unneeded packages:
/// a package unneeded when optional dependencies are kept stays unneeded
/// when they are dropped.
pub proof fn law_fewer_edges_more_orphans(explicit: Seq<bool>, e1: Seq<Seq<usize>>, e2: Seq<Seq<usize>>, i: int)
    requires
        edges_within(e1, e2),
        unneeded(i, explicit, e2),
    ensures
        unneeded(i, explicit, e1),
{
    let s = choose|s: Set<int>| #[trigger] closed_under_deps(s, explicit, e2) && !s.contains(i);
    assert forall|x: int, k: int|
        #![trigger s.contains(x), e1[x][k]]
        0 <= x < e1.len() && s.contains(x) && 0 <= k < e1[x].len() implies s.contains(e1[x][k] as int) by {
        assert(e2[x].contains(e1[x][k]));
        let k2 = choose|k2: int| 0 <= k2 < e2[x].len() && e2[x][k2] == e1[x][k];
        assert(s.contains(e2[x][k2] as int));
    }
    assert(closed_under_deps(s, explicit, e1));
}

} // verus!
