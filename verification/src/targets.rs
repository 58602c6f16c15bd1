//! Package targets: `repo/pkg` parsing, the split between repository and
//! AUR packages, typo correction of repository targets, and the arguments
//! of the `depend` subcommand.

use vstd::prelude::*;
use vstd::string::*;
use crate::text::{find_from, str_eq, views};
use crate::typo::{best_repo_typo_match, is_best_typo, score_fits};

verus! {

/// The repository part and the package part of a target `repo/pkg`: with no
/// `/`, there is no repository and the whole text is the package; else the
/// repository is the text before the first `/` and the package the text
/// between it and the next `/` (or the end).
pub open spec fn target_parts(s: Seq<char>) -> (Option<Seq<char>>, Seq<char>) {
    let d1 = find_from(s, '/', 0);
    if d1 == s.len() {
        (None, s)
    } else {
        (Some(s.take(d1 as int)), s.subrange(d1 + 1 as int, find_from(s, '/', d1 + 1) as int))
    }
}

/// `alpm_utils::Targ::from`: splits a target at its first `/` into the
/// repository and the package, the package ending at the next `/` if there
/// is one. The contract states that split as `target_parts`.
#[verifier::external_body]
fn targ_from<'a>(s: &'a str) -> (r: (Option<&'a str>, &'a str))
    ensures
        r.0 matches Some(repo) ==> target_parts(s@).0 == Some(repo@),
        r.0 is None ==> target_parts(s@).0 is None,
        r.1@ == target_parts(s@).1,
{
    let t = alpm_utils::Targ::from(s);
    (t.repo, t.pkg)
}

/// Splits a target into its repository (if any) and package name.
pub fn parse_target<'a>(s: &'a str) -> (r: (Option<&'a str>, &'a str))
    ensures
        r.0 matches Some(repo) ==> target_parts(s@).0 == Some(repo@),
        r.0 is None ==> target_parts(s@).0 is None,
        r.1@ == target_parts(s@).1,
{
    targ_from(s)
}

/// Where to look a target up for the `depend` subcommand.
#[derive(Debug, Clone, Copy, PartialEq, Eq)]
pub enum PkgLookup<'a> {
    /// In the local database (`local/pkg`).
    Local(&'a str),
    /// In the sync database of the named repository.
    Repo(&'a str, &'a str),
    /// In the sync databases, then in the local database.
    Any(&'a str),
}

/// Decides where a `depend` target is looked up.
pub fn pkg_lookup<'a>(target: &'a str) -> (r: PkgLookup<'a>)
    ensures
        match r {
            PkgLookup::Local(pkg) => target_parts(target@).0 == Some(seq!['l', 'o', 'c', 'a', 'l'])
                && pkg@ == target_parts(target@).1,
            PkgLookup::Repo(repo, pkg) => target_parts(target@).0 == Some(repo@) && repo@ != seq![
                'l',
                'o',
                'c',
                'a',
                'l',
            ] && pkg@ == target_parts(target@).1,
            PkgLookup::Any(pkg) => target_parts(target@).0 is None && pkg@ == target_parts(
                target@,
            ).1,
        },
{
    proof {
        reveal_strlit("local");
        assert("local"@ =~= seq!['l', 'o', 'c', 'a', 'l']);
    }
    let (repo, pkg) = parse_target(target);
    match repo {
        Some(repo) => {
            if str_eq(repo, "local") {
                PkgLookup::Local(pkg)
            } else {
                PkgLookup::Repo(repo, pkg)
            }
        },
        None => PkgLookup::Any(pkg),
    }
}

/// Subcommands that print a package's relations.
#[derive(Debug, Clone, Copy, PartialEq, Eq)]
pub enum Subcommand {
    Depend,
    Provide,
}

/// The names of Arch Linux's official repositories.
pub open spec fn is_arch_repo_name(name: Seq<char>) -> bool {
    ||| name == "testing"@
    ||| name == "community-testing"@
    ||| name == "core"@
    ||| name == "extra"@
    ||| name == "community"@
    ||| name == "multilib"@
    ||| name == "core-testing"@
    ||| name == "extra-testing"@
    ||| name == "multilib-testing"@
}

/// The official repositories are exactly `core`, `extra`, `multilib`,
/// `community`, `testing` and the testing repositories of the first three
/// and of `community`; names differing only in case, or other repositories
/// such as `aur` or a local one, are not.
pub proof fn law_arch_repos()
    ensures
        is_arch_repo_name(seq!['c', 'o', 'r', 'e']),
        is_arch_repo_name(seq!['e', 'x', 't', 'r', 'a']),
        is_arch_repo_name(seq!['m', 'u', 'l', 't', 'i', 'l', 'i', 'b']),
        is_arch_repo_name(seq!['c', 'o', 'm', 'm', 'u', 'n', 'i', 't', 'y']),
        is_arch_repo_name(seq!['t', 'e', 's', 't', 'i', 'n', 'g']),
        is_arch_repo_name(seq!['c', 'o', 'r', 'e', '-', 't', 'e', 's', 't', 'i', 'n', 'g']),
        is_arch_repo_name(seq!['e', 'x', 't', 'r', 'a', '-', 't', 'e', 's', 't', 'i', 'n', 'g']),
        is_arch_repo_name(seq!['m', 'u', 'l', 't', 'i', 'l', 'i', 'b', '-', 't', 'e', 's', 't', 'i', 'n', 'g']),
        is_arch_repo_name(seq!['c', 'o', 'm', 'm', 'u', 'n', 'i', 't', 'y', '-', 't', 'e', 's', 't', 'i', 'n', 'g']),
        !is_arch_repo_name(seq!['C', 'o', 'r', 'e']),
        !is_arch_repo_name(seq!['a', 'u', 'r']),
        !is_arch_repo_name(Seq::<char>::empty()),
{
    reveal_strlit("testing");
    reveal_strlit("community-testing");
    reveal_strlit("core");
    reveal_strlit("extra");
    reveal_strlit("community");
    reveal_strlit("multilib");
    reveal_strlit("core-testing");
    reveal_strlit("extra-testing");
    reveal_strlit("multilib-testing");
    assert("core"@ =~= seq!['c', 'o', 'r', 'e']);
    assert("extra"@ =~= seq!['e', 'x', 't', 'r', 'a']);
    assert("multilib"@ =~= seq!['m', 'u', 'l', 't', 'i', 'l', 'i', 'b']);
    assert("community"@ =~= seq!['c', 'o', 'm', 'm', 'u', 'n', 'i', 't', 'y']);
    assert("testing"@ =~= seq!['t', 'e', 's', 't', 'i', 'n', 'g']);
    assert("core-testing"@ =~= seq!['c', 'o', 'r', 'e', '-', 't', 'e', 's', 't', 'i', 'n', 'g']);
    assert("extra-testing"@ =~= seq!['e', 'x', 't', 'r', 'a', '-', 't', 'e', 's', 't', 'i', 'n', 'g']);
    assert("multilib-testing"@ =~= seq!['m', 'u', 'l', 't', 'i', 'l', 'i', 'b', '-', 't', 'e', 's', 't', 'i', 'n', 'g']);
    assert("community-testing"@ =~= seq!['c', 'o', 'm', 'm', 'u', 'n', 'i', 't', 'y', '-', 't', 'e', 's', 't', 'i', 'n', 'g']);
    assert(seq!['C', 'o', 'r', 'e'][0] != seq!['c', 'o', 'r', 'e'][0]);
}

/// Whether `name` is one of Arch Linux's official repositories.
pub fn is_arch_repo(name: &str) -> (r: bool)
    ensures
        r == is_arch_repo_name(name@),
{
    str_eq(name, "testing") || str_eq(name, "community-testing") || str_eq(name, "core") || str_eq(
        name,
        "extra",
    ) || str_eq(name, "community") || str_eq(name, "multilib") || str_eq(name, "core-testing")
        || str_eq(name, "extra-testing") || str_eq(name, "multilib-testing")
}

/// The first `n` packages split into those found in the repositories and
/// those kept as AUR packages: a package in the repositories goes to the
/// first list; otherwise it goes to the second when there are no local
/// repositories or when a local AUR repository has it; otherwise it is dropped.
pub open spec fn split_repo_aur_spec(
    pkgs: Seq<Seq<char>>,
    in_repo: Seq<bool>,
    in_aur: Seq<bool>,
    no_local_repos: bool,
    n: nat,
) -> (Seq<Seq<char>>, Seq<Seq<char>>)
    decreases n,
{
    if n == 0 {
        (seq![], seq![])
    } else {
        let (repo, aur) = split_repo_aur_spec(pkgs, in_repo, in_aur, no_local_repos, (n - 1) as nat);
        let p = pkgs[n - 1];
        if in_repo[n - 1] {
            (repo.push(p), aur)
        } else if no_local_repos || in_aur[n - 1] {
            (repo, aur.push(p))
        } else {
            (repo, aur)
        }
    }
}

pub open spec fn string_views(v: Seq<String>) -> Seq<Seq<char>> {
    Seq::new(v.len(), |i: int| v[i]@)
}

/// Splits packages into repository packages and AUR packages, given for
/// each package whether the repository databases have it (`in_repo`) and
/// whether the local AUR repositories have it (`in_aur`).
pub fn split_repo_aur_pkgs(
    pkgs: &[String],
    in_repo: &[bool],
    in_aur: &[bool],
    no_local_repos: bool,
) -> (r: (Vec<String>, Vec<String>))
    requires
        in_repo@.len() == pkgs@.len(),
        in_aur@.len() == pkgs@.len(),
    ensures
        (string_views(r.0@), string_views(r.1@)) == split_repo_aur_spec(
            string_views(pkgs@),
            in_repo@,
            in_aur@,
            no_local_repos,
            pkgs@.len(),
        ),
{
    let mut repo: Vec<String> = Vec::new();
    let mut aur: Vec<String> = Vec::new();
    let mut i: usize = 0;
    while i < pkgs.len()
        invariant
            i <= pkgs@.len(),
            in_repo@.len() == pkgs@.len(),
            in_aur@.len() == pkgs@.len(),
            (string_views(repo@), string_views(aur@)) == split_repo_aur_spec(
                string_views(pkgs@),
                in_repo@,
                in_aur@,
                no_local_repos,
                i as nat,
            ),
        decreases pkgs@.len() - i,
    {
        let ghost old_repo = repo@;
        let ghost old_aur = aur@;
        if in_repo[i] {
            repo.push(pkgs[i].clone());
            assert(string_views(repo@) =~= string_views(old_repo).push(pkgs@[i as int]@));
        } else if no_local_repos || in_aur[i] {
            aur.push(pkgs[i].clone());
            assert(string_views(aur@) =~= string_views(old_aur).push(pkgs@[i as int]@));
        }
        i = i + 1;
    }
    (repo, aur)
}

/// What typo correction does to the target `t`: a target with a repository
/// or one that the repositories can resolve is kept; otherwise it becomes
/// the best correction among `names` when there is one.
pub open spec fn typo_corrected(
    t: Seq<char>,
    resolvable: bool,
    names: Seq<Seq<char>>,
    similarity: nat,
    out: Seq<char>,
) -> bool {
    if target_parts(t).0 is Some || resolvable {
        out == t
    } else {
        ||| (out == t && forall|w: Seq<char>| !is_best_typo(target_parts(t).1, names, similarity, w))
        ||| is_best_typo(target_parts(t).1, names, similarity, out)
    }
}

/// Corrects repository targets that are probably misspelt.
///
/// `resolvable[i]` tells whether the repositories resolve the package part
/// of `targets[i]` (as a package, a provider or a group); `repo_names` are the
/// names of all repository packages. Nothing changes when `repo_mode` is off.
pub fn apply_repo_typo_tolerance(
    repo_mode: bool,
    targets: &mut [String],
    resolvable: &[bool],
    repo_names: &[&str],
    similarity_percent: usize,
)
    requires
        resolvable@.len() == old(targets)@.len(),
        forall|i: int| 0 <= i < repo_names@.len() ==> score_fits(#[trigger] repo_names@[i]@),
        forall|i: int|
            0 <= i < old(targets)@.len() ==> score_fits(target_parts(#[trigger] old(targets)@[i]@).1),
    ensures
        final(targets)@.len() == old(targets)@.len(),
        !repo_mode ==> final(targets)@ == old(targets)@,
        repo_mode ==> forall|i: int|
            0 <= i < old(targets)@.len() ==> typo_corrected(
                #[trigger] old(targets)@[i]@,
                resolvable@[i],
                views(repo_names@),
                similarity_percent as nat,
                final(targets)@[i]@,
            ),
{
    if !repo_mode {
        return;
    }
    let n = targets.len();
    let mut i: usize = 0;
    while i < n
        invariant
            n == targets@.len(),
            n == old(targets)@.len(),
            resolvable@.len() == n,
            i <= n,
            forall|k: int| 0 <= k < repo_names@.len() ==> score_fits(#[trigger] repo_names@[k]@),
            forall|k: int|
                0 <= k < n ==> score_fits(target_parts(#[trigger] old(targets)@[k]@).1),
            forall|k: int| i <= k < n ==> targets@[k] == old(targets)@[k],
            forall|k: int|
                0 <= k < i ==> typo_corrected(
                    #[trigger] old(targets)@[k]@,
                    resolvable@[k],
                    views(repo_names@),
                    similarity_percent as nat,
                    targets@[k]@,
                ),
        decreases n - i,
    {
        let (repo, pkg) = parse_target(targets[i].as_str());
        if repo.is_none() && !resolvable[i] {
            let best = best_repo_typo_match(pkg, repo_names, similarity_percent);
            match best {
                Some(w) => {
                    let corrected = String::from_str(w);
                    targets[i] = corrected;
                },
                None => {},
            }
        }
        assert(typo_corrected(old(targets)@[i as int]@, resolvable@[i as int], views(repo_names@),
            similarity_percent as nat, targets@[i as int]@));
        i = i + 1;
    }
}

/// The first `n` arguments of `depend` split into options (they start with
/// `-`) and targets, each in order.
pub open spec fn depend_split(args: Seq<Seq<char>>, n: nat) -> (Seq<Seq<char>>, Seq<Seq<char>>)
    decreases n,
{
    if n == 0 || n > args.len() {
        (seq![], seq![])
    } else {
        let (opts, targets) = depend_split(args, (n - 1) as nat);
        let a = args[n - 1];
        if a.len() > 0 && a[0] == '-' {
            (opts.push(a), targets)
        } else {
            (opts, targets.push(a))
        }
    }
}

/// Reads the arguments of `depend`/`provide`: the pacman arguments (`-Q`
/// followed by the options) and the targets; `None` when there is no target.
pub fn depend_args(args: &[String]) -> (r: Option<(Vec<String>, Vec<String>)>)
    ensures
        r is None <==> depend_split(string_views(args@), args@.len()).1.len() == 0,
        r matches Some((pacman_args, targets)) ==> {
            &&& string_views(pacman_args@) == seq!["-Q"@] + depend_split(string_views(args@), args@.len()).0
            &&& string_views(targets@) == depend_split(string_views(args@), args@.len()).1
        },
{
    let ghost sargs = string_views(args@);
    let mut pacman_args: Vec<String> = Vec::new();
    pacman_args.push(String::from_str("-Q"));
    let mut targets: Vec<String> = Vec::new();
    let mut i: usize = 0;
    assert(string_views(pacman_args@) =~= seq!["-Q"@] + depend_split(sargs, 0).0);
    assert(string_views(targets@) =~= depend_split(sargs, 0).1);
    while i < args.len()
        invariant
            sargs == string_views(args@),
            i <= args@.len(),
            string_views(pacman_args@) == seq!["-Q"@] + depend_split(sargs, i as nat).0,
            string_views(targets@) == depend_split(sargs, i as nat).1,
        decreases args@.len() - i,
    {
        let arg = args[i].as_str();
        assert(sargs[i as int] == arg@);
        let ghost p0 = string_views(pacman_args@);
        let ghost t0 = string_views(targets@);
        if arg.unicode_len() > 0 && arg.get_char(0) == '-' {
            pacman_args.push(String::from_str(arg));
            assert(string_views(pacman_args@) =~= p0.push(arg@));
        } else {
            targets.push(String::from_str(arg));
            assert(string_views(targets@) =~= t0.push(arg@));
        }
        i = i + 1;
    }
    if targets.len() == 0 {
        None
    } else {
        Some((pacman_args, targets))
    }
}

/// Each package lands in at most one of the two lists; with no local
/// repositories, each lands in exactly one, and the repository list is the
/// packages that the repositories have.
pub proof fn law_split_partitions(
    pkgs: Seq<Seq<char>>,
    in_repo: Seq<bool>,
    in_aur: Seq<bool>,
    no_local_repos: bool,
    n: nat,
)
    requires
        n <= pkgs.len(),
        n <= in_repo.len(),
        n <= in_aur.len(),
    ensures
        split_repo_aur_spec(pkgs, in_repo, in_aur, no_local_repos, n).0.len()
            + split_repo_aur_spec(pkgs, in_repo, in_aur, no_local_repos, n).1.len() <= n,
        no_local_repos ==> split_repo_aur_spec(pkgs, in_repo, in_aur, no_local_repos, n).0.len()
            + split_repo_aur_spec(pkgs, in_repo, in_aur, no_local_repos, n).1.len() == n,
    decreases n,
{
    if n > 0 {
        law_split_partitions(pkgs, in_repo, in_aur, no_local_repos, (n - 1) as nat);
    }
}

/// How targets are looked for: in the repositories, in the AUR, among
/// local PKGBUILD repositories.
#[derive(Debug, Clone, Copy, PartialEq, Eq)]
pub struct TargetModes {
    pub repo: bool,
    pub aur: bool,
    pub pkgbuild: bool,
}

/// Whether target `t` is installed from the repositories (else from the AUR
/// or a PKGBUILD repository). A target naming a repository goes to the
/// repositories when that is a sync database, to the AUR when it is a
/// PKGBUILD repository, the AUR namespace or `.`, and to the repositories
/// otherwise; a bare target goes to the repositories when they resolve it
/// (`found`).
pub open spec fn target_is_repo(
    modes: TargetModes,
    t: Seq<char>,
    sync_dbs: Seq<Seq<char>>,
    pkgbuild_repos: Seq<Seq<char>>,
    aur_namespace: Seq<char>,
    found: bool,
) -> bool {
    if !modes.repo {
        false
    } else if !modes.aur && !modes.pkgbuild {
        true
    } else {
        match target_parts(t).0 {
            Some(r) => if sync_dbs.contains(r) {
                true
            } else if pkgbuild_repos.contains(r) || r == aur_namespace || r == "."@ {
                false
            } else {
                true
            },
            None => found,
        }
    }
}

/// Like `target_is_repo` for `-Si`: a named repository counts only when it
/// is a sync database, and a bare target only when a sync database has a
/// package of that name (`found`).
pub open spec fn info_target_is_repo(modes: TargetModes, t: Seq<char>, sync_dbs: Seq<Seq<char>>, found: bool) -> bool {
    if !modes.repo {
        false
    } else if !modes.aur && !modes.pkgbuild {
        true
    } else {
        match target_parts(t).0 {
            Some(r) => sync_dbs.contains(r),
            None => found,
        }
    }
}

/// The targets among the first `n` for which `pick(i)` holds, in order.
pub open spec fn targets_where(targets: Seq<Seq<char>>, pick: spec_fn(int) -> bool, n: nat) -> Seq<Seq<char>>
    decreases n,
{
    if n == 0 || n > targets.len() {
        seq![]
    } else if pick(n - 1) {
        targets_where(targets, pick, (n - 1) as nat).push(targets[n - 1])
    } else {
        targets_where(targets, pick, (n - 1) as nat)
    }
}

proof fn lemma_targets_where_none(targets: Seq<Seq<char>>, pick: spec_fn(int) -> bool, n: nat)
    requires
        n <= targets.len(),
        forall|i: int| 0 <= i < n ==> !#[trigger] pick(i),
    ensures
        targets_where(targets, pick, n) == Seq::<Seq<char>>::empty(),
    decreases n,
{
    if n > 0 {
        lemma_targets_where_none(targets, pick, (n - 1) as nat);
    }
}

proof fn lemma_targets_where_all(targets: Seq<Seq<char>>, pick: spec_fn(int) -> bool, n: nat)
    requires
        n <= targets.len(),
        forall|i: int| 0 <= i < n ==> #[trigger] pick(i),
    ensures
        targets_where(targets, pick, n) == targets.take(n as int),
    decreases n,
{
    if n > 0 {
        lemma_targets_where_all(targets, pick, (n - 1) as nat);
        assert(targets.take(n as int) =~= targets.take(n - 1).push(targets[n - 1]));
    }
}

/// With the repositories off, no target is a repository target, whatever
/// the AUR and PKGBUILD modes, the target's repository prefix, or what the
/// repositories hold; with only the repositories on, every target is one.
pub proof fn law_repo_mode_decides(
    modes: TargetModes,
    t: Seq<char>,
    sync_dbs: Seq<Seq<char>>,
    pkgbuild_repos: Seq<Seq<char>>,
    aur_namespace: Seq<char>,
    found: bool,
)
    ensures
        !modes.repo ==> !target_is_repo(modes, t, sync_dbs, pkgbuild_repos, aur_namespace, found),
        !modes.repo ==> !info_target_is_repo(modes, t, sync_dbs, found),
        modes.repo && !modes.aur && !modes.pkgbuild ==> target_is_repo(modes, t, sync_dbs, pkgbuild_repos, aur_namespace, found),
        modes.repo && !modes.aur && !modes.pkgbuild ==> info_target_is_repo(modes, t, sync_dbs, found),
{
}

fn contains_name(names: &[&str], name: &str) -> (r: bool)
    ensures
        r == views(names@).contains(name@),
{
    let mut i: usize = 0;
    while i < names.len()
        invariant
            i <= names@.len(),
            forall|k: int| 0 <= k < i ==> names@[k]@ != name@,
        decreases names@.len() - i,
    {
        if str_eq(names[i], name) {
            assert(views(names@)[i as int] == name@);
            return true;
        }
        i = i + 1;
    }
    assert forall|k: int| 0 <= k < views(names@).len() implies views(names@)[k] != name@ by {
        assert(views(names@)[k] == names@[k]@);
    }
    false
}

/// Splits targets into repository targets and AUR targets; `found[i]` tells
/// whether the repositories resolve target `i` as a package, a provider or a
/// group.
pub fn split_repo_aur_targets<'a>(
    modes: TargetModes,
    targets: &[&'a str],
    sync_dbs: &[&str],
    pkgbuild_repos: &[&str],
    aur_namespace: &str,
    found: &[bool],
) -> (r: (Vec<&'a str>, Vec<&'a str>))
    requires
        found@.len() == targets@.len(),
    ensures
        views(r.0@) == targets_where(
            views(targets@),
            |i: int| target_is_repo(modes, targets@[i]@, views(sync_dbs@), views(pkgbuild_repos@), aur_namespace@, found@[i]),
            targets@.len() as nat,
        ),
        views(r.1@) == targets_where(
            views(targets@),
            |i: int| !target_is_repo(modes, targets@[i]@, views(sync_dbs@), views(pkgbuild_repos@), aur_namespace@, found@[i]),
            targets@.len() as nat,
        ),
        !modes.repo ==> r.0@.len() == 0 && views(r.1@) == views(targets@),
        modes.repo && !modes.aur && !modes.pkgbuild ==> views(r.0@) == views(targets@) && r.1@.len() == 0,
{
    proof {
        reveal_strlit(".");
    }
    let ghost local_pick = |i: int| target_is_repo(modes, targets@[i]@, views(sync_dbs@), views(pkgbuild_repos@), aur_namespace@, found@[i]);
    let ghost aur_pick = |i: int| !target_is_repo(modes, targets@[i]@, views(sync_dbs@), views(pkgbuild_repos@), aur_namespace@, found@[i]);
    let mut local: Vec<&'a str> = Vec::new();
    let mut aur: Vec<&'a str> = Vec::new();
    let mut i: usize = 0;
    assert(views(local@) =~= Seq::<Seq<char>>::empty());
    assert(views(aur@) =~= Seq::<Seq<char>>::empty());
    while i < targets.len()
        invariant
            i <= targets@.len(),
            found@.len() == targets@.len(),
            "."@ == seq!['.'],
            local_pick == (|i: int| target_is_repo(modes, targets@[i]@, views(sync_dbs@), views(pkgbuild_repos@), aur_namespace@, found@[i])),
            aur_pick == (|i: int| !target_is_repo(modes, targets@[i]@, views(sync_dbs@), views(pkgbuild_repos@), aur_namespace@, found@[i])),
            views(local@) == targets_where(views(targets@), local_pick, i as nat),
            views(aur@) == targets_where(views(targets@), aur_pick, i as nat),
        decreases targets@.len() - i,
    {
        let t = targets[i];
        assert(views(targets@)[i as int] == t@);
        let is_repo = if !modes.repo {
            false
        } else if !modes.aur && !modes.pkgbuild {
            true
        } else {
            let (repo, _pkg) = parse_target(t);
            match repo {
                Some(r) => {
                    if contains_name(sync_dbs, r) {
                        true
                    } else if contains_name(pkgbuild_repos, r) || str_eq(r, aur_namespace) || str_eq(r, ".") {
                        false
                    } else {
                        true
                    }
                },
                None => found[i],
            }
        };
        assert(is_repo == local_pick(i as int));
        let ghost l0 = views(local@);
        let ghost a0 = views(aur@);
        if is_repo {
            local.push(t);
            assert(views(local@) =~= l0.push(t@));
        } else {
            aur.push(t);
            assert(views(aur@) =~= a0.push(t@));
        }
        i = i + 1;
    }
    proof {
        let n = targets@.len() as nat;
        let tv = views(targets@);
        assert(tv.take(n as int) =~= tv);
        if !modes.repo {
            lemma_targets_where_none(tv, local_pick, n);
            lemma_targets_where_all(tv, aur_pick, n);
        }
        if modes.repo && !modes.aur && !modes.pkgbuild {
            lemma_targets_where_all(tv, local_pick, n);
            lemma_targets_where_none(tv, aur_pick, n);
        }
    }
    (local, aur)
}

/// Splits targets for `-Si`: see `info_target_is_repo`; `found[i]` tells
/// whether a sync database has a package named like target `i`.
pub fn split_repo_aur_info<'a>(
    modes: TargetModes,
    targets: &[&'a str],
    sync_dbs: &[&str],
    found: &[bool],
) -> (r: (Vec<&'a str>, Vec<&'a str>))
    requires
        found@.len() == targets@.len(),
    ensures
        views(r.0@) == targets_where(
            views(targets@),
            |i: int| info_target_is_repo(modes, targets@[i]@, views(sync_dbs@), found@[i]),
            targets@.len() as nat,
        ),
        views(r.1@) == targets_where(
            views(targets@),
            |i: int| !info_target_is_repo(modes, targets@[i]@, views(sync_dbs@), found@[i]),
            targets@.len() as nat,
        ),
        !modes.repo ==> r.0@.len() == 0 && views(r.1@) == views(targets@),
        modes.repo && !modes.aur && !modes.pkgbuild ==> views(r.0@) == views(targets@) && r.1@.len() == 0,
{
    let ghost local_pick = |i: int| info_target_is_repo(modes, targets@[i]@, views(sync_dbs@), found@[i]);
    let ghost aur_pick = |i: int| !info_target_is_repo(modes, targets@[i]@, views(sync_dbs@), found@[i]);
    let mut local: Vec<&'a str> = Vec::new();
    let mut aur: Vec<&'a str> = Vec::new();
    let mut i: usize = 0;
    assert(views(local@) =~= Seq::<Seq<char>>::empty());
    assert(views(aur@) =~= Seq::<Seq<char>>::empty());
    while i < targets.len()
        invariant
            i <= targets@.len(),
            found@.len() == targets@.len(),
            local_pick == (|i: int| info_target_is_repo(modes, targets@[i]@, views(sync_dbs@), found@[i])),
            aur_pick == (|i: int| !info_target_is_repo(modes, targets@[i]@, views(sync_dbs@), found@[i])),
            views(local@) == targets_where(views(targets@), local_pick, i as nat),
            views(aur@) == targets_where(views(targets@), aur_pick, i as nat),
        decreases targets@.len() - i,
    {
        let t = targets[i];
        assert(views(targets@)[i as int] == t@);
        let is_repo = if !modes.repo {
            false
        } else if !modes.aur && !modes.pkgbuild {
            true
        } else {
            let (repo, _pkg) = parse_target(t);
            match repo {
                Some(r) => contains_name(sync_dbs, r),
                None => found[i],
            }
        };
        assert(is_repo == local_pick(i as int));
        let ghost l0 = views(local@);
        let ghost a0 = views(aur@);
        if is_repo {
            local.push(t);
            assert(views(local@) =~= l0.push(t@));
        } else {
            aur.push(t);
            assert(views(aur@) =~= a0.push(t@));
        }
        i = i + 1;
    }
    proof {
        let n = targets@.len() as nat;
        let tv = views(targets@);
        assert(tv.take(n as int) =~= tv);
        if !modes.repo {
            lemma_targets_where_none(tv, local_pick, n);
            lemma_targets_where_all(tv, aur_pick, n);
        }
        if modes.repo && !modes.aur && !modes.pkgbuild {
            lemma_targets_where_all(tv, local_pick, n);
            lemma_targets_where_none(tv, aur_pick, n);
        }
    }
    (local, aur)
}

/// The name under which a package is built: its base when it has one,
/// else its own name.
pub fn pkg_base_or_name<'a>(base: Option<&'a str>, name: &'a str) -> (r: &'a str)
    ensures
        r@ == (match base {
            Some(b) => b@,
            None => name@,
        }),
{
    match base {
        Some(b) => b,
        None => name,
    }
}

/// The installed packages split into repository packages and AUR packages.
///
/// With local repositories configured, these are the packages of the
/// repository databases and those of the local AUR repositories. Without,
/// the locally installed packages are split by whether a sync database has
/// a package of that name (`in_sync[i]`), each list keeping their order.
pub fn repo_aur_pkgs<'a>(
    has_local_repos: bool,
    repo_db_pkgs: &[&'a str],
    aur_db_pkgs: &[&'a str],
    local_pkgs: &[&'a str],
    in_sync: &[bool],
) -> (r: (Vec<&'a str>, Vec<&'a str>))
    requires
        in_sync@.len() == local_pkgs@.len(),
    ensures
        has_local_repos ==> views(r.0@) == views(repo_db_pkgs@) && views(r.1@) == views(aur_db_pkgs@),
        !has_local_repos ==> views(r.0@) == targets_where(views(local_pkgs@), |i: int| in_sync@[i], local_pkgs@.len() as nat),
        !has_local_repos ==> views(r.1@) == targets_where(views(local_pkgs@), |i: int| !in_sync@[i], local_pkgs@.len() as nat),
{
    if has_local_repos {
        let mut repo: Vec<&'a str> = Vec::new();
        let mut aur: Vec<&'a str> = Vec::new();
        let mut i: usize = 0;
        while i < repo_db_pkgs.len()
            invariant
                i <= repo_db_pkgs@.len(),
                repo@ == repo_db_pkgs@.take(i as int),
            decreases repo_db_pkgs@.len() - i,
        {
            repo.push(repo_db_pkgs[i]);
            assert(repo@ =~= repo_db_pkgs@.take(i + 1));
            i = i + 1;
        }
        let mut j: usize = 0;
        while j < aur_db_pkgs.len()
            invariant
                j <= aur_db_pkgs@.len(),
                aur@ == aur_db_pkgs@.take(j as int),
            decreases aur_db_pkgs@.len() - j,
        {
            aur.push(aur_db_pkgs[j]);
            assert(aur@ =~= aur_db_pkgs@.take(j + 1));
            j = j + 1;
        }
        assert(repo_db_pkgs@.take(i as int) =~= repo_db_pkgs@);
        assert(aur_db_pkgs@.take(j as int) =~= aur_db_pkgs@);
        (repo, aur)
    } else {
        let ghost in_pick = |i: int| in_sync@[i];
        let ghost out_pick = |i: int| !in_sync@[i];
        let mut repo: Vec<&'a str> = Vec::new();
        let mut aur: Vec<&'a str> = Vec::new();
        let mut i: usize = 0;
        assert(views(repo@) =~= Seq::<Seq<char>>::empty());
        assert(views(aur@) =~= Seq::<Seq<char>>::empty());
        while i < local_pkgs.len()
            invariant
                i <= local_pkgs@.len(),
                in_sync@.len() == local_pkgs@.len(),
                in_pick == (|i: int| in_sync@[i]),
                out_pick == (|i: int| !in_sync@[i]),
                views(repo@) == targets_where(views(local_pkgs@), in_pick, i as nat),
                views(aur@) == targets_where(views(local_pkgs@), out_pick, i as nat),
            decreases local_pkgs@.len() - i,
        {
            let p = local_pkgs[i];
            assert(views(local_pkgs@)[i as int] == p@);
            let ghost r0 = views(repo@);
            let ghost a0 = views(aur@);
            if in_sync[i] {
                repo.push(p);
                assert(views(repo@) =~= r0.push(p@));
            } else {
                aur.push(p);
                assert(views(aur@) =~= a0.push(p@));
            }
            i = i + 1;
        }
        (repo, aur)
    }
}

} // verus!
