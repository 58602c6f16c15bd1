use paru::deps::{unneeded_indices, unneeded_pkgs};

#[test]
fn orphans_are_the_unreachable_dependencies() {
    // 0 explicit -> 1 -> 2; 3 -> 4 (3, 4 unreachable); 5 explicit; 6 -> 0
    let explicit = [true, false, false, false, false, true, false];
    let edges = vec![vec![1], vec![2], vec![], vec![4], vec![3], vec![], vec![0]];
    assert_eq!(unneeded_indices(&explicit, &edges), vec![3, 4, 6]);
}

#[test]
fn cycles_and_self_loops() {
    let explicit = [false, false, true];
    let edges = vec![vec![0, 1], vec![0], vec![1]];
    assert_eq!(unneeded_indices(&explicit, &edges), Vec::<usize>::new());
    let explicit = [false, false];
    assert_eq!(unneeded_indices(&explicit, &vec![vec![1], vec![0]]), vec![0, 1]);
    assert_eq!(unneeded_indices(&[], &[]), Vec::<usize>::new());
}

#[test]
fn orphan_names_come_in_name_order() {
    // firefox (explicit) -> nss -> nspr; zlib-ng and cmake are orphans; libx is
    // needed only by the orphan cmake.
    let names = ["firefox", "zlib-ng", "nss", "nspr", "cmake", "libx"];
    let explicit = [true, false, false, false, false, false];
    let edges = vec![vec![2], vec![], vec![3], vec![], vec![5], vec![]];
    assert_eq!(unneeded_pkgs(&names, &explicit, &edges), vec!["cmake", "libx", "zlib-ng"]);
    let none: [&str; 0] = [];
    assert_eq!(unneeded_pkgs(&none, &[], &[]), Vec::<&str>::new());
}

#[test]
fn orphan_names_order_is_bytewise() {
    let names = ["b", "B", "a", "ab", "é"];
    let explicit = [false; 5];
    let edges = vec![vec![], vec![], vec![], vec![], vec![]];
    assert_eq!(unneeded_pkgs(&names, &explicit, &edges), vec!["B", "a", "ab", "b", "é"]);
}

#[test]
fn dropping_optional_edges_only_adds_orphans() {
    let names = ["app", "lib", "opt", "plugin"];
    let explicit = [true, false, false, false];
    // app depends on lib and optionally on opt; opt depends on plugin.
    let with_optional = vec![vec![1, 2], vec![], vec![3], vec![]];
    let without_optional = vec![vec![1], vec![], vec![3], vec![]];
    assert_eq!(unneeded_pkgs(&names, &explicit, &with_optional), Vec::<&str>::new());
    assert_eq!(unneeded_pkgs(&names, &explicit, &without_optional), vec!["opt", "plugin"]);
}
