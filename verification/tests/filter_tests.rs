use std::collections::HashMap;

use pstree::filter::{filter_ends, tree_depth_ends, visible_pids};
use pstree::process::{build_tree, Process};

fn make_proc(pid: i32, ppid: i32, uid: u32) -> Process {
    Process { pid, ppid, uid, name: format!("proc{}", pid) }
}

fn make_tree() -> (HashMap<i32, Process>, HashMap<i32, Vec<i32>>) {
    // 1 -> 2 -> 4
    //        -> 5
    //   -> 3
    let procs = vec![
        make_proc(1, 0, 0),
        make_proc(2, 1, 1000),
        make_proc(3, 1, 0),
        make_proc(4, 2, 1000),
        make_proc(5, 2, 0),
    ];
    build_tree(procs)
}

#[test]
fn no_filter_returns_all() {
    let (pm, ch) = make_tree();
    let v = visible_pids(&pm, &ch, 1, None, None, None);
    assert_eq!(v.len(), 5);
}

#[test]
fn pid_filter_includes_ancestors_and_subtree() {
    let (pm, ch) = make_tree();
    // Filter for pid=4: should include 1->2->4
    let v = visible_pids(&pm, &ch, 1, Some(4), None, None);
    assert!(v.contains(&1), "root must be visible");
    assert!(v.contains(&2), "ancestor must be visible");
    assert!(v.contains(&4), "target must be visible");
    assert!(!v.contains(&3), "unrelated branch must be hidden");
    assert!(!v.contains(&5), "sibling must be hidden");
}

#[test]
fn user_filter_includes_ancestors() {
    let (pm, ch) = make_tree();
    // uid=1000: pids 2 and 4
    let v = visible_pids(&pm, &ch, 1, None, Some(1000), None);
    assert!(v.contains(&1));
    assert!(v.contains(&2));
    assert!(v.contains(&4));
    // pid 3 uid=0, pid 5 uid=0 — not matched, but 5 is descendant of matched 2
    // subtree of 2 includes 5
    assert!(v.contains(&5));
    assert!(!v.contains(&3));
}

#[test]
fn max_depth_limits_output() {
    let (pm, ch) = make_tree();
    let v = visible_pids(&pm, &ch, 1, None, None, Some(1));
    assert!(v.contains(&1));
    assert!(v.contains(&2));
    assert!(v.contains(&3));
    assert!(!v.contains(&4));
    assert!(!v.contains(&5));
}

#[test]
fn depth_zero_shows_root_only() {
    let (pm, ch) = make_tree();
    let v = visible_pids(&pm, &ch, 1, None, None, Some(0));
    assert_eq!(v.len(), 1);
    assert!(v.contains(&1));
}

#[test]
fn depth_counts_from_matching_process() {
    let (pm, ch) = make_tree();
    let v = visible_pids(&pm, &ch, 1, Some(2), None, Some(0));
    let mut got: Vec<i32> = v.into_iter().collect();
    got.sort();
    assert_eq!(got, vec![1, 2]);
    let v = visible_pids(&pm, &ch, 1, Some(2), None, Some(1));
    let mut got: Vec<i32> = v.into_iter().collect();
    got.sort();
    assert_eq!(got, vec![1, 2, 4, 5]);
}

#[test]
fn both_filters_must_match() {
    let (pm, ch) = make_tree();
    let v = visible_pids(&pm, &ch, 1, Some(3), Some(1000), None);
    assert!(v.is_empty());
    let v = visible_pids(&pm, &ch, 1, Some(4), Some(1000), None);
    let mut got: Vec<i32> = v.into_iter().collect();
    got.sort();
    assert_eq!(got, vec![1, 2, 4]);
}

#[test]
fn filter_outside_subtree_shows_nothing() {
    let (pm, ch) = make_tree();
    let v = visible_pids(&pm, &ch, 2, Some(3), None, None);
    assert!(v.is_empty());
}

#[test]
fn subtree_root_other_than_one() {
    let (pm, ch) = make_tree();
    let v = visible_pids(&pm, &ch, 2, None, None, None);
    let mut got: Vec<i32> = v.into_iter().collect();
    got.sort();
    assert_eq!(got, vec![2, 4, 5]);
}

#[test]
fn path_through_pid_zero_is_marked() {
    // The upward walk from the match passes parent 0 and reaches root 0, so
    // the whole path is visible.
    let procs = vec![make_proc(0, 5, 0), make_proc(1, 0, 0), make_proc(2, 1, 7)];
    let (pm, ch) = build_tree(procs);
    let v = visible_pids(&pm, &ch, 0, None, Some(7), None);
    let mut got: Vec<i32> = v.into_iter().collect();
    got.sort();
    assert_eq!(got, vec![0, 1, 2]);
}

#[test]
fn depth_limit_from_kernel_task() {
    // pid 0 is its own parent and the root of the tree.
    let procs = vec![make_proc(0, 0, 0), make_proc(1, 0, 0)];
    let (pm, ch) = build_tree(procs);
    let v = visible_pids(&pm, &ch, 0, None, None, Some(3));
    let mut got: Vec<i32> = v.into_iter().collect();
    got.sort();
    assert_eq!(got, vec![0, 1]);
}

#[test]
fn limited_view_is_contained_in_unlimited() {
    let (pm, ch) = make_tree();
    for d in 0..4usize {
        let small = visible_pids(&pm, &ch, 1, None, Some(1000), Some(d));
        let big = visible_pids(&pm, &ch, 1, None, Some(1000), Some(d + 1));
        let all = visible_pids(&pm, &ch, 1, None, Some(1000), None);
        assert!(small.is_subset(&big));
        assert!(big.is_subset(&all));
    }
}

#[test]
fn depth_bound_on_tree_and_cycle() {
    let (_, ch) = make_tree();
    assert!(tree_depth_ends(&ch, 1, 10));
    assert!(tree_depth_ends(&ch, 1, 3));
    assert!(!tree_depth_ends(&ch, 1, 2));
    // 5 and 6 are each other's parent: a cycle below either.
    let procs = vec![make_proc(1, 0, 0), make_proc(5, 6, 0), make_proc(6, 5, 0)];
    let (_, ch) = build_tree(procs);
    assert!(!tree_depth_ends(&ch, 5, 100));
    assert!(tree_depth_ends(&ch, 1, 100));
    // The kernel task is its own parent but a root, not its own child.
    let procs = vec![make_proc(0, 0, 0), make_proc(1, 0, 0)];
    let (_, ch) = build_tree(procs);
    assert!(tree_depth_ends(&ch, 0, 100));
}

#[test]
fn filter_walks_end() {
    let (pm, ch) = make_tree();
    assert!(filter_ends(&pm, &ch, 1, Some(4), None, None, 10));
    assert!(filter_ends(&pm, &ch, 1, None, None, None, 10));
    let procs = vec![make_proc(1, 0, 0), make_proc(5, 6, 0), make_proc(6, 5, 0)];
    let (pm, ch) = build_tree(procs);
    assert!(filter_ends(&pm, &ch, 5, None, None, Some(2), 10));
    assert!(!filter_ends(&pm, &ch, 5, None, None, None, 10));
    assert!(!filter_ends(&pm, &ch, 5, Some(6), None, None, 10));
    let procs = vec![make_proc(0, 0, 0), make_proc(1, 0, 0)];
    let (pm, ch) = build_tree(procs);
    assert!(filter_ends(&pm, &ch, 0, None, None, None, 10));
    assert!(filter_ends(&pm, &ch, 0, Some(1), None, None, 10));
}

#[test]
fn whole_tree_from_kernel_task() {
    let procs = vec![make_proc(0, 0, 0), make_proc(1, 0, 0), make_proc(2, 1, 7)];
    let (pm, ch) = build_tree(procs);
    let v = visible_pids(&pm, &ch, 0, None, None, None);
    let mut got: Vec<i32> = v.into_iter().collect();
    got.sort();
    assert_eq!(got, vec![0, 1, 2]);
    let v = visible_pids(&pm, &ch, 0, None, Some(7), None);
    let mut got: Vec<i32> = v.into_iter().collect();
    got.sort();
    assert_eq!(got, vec![0, 1, 2]);
}

#[test]
fn filtered_view_within_unfiltered() {
    let (pm, ch) = make_tree();
    let all = visible_pids(&pm, &ch, 1, None, None, None);
    for pf in [None, Some(2), Some(3), Some(4), Some(9)] {
        for uf in [None, Some(0), Some(1000)] {
            for d in [None, Some(0), Some(1), Some(2)] {
                assert!(visible_pids(&pm, &ch, 1, pf, uf, d).is_subset(&all));
            }
        }
    }
}
