use std::collections::{HashMap, HashSet};

use pstree::process::{build_tree, Process};
use pstree::render::{drawing_ends, render, RenderOptions};

fn make_proc(pid: i32, ppid: i32, name: &str) -> Process {
    Process { pid, ppid, uid: 0, name: name.to_string() }
}

fn make_tree() -> (HashMap<i32, Process>, HashMap<i32, Vec<i32>>, HashSet<i32>) {
    let procs = vec![
        make_proc(1, 0, "launchd"),
        make_proc(2, 1, "logd"),
        make_proc(3, 1, "configd"),
        make_proc(4, 2, "worker"),
    ];
    let (pm, ch) = build_tree(procs);
    let visible: HashSet<i32> = pm.keys().copied().collect();
    (pm, ch, visible)
}

#[test]
fn utf8_tree_structure() {
    let (pm, ch, visible) = make_tree();
    let opts = RenderOptions { ascii: false, width: None };
    let out = render(&pm, &ch, &visible, 1, &opts);
    assert!(out.contains("├─"), "should use UTF-8 branch char");
    assert!(out.contains("└─"), "should use UTF-8 last char");
    // Root has no prefix.
    assert!(out.starts_with("1 launchd"), "root line has no prefix");
}

#[test]
fn ascii_tree_structure() {
    let (pm, ch, visible) = make_tree();
    let opts = RenderOptions { ascii: true, width: None };
    let out = render(&pm, &ch, &visible, 1, &opts);
    assert!(out.contains("|--"), "should use ASCII branch char");
}

#[test]
fn truncation_applied() {
    let (pm, ch, visible) = make_tree();
    let opts = RenderOptions { ascii: false, width: Some(10) };
    let out = render(&pm, &ch, &visible, 1, &opts);
    for line in out.lines() {
        assert!(line.chars().count() <= 10, "line too long: {:?}", line);
    }
}

#[test]
fn pid_and_name_on_each_line() {
    let (pm, ch, visible) = make_tree();
    let opts = RenderOptions { ascii: false, width: None };
    let out = render(&pm, &ch, &visible, 1, &opts);
    assert!(out.contains("2 logd"));
    assert!(out.contains("4 worker"));
}

#[test]
fn whole_utf8_drawing() {
    let (pm, ch, visible) = make_tree();
    let out = render(&pm, &ch, &visible, 1, &RenderOptions { ascii: false, width: None });
    assert_eq!(out, "1 launchd\n├─ 2 logd\n│  └─ 4 worker\n└─ 3 configd\n");
}

#[test]
fn whole_ascii_drawing() {
    let (pm, ch, visible) = make_tree();
    let out = render(&pm, &ch, &visible, 1, &RenderOptions { ascii: true, width: None });
    assert_eq!(out, "1 launchd\n|-- 2 logd\n|   \\-- 4 worker\n\\-- 3 configd\n");
}

#[test]
fn blank_continuation_under_last_child() {
    let procs = vec![
        make_proc(1, 0, "a"),
        make_proc(2, 1, "b"),
        make_proc(3, 2, "c"),
    ];
    let (pm, ch) = build_tree(procs);
    let visible: HashSet<i32> = pm.keys().copied().collect();
    let out = render(&pm, &ch, &visible, 1, &RenderOptions { ascii: true, width: None });
    assert_eq!(out, "1 a\n\\-- 2 b\n    \\-- 3 c\n");
}

#[test]
fn exact_truncation() {
    let (pm, ch, visible) = make_tree();
    let out = render(&pm, &ch, &visible, 1, &RenderOptions { ascii: false, width: Some(6) });
    assert_eq!(out, "1 laun\n├─ 2 l\n│  └─ \n└─ 3 c\n");
    let out = render(&pm, &ch, &visible, 1, &RenderOptions { ascii: false, width: Some(0) });
    assert_eq!(out, "1 launchd\n├─ 2 logd\n│  └─ 4 worker\n└─ 3 configd\n");
}

#[test]
fn hidden_children_skipped() {
    let (pm, ch, _) = make_tree();
    let visible: HashSet<i32> = [1, 2].into_iter().collect();
    let out = render(&pm, &ch, &visible, 1, &RenderOptions { ascii: true, width: None });
    assert_eq!(out, "1 launchd\n\\-- 2 logd\n");
}

#[test]
fn unknown_root_draws_nothing() {
    let (pm, ch, visible) = make_tree();
    let out = render(&pm, &ch, &visible, 42, &RenderOptions { ascii: true, width: None });
    assert_eq!(out, "");
}

#[test]
fn negative_pid_printed_with_sign() {
    let procs = vec![make_proc(-5, 0, "odd")];
    let (pm, ch) = build_tree(procs);
    let visible: HashSet<i32> = pm.keys().copied().collect();
    let out = render(&pm, &ch, &visible, -5, &RenderOptions { ascii: true, width: None });
    assert_eq!(out, "-5 odd\n");
}

#[test]
fn drawing_walk_ends() {
    let (pm, ch, visible) = make_tree();
    assert!(drawing_ends(&pm, &ch, &visible, 1, 10));
    // The kernel task is its own parent but a root: the drawing from it ends.
    let procs = vec![make_proc(0, 0, "kernel"), make_proc(1, 0, "launchd")];
    let (pm, ch) = build_tree(procs);
    let all: HashSet<i32> = pm.keys().copied().collect();
    assert!(drawing_ends(&pm, &ch, &all, 0, 10));
    let out = render(&pm, &ch, &all, 0, &RenderOptions { ascii: true, width: None });
    assert_eq!(out, "0 kernel\n\\-- 1 launchd\n");
    // 5 and 6 are each other's parent: the drawing from 5 would not end,
    // unless 6 is hidden.
    let procs = vec![make_proc(5, 6, "a"), make_proc(6, 5, "b")];
    let (pm, ch) = build_tree(procs);
    let all: HashSet<i32> = pm.keys().copied().collect();
    assert!(!drawing_ends(&pm, &ch, &all, 5, 10));
    let only_five: HashSet<i32> = [5].into_iter().collect();
    assert!(drawing_ends(&pm, &ch, &only_five, 5, 10));
    let out = render(&pm, &ch, &only_five, 5, &RenderOptions { ascii: true, width: None });
    assert_eq!(out, "5 a\n");
}

#[test]
fn width_cuts_each_line_of_the_full_drawing() {
    let (pm, ch, visible) = make_tree();
    let full = render(&pm, &ch, &visible, 1, &RenderOptions { ascii: false, width: None });
    for w in 1..15usize {
        let cut = render(&pm, &ch, &visible, 1, &RenderOptions { ascii: false, width: Some(w) });
        let expected: String = full
            .lines()
            .map(|l| format!("{}\n", l.chars().take(w).collect::<String>()))
            .collect();
        assert_eq!(cut, expected);
    }
}
