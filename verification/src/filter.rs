//! Selection of the pids to show: whole subtrees, or the branches that lead
//! to processes matching a pid or user filter.

use std::collections::HashMap;
use std::collections::HashSet;
use vstd::prelude::*;

use crate::bounded::depth_ends;
use crate::bounded::graph_kids;
use crate::bounded::lemma_path_step_back;
use crate::process::Process;

verus! {

broadcast use {vstd::std_specs::hash::group_hash_axioms, vstd::seq_lib::lemma_seq_contains_after_push};

/// The children graph of a children map: each pid with the sequence of its
/// children.
pub open spec fn kid_graph(ch: Map<i32, Vec<i32>>) -> Map<i32, Seq<i32>> {
    Map::new(|k: i32| ch.contains_key(k), |k: i32| ch[k]@)
}

/// There is a downward path of exactly `k` edges from `a` to `x` in the
/// children graph `g`.
pub open spec fn path(g: Map<i32, Seq<i32>>, a: i32, x: i32, k: nat) -> bool
    decreases k,
{
    if k == 0 {
        a == x
    } else {
        g.contains_key(a) && exists|j: int|
            0 <= j < g[a].len() && path(g, #[trigger] g[a][j], x, (k - 1) as nat)
    }
}

/// Depth `n` is allowed under the optional limit `max`.
pub open spec fn within(n: int, max: Option<usize>) -> bool {
    match max {
        None => true,
        Some(m) => n <= m,
    }
}

/// `x` lies in the subtree of `a`, where `a` stands at depth `depth` and
/// depths beyond `max` are cut off.
pub open spec fn in_subtree(g: Map<i32, Seq<i32>>, a: i32, x: i32, depth: int, max: Option<usize>) -> bool {
    exists|k: nat| #[trigger] path(g, a, x, k) && within(depth + k, max)
}

/// The pids of the subtree of `a` at depth `depth`, cut off beyond `max`.
pub open spec fn subtree(g: Map<i32, Seq<i32>>, a: i32, depth: int, max: Option<usize>) -> Set<i32> {
    Set::new(|x: i32| in_subtree(g, a, x, depth, max))
}

/// Every downward path from `a` has fewer than `n` edges: the graph below
/// `a` has no cycle.
pub open spec fn finite_below(g: Map<i32, Seq<i32>>, a: i32, n: nat) -> bool {
    forall|x: i32, m: nat| m >= n ==> !#[trigger] path(g, a, x, m)
}

/// The graph below `a` is finite in depth.
pub open spec fn acyclic_below(g: Map<i32, Seq<i32>>, a: i32) -> bool {
    exists|n: nat| finite_below(g, a, n)
}

/// Paths compose.
pub proof fn lemma_path_concat(g: Map<i32, Seq<i32>>, a: i32, t: i32, x: i32, k: nat, m: nat)
    requires
        path(g, a, t, k),
        path(g, t, x, m),
    ensures
        path(g, a, x, k + m),
    decreases k,
{
    if k > 0 {
        let j = choose|j: int| 0 <= j < g[a].len() && path(g, #[trigger] g[a][j], t, (k - 1) as nat);
        lemma_path_concat(g, g[a][j], t, x, (k - 1) as nat, m);
        assert(path(g, g[a][j], x, (k + m - 1) as nat));
    }
}

/// Below a child the depth bound is one less.
pub(crate) proof fn lemma_child_finite(g: Map<i32, Seq<i32>>, a: i32, j: int, n: nat)
    requires
        finite_below(g, a, n),
        g.contains_key(a),
        0 <= j < g[a].len(),
    ensures
        n >= 1,
        finite_below(g, g[a][j], (n - 1) as nat),
{
    assert(path(g, a, a, 0));
    assert forall|x: i32, m: nat| m >= n - 1 implies !#[trigger] path(g, g[a][j], x, m) by {
        if path(g, g[a][j], x, m) {
            assert(path(g, a, x, m + 1));
        }
    }
}

/// A node below an acyclic node is acyclic below too.
proof fn lemma_descendant_finite(g: Map<i32, Seq<i32>>, a: i32, t: i32, k: nat, n: nat)
    requires
        finite_below(g, a, n),
        path(g, a, t, k),
    ensures
        finite_below(g, t, n),
{
    assert forall|x: i32, m: nat| m >= n implies !#[trigger] path(g, t, x, m) by {
        if path(g, t, x, m) {
            lemma_path_concat(g, a, t, x, k, m);
        }
    }
}

/// One level of the subtree: the node itself, or something in the subtree of
/// one of its children.
proof fn lemma_subtree_unfold(g: Map<i32, Seq<i32>>, a: i32, x: i32, depth: int, max: Option<usize>)
    ensures
        in_subtree(g, a, x, depth, max) <==> within(depth, max) && (x == a || (g.contains_key(a)
            && exists|j: int| 0 <= j < g[a].len() && #[trigger] in_subtree(g, g[a][j], x, depth + 1, max))),
{
    if in_subtree(g, a, x, depth, max) {
        let k = choose|k: nat| #[trigger] path(g, a, x, k) && within(depth + k, max);
        if k > 0 {
            let j = choose|j: int| 0 <= j < g[a].len() && path(g, #[trigger] g[a][j], x, (k - 1) as nat);
            assert(path(g, g[a][j], x, (k - 1) as nat) && within(depth + 1 + (k - 1) as nat, max));
            assert(in_subtree(g, g[a][j], x, depth + 1, max));
        } else {
            assert(path(g, a, x, 0));
        }
    }
    if within(depth, max) && x == a {
        assert(path(g, a, x, 0) && within(depth + 0, max));
    }
    if within(depth, max) && g.contains_key(a) && exists|j: int|
        0 <= j < g[a].len() && #[trigger] in_subtree(g, g[a][j], x, depth + 1, max) {
        let j = choose|j: int| 0 <= j < g[a].len() && #[trigger] in_subtree(g, g[a][j], x, depth + 1, max);
        let k = choose|k: nat| #[trigger] path(g, g[a][j], x, k) && within(depth + 1 + k, max);
        assert(path(g, a, x, k + 1));
        assert(path(g, a, x, k + 1) && within(depth + (k + 1), max));
    }
}

/// Adds to `out` every pid of the subtree of `pid`, which stands at depth
/// `depth`; nothing below `max_depth` is added.
fn collect_subtree(
    children: &HashMap<i32, Vec<i32>>,
    pid: i32,
    depth: usize,
    max_depth: Option<usize>,
    out: &mut HashSet<i32>,
    Ghost(fuel): Ghost<nat>,
)
    requires
        finite_below(kid_graph(children@), pid, fuel) || (max_depth matches Some(m) && depth + fuel > m),
    ensures
        final(out)@ == old(out)@ + subtree(kid_graph(children@), pid, depth as int, max_depth),
    decreases fuel,
{
    let ghost g = kid_graph(children@);
    if let Some(max) = max_depth {
        if depth > max {
            proof {
                assert forall|x: i32| !in_subtree(g, pid, x, depth as int, max_depth) by {
                    lemma_subtree_unfold(g, pid, x, depth as int, max_depth);
                }
            }
            assert(old(out)@ + subtree(g, pid, depth as int, max_depth) =~= old(out)@);
            return;
        }
    }
    out.insert(pid);
    let ghost start = out@;
    // Children at a depth beyond the limit would add nothing, so the walk
    // stops at the last allowed level; without a limit the depth is not
    // counted at all.
    let last_level = match max_depth {
        Some(max) => depth == max,
        None => false,
    };
    let next_depth = if last_level { depth } else {
        match max_depth {
            Some(_) => depth + 1,
            None => depth,
        }
    };
    let ghost kids: Seq<i32> = if g.contains_key(pid) { g[pid] } else { Seq::empty() };
    if !last_level {
        if let Some(list) = children.get(&pid) {
            assert(list@ == kids);
            let n = list.len();
            let mut i: usize = 0;
            while i < n
                invariant
                    n == kids.len(),
                    list@ == kids,
                    g == kid_graph(children@),
                    g.contains_key(pid),
                    g[pid] == kids,
                    i <= n,
                    !last_level,
                    max_depth matches Some(m) ==> depth < m && next_depth == depth + 1,
                    max_depth is None ==> next_depth == depth,
                    finite_below(g, pid, fuel) || (max_depth matches Some(m) && depth + fuel > m),
                    forall|x: i32| #[trigger] out@.contains(x) <==> (start.contains(x) || exists|j: int|
                        0 <= j < i && #[trigger] in_subtree(g, kids[j], x, depth + 1, max_depth)),
                decreases n - i,
            {
                let child = list[i];
                proof {
                    if finite_below(g, pid, fuel) {
                        lemma_child_finite(g, pid, i as int, fuel);
                    } else {
                        assert(fuel >= 1);
                    }
                }
                let ghost before = out@;
                collect_subtree(children, child, next_depth, max_depth, out, Ghost((fuel - 1) as nat));
                proof {
                    assert forall|x: i32| in_subtree(g, child, x, next_depth as int, max_depth)
                        == in_subtree(g, child, x, depth + 1, max_depth) by {
                        if max_depth is None {
                            if in_subtree(g, child, x, next_depth as int, max_depth) {
                                let k = choose|k: nat| #[trigger] path(g, child, x, k) && within(next_depth + k, max_depth);
                                assert(within(depth + 1 + k, max_depth));
                            }
                            if in_subtree(g, child, x, depth + 1, max_depth) {
                                let k = choose|k: nat| #[trigger] path(g, child, x, k) && within(depth + 1 + k, max_depth);
                                assert(within(next_depth + k, max_depth));
                            }
                        }
                    }
                    assert forall|x: i32| #[trigger] out@.contains(x) <==> (start.contains(x) || exists|j: int|
                        0 <= j < i + 1 && #[trigger] in_subtree(g, kids[j], x, depth + 1, max_depth)) by {
                        if out@.contains(x) && !before.contains(x) {
                            assert(in_subtree(g, kids[i as int], x, depth + 1, max_depth));
                        }
                        if exists|j: int| 0 <= j < i + 1 && #[trigger] in_subtree(g, kids[j], x, depth + 1, max_depth) {
                            let j = choose|j: int| 0 <= j < i + 1 && #[trigger] in_subtree(g, kids[j], x, depth + 1, max_depth);
                            if j == i {
                                assert(out@.contains(x));
                            }
                        }
                    }
                }
                i = i + 1;
            }
        }
    }
    proof {
        assert forall|x: i32| #[trigger] out@.contains(x) <==> (old(out)@ + subtree(g, pid, depth as int, max_depth)).contains(x) by {
            lemma_subtree_unfold(g, pid, x, depth as int, max_depth);
            if last_level {
                assert forall|j: int| 0 <= j < kids.len() implies !#[trigger] in_subtree(g, kids[j], x, depth + 1, max_depth) by {
                    lemma_subtree_unfold(g, kids[j], x, depth + 1, max_depth);
                }
            }
        }
        assert(out@ =~= old(out)@ + subtree(g, pid, depth as int, max_depth));
    }
}

/// The pid reached from `x` by following parent links `i` times in `pm`.
pub open spec fn up_n(pm: Map<i32, Process>, x: i32, i: nat) -> i32
    decreases i,
{
    if i == 0 {
        x
    } else {
        pm[up_n(pm, x, (i - 1) as nat)].ppid
    }
}

/// The upward walk can go on from `x`: `x` is known and is not its own
/// parent.
pub open spec fn climbs(pm: Map<i32, Process>, x: i32) -> bool {
    pm.contains_key(x) && pm[x].ppid != x
}

/// Walking up from `t`, the first `n` steps can be taken and do not reach
/// `top` before the last.
pub open spec fn climbs_for(pm: Map<i32, Process>, top: i32, t: i32, n: nat) -> bool {
    &&& forall|i: nat| i < n ==> climbs(pm, #[trigger] up_n(pm, t, i))
    &&& forall|i: nat| 1 <= i < n ==> #[trigger] up_n(pm, t, i) != top
}

/// Walking up from `t` reaches `top` after exactly `n >= 1` steps.
pub open spec fn reaches_in(pm: Map<i32, Process>, top: i32, t: i32, n: nat) -> bool {
    &&& n >= 1
    &&& climbs_for(pm, top, t, n)
    &&& up_n(pm, t, n) == top
}

/// Walking up from `t` stops after `n` steps without having met `top`.
pub open spec fn stops_in(pm: Map<i32, Process>, top: i32, t: i32, n: nat) -> bool {
    &&& climbs_for(pm, top, t, n)
    &&& (n >= 1 ==> up_n(pm, t, n) != top)
    &&& !climbs(pm, up_n(pm, t, n))
}

/// The upward walk from `t` towards `top` comes to an end.
pub open spec fn climb_ends(pm: Map<i32, Process>, top: i32, t: i32) -> bool {
    t == top || exists|n: nat| reaches_in(pm, top, t, n) || stops_in(pm, top, t, n)
}

/// The walk from `t` finds `top`.
pub open spec fn climb_finds(pm: Map<i32, Process>, top: i32, t: i32) -> bool {
    t == top || exists|n: nat| reaches_in(pm, top, t, n)
}

/// The pids marked when walking up from `t` to `top`: the whole path,
/// both ends included, if the walk finds `top`, and nothing otherwise.
pub open spec fn ancestor_marks(pm: Map<i32, Process>, top: i32, t: i32) -> Set<i32> {
    if t == top {
        set![t]
    } else if exists|n: nat| reaches_in(pm, top, t, n) {
        let n = choose|n: nat| reaches_in(pm, top, t, n);
        Set::new(|x: i32| exists|i: nat| i <= n && #[trigger] up_n(pm, t, i) == x)
    } else {
        Set::empty()
    }
}

/// The walk up from `t` reaches `top` at one step count at most, and never
/// both reaches it and stops.
proof fn lemma_walk_unique(pm: Map<i32, Process>, top: i32, t: i32, n1: nat, n2: nat)
    requires
        reaches_in(pm, top, t, n1),
    ensures
        reaches_in(pm, top, t, n2) ==> n1 == n2,
        !stops_in(pm, top, t, n2),
{
    if reaches_in(pm, top, t, n2) {
        if n1 < n2 {
            assert(up_n(pm, t, n1) != top);
        } else if n2 < n1 {
            assert(up_n(pm, t, n2) != top);
        }
    }
    if stops_in(pm, top, t, n2) {
        if n2 < n1 {
            assert(climbs(pm, up_n(pm, t, n2)));
        } else if n2 > n1 {
            assert(up_n(pm, t, n1) != top);
        }
    }
}

/// Walks from `target` up the parent links towards `current`, and marks the
/// pids on the way as visible when `current` is found.
fn mark_ancestors(
    proc_map: &HashMap<i32, Process>,
    current: i32,
    target: i32,
    visible: &mut HashSet<i32>,
) -> (found: bool)
    requires
        climb_ends(proc_map@, current, target),
    ensures
        found == climb_finds(proc_map@, current, target),
        final(visible)@ == old(visible)@ + ancestor_marks(proc_map@, current, target),
{
    let ghost pm = proc_map@;
    if current == target {
        visible.insert(current);
        assert(visible@ =~= old(visible)@ + ancestor_marks(pm, current, target));
        return true;
    }
    let ghost n = choose|n: nat| reaches_in(pm, current, target, n) || stops_in(pm, current, target, n);
    let mut cursor = target;
    let mut path: Vec<i32> = Vec::new();
    path.push(cursor);
    let ghost mut i: nat = 0;
    loop
        invariant
            pm == proc_map@,
            current != target,
            reaches_in(pm, current, target, n) || stops_in(pm, current, target, n),
            i <= n,
            cursor == up_n(pm, target, i),
            path@.len() == i + 1,
            forall|j: int| 0 <= j <= i ==> #[trigger] path@[j] == up_n(pm, target, j as nat),
            climbs_for(pm, current, target, i),
            i >= 1 ==> cursor != current,
            visible@ == old(visible)@,
        decreases n - i,
    {
        let p = match proc_map.get(&cursor) {
            Some(p) => p,
            None => {
                proof {
                    assert(stops_in(pm, current, target, i));
                    if exists|m: nat| reaches_in(pm, current, target, m) {
                        let m = choose|m: nat| reaches_in(pm, current, target, m);
                        lemma_walk_unique(pm, current, target, m, i);
                    }
                    assert(ancestor_marks(pm, current, target) =~= Set::empty());
                    assert(visible@ =~= old(visible)@ + ancestor_marks(pm, current, target));
                }
                return false;
            },
        };
        if p.ppid == cursor {
            proof {
                assert(stops_in(pm, current, target, i));
                if exists|m: nat| reaches_in(pm, current, target, m) {
                    let m = choose|m: nat| reaches_in(pm, current, target, m);
                    lemma_walk_unique(pm, current, target, m, i);
                }
                assert(ancestor_marks(pm, current, target) =~= Set::empty());
                assert(visible@ =~= old(visible)@ + ancestor_marks(pm, current, target));
            }
            return false;
        }
        proof {
            assert(climbs(pm, up_n(pm, target, i)));
            if i == n {
                if reaches_in(pm, current, target, n) {
                    assert(false);
                } else {
                    assert(!climbs(pm, up_n(pm, target, n)));
                }
            }
        }
        cursor = p.ppid;
        path.push(cursor);
        proof {
            i = i + 1;
            assert(up_n(pm, target, i) == cursor);
            assert forall|j: int| 0 <= j <= i implies #[trigger] path@[j] == up_n(pm, target, j as nat) by {
                if j < i {
                }
            }
            assert forall|k: nat| k < i implies climbs(pm, #[trigger] up_n(pm, target, k)) by {
                if k < i - 1 {
                    assert(climbs_for(pm, current, target, (i - 1) as nat));
                }
            }
            assert forall|k: nat| 1 <= k < i implies #[trigger] up_n(pm, target, k) != current by {
                if k < i - 1 {
                    assert(climbs_for(pm, current, target, (i - 1) as nat));
                }
            }
        }
        if cursor == current {
            proof {
                assert(reaches_in(pm, current, target, i));
                let m = choose|m: nat| reaches_in(pm, current, target, m);
                lemma_walk_unique(pm, current, target, i, m);
            }
            let len = path.len();
            let mut k: usize = 0;
            while k < len
                invariant
                    len == path@.len(),
                    len == i + 1,
                    k <= len,
                    forall|j: int| 0 <= j <= i ==> #[trigger] path@[j] == up_n(pm, target, j as nat),
                    forall|x: i32| #[trigger] visible@.contains(x) <==> (old(visible)@.contains(x) || exists|j: int| 0 <= j < k && path@[j] == x),
                decreases len - k,
            {
                visible.insert(path[k]);
                k = k + 1;
            }
            proof {
                let marks = ancestor_marks(pm, current, target);
                assert forall|x: i32| #[trigger] visible@.contains(x) <==> (old(visible)@ + marks).contains(x) by {
                    if exists|j: int| 0 <= j < len && path@[j] == x {
                        let j = choose|j: int| 0 <= j < len && path@[j] == x;
                        assert(up_n(pm, target, j as nat) == x);
                    }
                    if marks.contains(x) {
                        let j = choose|j: nat| j <= i && #[trigger] up_n(pm, target, j) == x;
                        assert(path@[j as int] == x);
                    }
                }
                assert(visible@ =~= old(visible)@ + marks);
            }
            return true;
        }
    }
}

/// `pid` passes the pid and user filters (an absent filter passes all).
pub open spec fn matches_filter(pm: Map<i32, Process>, pid: i32, pid_filter: Option<i32>, user_filter: Option<u32>) -> bool {
    &&& pm.contains_key(pid)
    &&& (pid_filter matches Some(f) ==> f == pid)
    &&& (user_filter matches Some(u) ==> u == pm[pid].uid)
}

/// `t` is a matching process reachable from `root`.
pub open spec fn selected(
    pm: Map<i32, Process>,
    g: Map<i32, Seq<i32>>,
    root: i32,
    pid_filter: Option<i32>,
    user_filter: Option<u32>,
    t: i32,
) -> bool {
    in_subtree(g, root, t, 0, None) && matches_filter(pm, t, pid_filter, user_filter)
}

/// The pids shown: without filters, the subtree of `root` down to
/// `max_depth`; with filters, for every selected process, the path that
/// leads up to it from `root` and its own subtree down to `max_depth`
/// (counted from it).
pub open spec fn visible_set(
    pm: Map<i32, Process>,
    g: Map<i32, Seq<i32>>,
    root: i32,
    pid_filter: Option<i32>,
    user_filter: Option<u32>,
    max_depth: Option<usize>,
) -> Set<i32> {
    if pid_filter is None && user_filter is None {
        subtree(g, root, 0, max_depth)
    } else {
        Set::new(
            |x: i32|
                exists|t: i32| #[trigger]
                    selected(pm, g, root, pid_filter, user_filter, t) && (ancestor_marks(
                        pm,
                        root,
                        t,
                    ).contains(x) || in_subtree(g, t, x, 0, max_depth)),
        )
    }
}

/// The walks that `visible_pids` makes come to an end: the subtree it
/// collects without a depth limit is acyclic, and the upward walk from each
/// selected process ends.
pub open spec fn filter_terminates(
    pm: Map<i32, Process>,
    g: Map<i32, Seq<i32>>,
    root: i32,
    pid_filter: Option<i32>,
    user_filter: Option<u32>,
    max_depth: Option<usize>,
) -> bool {
    if pid_filter is None && user_filter is None {
        max_depth is Some || acyclic_below(g, root)
    } else {
        &&& acyclic_below(g, root)
        &&& forall|t: i32| #[trigger]
            selected(pm, g, root, pid_filter, user_filter, t) ==> climb_ends(pm, root, t)
    }
}

/// Returns the set of pids that should be visible given the filter criteria.
/// A pid is visible if it is on the path from the root to any matching node,
/// or is a descendant of a matching node. Without filters, every pid below
/// the root (down to `max_depth`) is visible.
pub fn visible_pids(
    proc_map: &HashMap<i32, Process>,
    children: &HashMap<i32, Vec<i32>>,
    root: i32,
    pid_filter: Option<i32>,
    user_filter: Option<u32>,
    max_depth: Option<usize>,
) -> (r: HashSet<i32>)
    requires
        filter_terminates(proc_map@, kid_graph(children@), root, pid_filter, user_filter, max_depth),
    ensures
        r@ == visible_set(proc_map@, kid_graph(children@), root, pid_filter, user_filter, max_depth),
{
    let ghost pm = proc_map@;
    let ghost g = kid_graph(children@);
    let ghost fuel: nat = if acyclic_below(g, root) {
        choose|n: nat| finite_below(g, root, n)
    } else {
        match max_depth {
            Some(m) => (m + 1) as nat,
            None => 0,
        }
    };
    if pid_filter.is_none() && user_filter.is_none() {
        let mut visible = HashSet::new();
        collect_subtree(children, root, 0, max_depth, &mut visible, Ghost(fuel));
        assert(visible@ =~= visible_set(pm, g, root, pid_filter, user_filter, max_depth));
        return visible;
    }
    let mut reachable: HashSet<i32> = HashSet::new();
    collect_subtree(children, root, 0, None, &mut reachable, Ghost(fuel));
    let mut matching: HashSet<i32> = HashSet::new();
    let ghost mut seen: Seq<i32> = Seq::empty();
    for pid_ref in it: reachable.iter()
        invariant
            pm == proc_map@,
            reachable@ == subtree(g, root, 0, None),
            it.seq().unref().to_set() == reachable@,
            forall|x: i32| #[trigger] seen.contains(x) ==> reachable@.contains(x),
            forall|x: i32| #[trigger] reachable@.contains(x) ==> seen.contains(x) || exists|j: int|
                it.index() <= j < it.seq().len() && *it.seq()[j] == x,
            forall|x: i32| #[trigger] matching@.contains(x) <==> (matches_filter(pm, x, pid_filter, user_filter)
                && seen.contains(x)),
    {
        let pid = *pid_ref;
        proof {
            assert(it.seq().unref()[it.index()] == pid);
            assert(it.seq().unref().to_set().contains(pid));
            seen = seen.push(pid);
        }
        if let Some(p) = proc_map.get(&pid) {
            let pid_match = match pid_filter {
                None => true,
                Some(f) => f == pid,
            };
            let user_match = match user_filter {
                None => true,
                Some(f) => f == p.uid,
            };
            if pid_match && user_match {
                matching.insert(pid);
            }
        }
    }
    assert forall|t: i32| #[trigger] matching@.contains(t) <==> selected(pm, g, root, pid_filter, user_filter, t) by {
        if selected(pm, g, root, pid_filter, user_filter, t) {
            assert(reachable@.contains(t));
        }
    }

    let mut visible: HashSet<i32> = HashSet::new();
    let ghost mut done: Seq<i32> = Seq::empty();
    for target_ref in it2: matching.iter()
        invariant
            pm == proc_map@,
            g == kid_graph(children@),
            finite_below(g, root, fuel),
            forall|t: i32| #[trigger] matching@.contains(t) <==> selected(pm, g, root, pid_filter, user_filter, t),
            forall|t: i32| #[trigger] selected(pm, g, root, pid_filter, user_filter, t) ==> climb_ends(pm, root, t),
            it2.seq().unref().to_set() == matching@,
            forall|x: i32| #[trigger] done.contains(x) ==> matching@.contains(x),
            forall|x: i32| #[trigger] matching@.contains(x) ==> done.contains(x) || exists|j: int|
                it2.index() <= j < it2.seq().len() && *it2.seq()[j] == x,
            forall|x: i32| #[trigger] visible@.contains(x) <==> exists|t: i32| #[trigger] done.contains(t)
                && (ancestor_marks(pm, root, t).contains(x) || in_subtree(g, t, x, 0, max_depth)),
    {
        let target = *target_ref;
        proof {
            assert(it2.seq().unref()[it2.index()] == target);
            assert(it2.seq().unref().to_set().contains(target));
            assert(matching@.contains(target));
            let k = choose|k: nat| #[trigger] path(g, root, target, k) && within(0int + k, None);
            lemma_descendant_finite(g, root, target, k, fuel);
        }
        let ghost before = visible@;
        let ghost done_before = done;
        mark_ancestors(proc_map, root, target, &mut visible);
        collect_subtree(children, target, 0, max_depth, &mut visible, Ghost(fuel));
        proof {
            done = done.push(target);
            assert forall|x: i32| #[trigger] visible@.contains(x) <==> exists|t: i32| #[trigger] done.contains(t)
                && (ancestor_marks(pm, root, t).contains(x) || in_subtree(g, t, x, 0, max_depth)) by {
                if visible@.contains(x) {
                    if before.contains(x) {
                        let t = choose|t: i32| #[trigger] done_before.contains(t)
                            && (ancestor_marks(pm, root, t).contains(x) || in_subtree(g, t, x, 0, max_depth));
                        assert(done.contains(t));
                    } else {
                        assert(ancestor_marks(pm, root, target).contains(x) || in_subtree(g, target, x, 0, max_depth));
                        assert(done.contains(target));
                    }
                }
                if exists|t: i32| #[trigger] done.contains(t)
                    && (ancestor_marks(pm, root, t).contains(x) || in_subtree(g, t, x, 0, max_depth)) {
                    let t = choose|t: i32| #[trigger] done.contains(t)
                        && (ancestor_marks(pm, root, t).contains(x) || in_subtree(g, t, x, 0, max_depth));
                    if t != target {
                        assert(done_before.contains(t));
                    }
                }
            }
        }
    }
    proof {
        let vs = visible_set(pm, g, root, pid_filter, user_filter, max_depth);
        assert forall|x: i32| #[trigger] visible@.contains(x) <==> vs.contains(x) by {
            if visible@.contains(x) {
                let t = choose|t: i32| #[trigger] done.contains(t)
                    && (ancestor_marks(pm, root, t).contains(x) || in_subtree(g, t, x, 0, max_depth));
                assert(matching@.contains(t));
                assert(selected(pm, g, root, pid_filter, user_filter, t));
            }
            if vs.contains(x) {
                let t = choose|t: i32| #[trigger]
                    selected(pm, g, root, pid_filter, user_filter, t) && (ancestor_marks(pm, root, t).contains(x)
                        || in_subtree(g, t, x, 0, max_depth));
                assert(matching@.contains(t));
                assert(done.contains(t));
            }
        }
        assert(visible@ =~= vs);
    }
    visible
}

/// Law: when a filter is given, every process reachable from the root that
/// matches it (the root itself included) is visible, and so is its whole
/// subtree down to the depth limit, counted from it.
pub proof fn lemma_matching_visible(
    pm: Map<i32, Process>,
    g: Map<i32, Seq<i32>>,
    root: i32,
    pid_filter: Option<i32>,
    user_filter: Option<u32>,
    max_depth: Option<usize>,
    t: i32,
)
    requires
        pid_filter is Some || user_filter is Some,
        in_subtree(g, root, t, 0, None),
        matches_filter(pm, t, pid_filter, user_filter),
    ensures
        visible_set(pm, g, root, pid_filter, user_filter, max_depth).contains(t),
        forall|x: i32|
            in_subtree(g, t, x, 0, max_depth) ==> #[trigger] visible_set(
                pm,
                g,
                root,
                pid_filter,
                user_filter,
                max_depth,
            ).contains(x),
{
    assert(selected(pm, g, root, pid_filter, user_filter, t));
    assert(path(g, t, t, 0) && within(0int + 0nat, max_depth));
    assert(in_subtree(g, t, t, 0, max_depth));
}

/// Law: when the root itself matches the filter, its whole subtree down to
/// the depth limit is visible.
pub proof fn lemma_matching_root_shows_subtree(
    pm: Map<i32, Process>,
    g: Map<i32, Seq<i32>>,
    root: i32,
    pid_filter: Option<i32>,
    user_filter: Option<u32>,
    max_depth: Option<usize>,
)
    requires
        matches_filter(pm, root, pid_filter, user_filter),
    ensures
        subtree(g, root, 0, max_depth).subset_of(visible_set(pm, g, root, pid_filter, user_filter, max_depth)),
{
    if pid_filter is Some || user_filter is Some {
        assert(path(g, root, root, 0) && within(0int + 0nat, None));
        lemma_matching_visible(pm, g, root, pid_filter, user_filter, max_depth, root);
    }
}

/// Law: when a filter is given and a matching process other than the root
/// lies below the root, every process on its chain of parents up to the
/// root (both ends included) is visible.
pub proof fn lemma_branch_visible(
    pm: Map<i32, Process>,
    g: Map<i32, Seq<i32>>,
    root: i32,
    pid_filter: Option<i32>,
    user_filter: Option<u32>,
    max_depth: Option<usize>,
    t: i32,
    n: nat,
    i: nat,
)
    requires
        pid_filter is Some || user_filter is Some,
        in_subtree(g, root, t, 0, None),
        matches_filter(pm, t, pid_filter, user_filter),
        t != root,
        reaches_in(pm, root, t, n),
        i <= n,
    ensures
        visible_set(pm, g, root, pid_filter, user_filter, max_depth).contains(up_n(pm, t, i)),
{
    assert(selected(pm, g, root, pid_filter, user_filter, t));
    let m = choose|m: nat| reaches_in(pm, root, t, m);
    lemma_walk_unique(pm, root, t, n, m);
    assert(ancestor_marks(pm, root, t).contains(up_n(pm, t, i)));
}

/// Law: a depth limit only hides pids: whatever is visible under a limit
/// stays visible under a larger limit, and without any.
pub proof fn lemma_depth_monotone(
    pm: Map<i32, Process>,
    g: Map<i32, Seq<i32>>,
    root: i32,
    pid_filter: Option<i32>,
    user_filter: Option<u32>,
    d: usize,
    e: usize,
)
    requires
        d <= e,
    ensures
        visible_set(pm, g, root, pid_filter, user_filter, Some(d)).subset_of(
            visible_set(pm, g, root, pid_filter, user_filter, Some(e)),
        ),
        visible_set(pm, g, root, pid_filter, user_filter, Some(e)).subset_of(
            visible_set(pm, g, root, pid_filter, user_filter, None),
        ),
{
    assert forall|a: i32, x: i32| #[trigger] in_subtree(g, a, x, 0, Some(d)) implies in_subtree(g, a, x, 0, Some(e)) by {
        let k = choose|k: nat| #[trigger] path(g, a, x, k) && within(0int + k, Some(d));
        assert(path(g, a, x, k) && within(0int + k, Some(e)));
    }
    assert forall|a: i32, x: i32| #[trigger] in_subtree(g, a, x, 0, Some(e)) implies in_subtree(g, a, x, 0, None) by {
        let k = choose|k: nat| #[trigger] path(g, a, x, k) && within(0int + k, Some(e));
        assert(path(g, a, x, k) && within(0int + k, None));
    }
    let vd = visible_set(pm, g, root, pid_filter, user_filter, Some(d));
    let ve = visible_set(pm, g, root, pid_filter, user_filter, Some(e));
    let vn = visible_set(pm, g, root, pid_filter, user_filter, None);
    if !(pid_filter is None && user_filter is None) {
        assert forall|x: i32| vd.contains(x) implies ve.contains(x) by {
            let t = choose|t: i32| #[trigger]
                selected(pm, g, root, pid_filter, user_filter, t) && (ancestor_marks(pm, root, t).contains(x)
                    || in_subtree(g, t, x, 0, Some(d)));
            assert(in_subtree(g, t, x, 0, Some(d)) ==> in_subtree(g, t, x, 0, Some(e)));
        }
        assert forall|x: i32| ve.contains(x) implies vn.contains(x) by {
            let t = choose|t: i32| #[trigger]
                selected(pm, g, root, pid_filter, user_filter, t) && (ancestor_marks(pm, root, t).contains(x)
                    || in_subtree(g, t, x, 0, Some(e)));
            assert(in_subtree(g, t, x, 0, Some(e)) ==> in_subtree(g, t, x, 0, None));
        }
    }
}

/// Whether every downward path from `root` is shorter than `limit` edges
/// (so the subtree below `root` is acyclic).
pub fn tree_depth_ends(children: &HashMap<i32, Vec<i32>>, root: i32, limit: usize) -> (r: bool)
    ensures
        r == finite_below(kid_graph(children@), root, limit as nat),
        r ==> acyclic_below(kid_graph(children@), root),
{
    let ghost sg = kid_graph(children@);
    let kids = |a: i32| -> (v: Vec<i32>)
        ensures
            v@ == graph_kids(kid_graph(children@), a),
        {
            match children.get(&a) {
                Some(list) => vstd::slice::slice_to_vec(list.as_slice()),
                None => Vec::new(),
            }
        };
    depth_ends(kids, Ghost(sg), root, limit)
}

/// The upward walk from `t` towards `top` ends within `limit` steps.
pub open spec fn climb_ends_within(pm: Map<i32, Process>, top: i32, t: i32, limit: nat) -> bool {
    t == top || exists|n: nat| n <= limit && (reaches_in(pm, top, t, n) || stops_in(pm, top, t, n))
}

/// Whether the upward walk from `t` towards `top` ends within `limit` steps.
fn climb_ends_by(proc_map: &HashMap<i32, Process>, top: i32, t: i32, limit: usize) -> (r: bool)
    ensures
        r == climb_ends_within(proc_map@, top, t, limit as nat),
        r ==> climb_ends(proc_map@, top, t),
{
    let ghost pm = proc_map@;
    if t == top {
        return true;
    }
    let mut cursor = t;
    let mut i: usize = 0;
    loop
        invariant
            pm == proc_map@,
            t != top,
            i <= limit,
            cursor == up_n(pm, t, i as nat),
            climbs_for(pm, top, t, i as nat),
            i >= 1 ==> cursor != top,
        decreases limit - i,
    {
        let stop = match proc_map.get(&cursor) {
            Some(p) => p.ppid == cursor,
            None => true,
        };
        if stop {
            assert(stops_in(pm, top, t, i as nat));
            return true;
        }
        if i == limit {
            proof {
                assert(climbs(pm, up_n(pm, t, i as nat)));
                assert forall|n: nat| n <= limit implies !(reaches_in(pm, top, t, n) || stops_in(pm, top, t, n)) by {
                    if n < limit {
                        assert(climbs(pm, up_n(pm, t, n)));
                    }
                }
            }
            return false;
        }
        let p = proc_map.get(&cursor).unwrap();
        let ghost prev = i as nat;
        cursor = p.ppid;
        i = i + 1;
        proof {
            assert(up_n(pm, t, i as nat) == cursor);
            assert forall|k: nat| k < i implies climbs(pm, #[trigger] up_n(pm, t, k)) by {
                if k < prev {
                    assert(climbs_for(pm, top, t, prev));
                }
            }
            assert forall|k: nat| 1 <= k < i implies #[trigger] up_n(pm, t, k) != top by {
                if k < prev {
                    assert(climbs_for(pm, top, t, prev));
                }
            }
        }
        if cursor == top {
            assert(reaches_in(pm, top, t, i as nat));
            return true;
        }
    }
}

/// The walks of `visible_pids` end within `limit` levels or steps: without
/// filters, either a depth limit is given or every path down from `root` is
/// shorter than `limit`; with filters, every path down from `root` is
/// shorter than `limit` and the upward walk from each selected process ends
/// within `limit` steps.
pub open spec fn filter_ends_within(
    pm: Map<i32, Process>,
    g: Map<i32, Seq<i32>>,
    root: i32,
    pid_filter: Option<i32>,
    user_filter: Option<u32>,
    max_depth: Option<usize>,
    limit: nat,
) -> bool {
    if pid_filter is None && user_filter is None {
        max_depth is Some || finite_below(g, root, limit)
    } else {
        &&& finite_below(g, root, limit)
        &&& forall|t: i32| #[trigger]
            selected(pm, g, root, pid_filter, user_filter, t) ==> climb_ends_within(pm, root, t, limit)
    }
}

/// Whether the walks of `visible_pids` on these arguments end within `limit`
/// levels or steps; when they do, `visible_pids` may be called.
pub fn filter_ends(
    proc_map: &HashMap<i32, Process>,
    children: &HashMap<i32, Vec<i32>>,
    root: i32,
    pid_filter: Option<i32>,
    user_filter: Option<u32>,
    max_depth: Option<usize>,
    limit: usize,
) -> (r: bool)
    ensures
        r == filter_ends_within(proc_map@, kid_graph(children@), root, pid_filter, user_filter, max_depth, limit as nat),
        r ==> filter_terminates(proc_map@, kid_graph(children@), root, pid_filter, user_filter, max_depth),
{
    let ghost pm = proc_map@;
    let ghost g = kid_graph(children@);
    let finite = tree_depth_ends(children, root, limit);
    if pid_filter.is_none() && user_filter.is_none() {
        return max_depth.is_some() || finite;
    }
    if !finite {
        return false;
    }
    let ghost fuel = choose|n: nat| finite_below(g, root, n);
    let mut reachable: HashSet<i32> = HashSet::new();
    collect_subtree(children, root, 0, None, &mut reachable, Ghost(fuel));
    let ghost mut seen: Seq<i32> = Seq::empty();
    for pid_ref in it: reachable.iter()
        invariant
            pm == proc_map@,
            reachable@ == subtree(g, root, 0, None),
            g == kid_graph(children@),
            !(pid_filter is None && user_filter is None),
            it.seq().unref().to_set() == reachable@,
            forall|x: i32| #[trigger] reachable@.contains(x) ==> seen.contains(x) || exists|j: int|
                it.index() <= j < it.seq().len() && *it.seq()[j] == x,
            forall|x: i32| #[trigger] seen.contains(x) && matches_filter(pm, x, pid_filter, user_filter)
                ==> climb_ends_within(pm, root, x, limit as nat) && climb_ends(pm, root, x),
    {
        let pid = *pid_ref;
        let matched = match proc_map.get(&pid) {
            Some(p) => {
                (match pid_filter {
                    None => true,
                    Some(f) => f == pid,
                }) && (match user_filter {
                    None => true,
                    Some(f) => f == p.uid,
                })
            },
            None => false,
        };
        if matched && !climb_ends_by(proc_map, root, pid, limit) {
            proof {
                assert(matched == matches_filter(pm, pid, pid_filter, user_filter));
                assert(it.seq().unref()[it.index()] == pid);
                assert(it.seq().unref().to_set().contains(pid));
                assert(reachable@.contains(pid));
                assert(selected(pm, g, root, pid_filter, user_filter, pid));
            }
            return false;
        }
        proof {
            assert(matched == matches_filter(pm, pid, pid_filter, user_filter));
            assert(it.seq().unref()[it.index()] == pid);
            seen = seen.push(pid);
        }
    }
    assert forall|t: i32| #[trigger] selected(pm, g, root, pid_filter, user_filter, t) implies climb_ends_within(pm, root, t, limit as nat)
        && climb_ends(pm, root, t) by {
        assert(reachable@.contains(t));
    }
    true
}

/// Every child listed under `x` in `g` is a known process whose parent is
/// `x`, as in the maps that `build_tree` makes from processes with distinct
/// pids.
pub open spec fn parents_agree(pm: Map<i32, Process>, g: Map<i32, Seq<i32>>) -> bool {
    forall|x: i32, j: int|
        g.contains_key(x) && 0 <= j < g[x].len() ==> pm.contains_key(#[trigger] g[x][j]) && pm[g[x][j]].ppid == x
}

/// When the parents agree with the children lists, every pid that the
/// upward walk from a pid below `root` passes before it finds `root` is
/// itself below `root`.
proof fn lemma_walk_stays_below(
    pm: Map<i32, Process>,
    g: Map<i32, Seq<i32>>,
    root: i32,
    t: i32,
    n: nat,
    i: nat,
)
    requires
        parents_agree(pm, g),
        t != root,
        in_subtree(g, root, t, 0, None),
        climbs_for(pm, root, t, n),
        i <= n,
    ensures
        in_subtree(g, root, up_n(pm, t, i), 0, None),
    decreases i,
{
    if i > 0 {
        lemma_walk_stays_below(pm, g, root, t, n, (i - 1) as nat);
        let z = up_n(pm, t, (i - 1) as nat);
        let m = choose|m: nat| #[trigger] path(g, root, z, m) && within(0int + m, None);
        if i - 1 >= 1 {
            assert(up_n(pm, t, (i - 1) as nat) != root);
        }
        assert(z != root);
        assert(m > 0);
        lemma_path_step_back(g, root, z, (m - 1) as nat);
        let w = choose|w: i32| #[trigger] path(g, root, w, (m - 1) as nat) && graph_kids(g, w).contains(z);
        assert(g.contains_key(w));
        let j = choose|j: int| 0 <= j < g[w].len() && g[w][j] == z;
        assert(pm[g[w][j]].ppid == w);
        assert(up_n(pm, t, i) == w);
        assert(path(g, root, w, (m - 1) as nat) && within(0int + (m - 1) as nat, None));
    }
}

/// Law: when the parents agree with the children lists, a filter only hides
/// pids: whatever is visible with filters and a depth limit is visible
/// without any filter or limit.
pub proof fn lemma_filtered_within_unfiltered(
    pm: Map<i32, Process>,
    g: Map<i32, Seq<i32>>,
    root: i32,
    pid_filter: Option<i32>,
    user_filter: Option<u32>,
    max_depth: Option<usize>,
)
    requires
        parents_agree(pm, g),
    ensures
        visible_set(pm, g, root, pid_filter, user_filter, max_depth).subset_of(
            visible_set(pm, g, root, None, None, None),
        ),
{
    let v = visible_set(pm, g, root, pid_filter, user_filter, max_depth);
    let all = visible_set(pm, g, root, None, None, None);
    assert forall|x: i32| v.contains(x) implies all.contains(x) by {
        if pid_filter is None && user_filter is None {
            let k = choose|k: nat| #[trigger] path(g, root, x, k) && within(0int + k, max_depth);
            assert(path(g, root, x, k) && within(0int + k, None));
        } else {
            let t = choose|t: i32| #[trigger]
                selected(pm, g, root, pid_filter, user_filter, t) && (ancestor_marks(pm, root, t).contains(x)
                    || in_subtree(g, t, x, 0, max_depth));
            let k = choose|k: nat| #[trigger] path(g, root, t, k) && within(0int + k, None);
            if in_subtree(g, t, x, 0, max_depth) {
                let m = choose|m: nat| #[trigger] path(g, t, x, m) && within(0int + m, max_depth);
                lemma_path_concat(g, root, t, x, k, m);
                assert(path(g, root, x, k + m) && within(0int + (k + m), None));
            } else if t == root {
                assert(x == root);
                assert(path(g, root, x, 0) && within(0int + 0nat, None));
            } else {
                let n = choose|n: nat| reaches_in(pm, root, t, n);
                let i = choose|i: nat| i <= n && #[trigger] up_n(pm, t, i) == x;
                lemma_walk_stays_below(pm, g, root, t, n, i);
            }
        }
    }
}

} // verus!
