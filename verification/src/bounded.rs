//! Whether a walk down a graph of pids comes to an end.

use std::collections::HashSet;
use vstd::prelude::*;

use crate::filter::acyclic_below;
use crate::filter::finite_below;
use crate::filter::path;

verus! {

broadcast use {vstd::std_specs::hash::group_hash_axioms, vstd::seq_lib::lemma_seq_contains_after_push};

/// The children of `a` in the graph `sg` (none when `a` has no entry).
pub open spec fn graph_kids(sg: Map<i32, Seq<i32>>, a: i32) -> Seq<i32> {
    if sg.contains_key(a) { sg[a] } else { Seq::empty() }
}

/// A path of `k + 1` edges is a path of `k` edges followed by one more.
pub(crate) proof fn lemma_path_step_back(sg: Map<i32, Seq<i32>>, a: i32, x: i32, k: nat)
    ensures
        path(sg, a, x, k + 1) <==> exists|y: i32| #[trigger] path(sg, a, y, k) && graph_kids(sg, y).contains(x),
    decreases k,
{
    if k == 0 {
        if path(sg, a, x, 1) {
            let j = choose|j: int| 0 <= j < sg[a].len() && path(sg, #[trigger] sg[a][j], x, 0);
            assert(graph_kids(sg, a)[j] == x);
            assert(path(sg, a, a, 0));
        }
        if exists|y: i32| #[trigger] path(sg, a, y, 0) && graph_kids(sg, y).contains(x) {
            let y = choose|y: i32| #[trigger] path(sg, a, y, 0) && graph_kids(sg, y).contains(x);
            let j = choose|j: int| 0 <= j < graph_kids(sg, y).len() && graph_kids(sg, y)[j] == x;
            assert(path(sg, sg[a][j], x, 0));
        }
    } else {
        if path(sg, a, x, k + 1) {
            let j = choose|j: int| 0 <= j < sg[a].len() && path(sg, #[trigger] sg[a][j], x, k);
            let c = sg[a][j];
            lemma_path_step_back(sg, c, x, (k - 1) as nat);
            let y = choose|y: i32| #[trigger] path(sg, c, y, (k - 1) as nat) && graph_kids(sg, y).contains(x);
            assert(path(sg, a, y, k));
        }
        if exists|y: i32| #[trigger] path(sg, a, y, k) && graph_kids(sg, y).contains(x) {
            let y = choose|y: i32| #[trigger] path(sg, a, y, k) && graph_kids(sg, y).contains(x);
            let j = choose|j: int| 0 <= j < sg[a].len() && path(sg, #[trigger] sg[a][j], y, (k - 1) as nat);
            let c = sg[a][j];
            lemma_path_step_back(sg, c, x, (k - 1) as nat);
            assert(path(sg, c, y, (k - 1) as nat) && graph_kids(sg, y).contains(x));
            assert(path(sg, c, x, k));
        }
    }
}

/// Every path of `m` edges has a prefix of `k <= m` edges.
proof fn lemma_path_prefix(sg: Map<i32, Seq<i32>>, a: i32, x: i32, m: nat, k: nat)
    requires
        path(sg, a, x, m),
        k <= m,
    ensures
        exists|y: i32| #[trigger] path(sg, a, y, k),
    decreases m,
{
    if k == 0 {
        assert(path(sg, a, a, 0));
    } else {
        let j = choose|j: int| 0 <= j < sg[a].len() && path(sg, #[trigger] sg[a][j], x, (m - 1) as nat);
        let c = sg[a][j];
        lemma_path_prefix(sg, c, x, (m - 1) as nat, (k - 1) as nat);
        let y = choose|y: i32| #[trigger] path(sg, c, y, (k - 1) as nat);
        assert(path(sg, a, y, k));
    }
}

/// Whether every path down the graph from `root` is shorter than `limit`
/// edges. The graph is given by `kids`, which returns the children of a pid.
pub(crate) fn depth_ends<F: Fn(i32) -> Vec<i32>>(
    kids: F,
    Ghost(sg): Ghost<Map<i32, Seq<i32>>>,
    root: i32,
    limit: usize,
) -> (r: bool)
    requires
        forall|a: i32| call_requires(kids, (a,)),
        forall|a: i32, v: Vec<i32>| #[trigger] call_ensures(kids, (a,), v) ==> v@ == graph_kids(sg, a),
    ensures
        r == finite_below(sg, root, limit as nat),
        r ==> acyclic_below(sg, root),
{
    let mut frontier: Vec<i32> = Vec::new();
    frontier.push(root);
    assert forall|x: i32| frontier@.contains(x) <==> path(sg, root, x, 0) by {
        if frontier@.contains(x) {
            let j = choose|j: int| 0 <= j < frontier@.len() && frontier@[j] == x;
        }
        if path(sg, root, x, 0) {
            assert(frontier@[0] == x);
        }
    }
    let mut k: usize = 0;
    loop
        invariant
            k <= limit,
            forall|a: i32| call_requires(kids, (a,)),
            forall|a: i32, v: Vec<i32>| #[trigger] call_ensures(kids, (a,), v) ==> v@ == graph_kids(sg, a),
            forall|x: i32| frontier@.contains(x) <==> #[trigger] path(sg, root, x, k as nat),
        decreases limit - k,
    {
        if frontier.len() == 0 {
            proof {
                assert forall|x: i32, m: nat| m >= k implies !#[trigger] path(sg, root, x, m) by {
                    if path(sg, root, x, m) {
                        lemma_path_prefix(sg, root, x, m, k as nat);
                        let y = choose|y: i32| #[trigger] path(sg, root, y, k as nat);
                        assert(frontier@.contains(y));
                    }
                }
                assert(finite_below(sg, root, k as nat));
                assert(finite_below(sg, root, limit as nat));
            }
            return true;
        }
        if k == limit {
            proof {
                assert(frontier@.contains(frontier@[0]));
                assert(path(sg, root, frontier@[0], limit as nat));
            }
            return false;
        }
        let mut seen: HashSet<i32> = HashSet::new();
        let mut next: Vec<i32> = Vec::new();
        let n = frontier.len();
        let mut i: usize = 0;
        while i < n
            invariant
                n == frontier@.len(),
                i <= n,
                forall|a: i32| call_requires(kids, (a,)),
                forall|a: i32, v: Vec<i32>| #[trigger] call_ensures(kids, (a,), v) ==> v@ == graph_kids(sg, a),
                forall|x: i32| #[trigger] next@.contains(x) <==> seen@.contains(x),
                forall|x: i32| #[trigger] next@.contains(x) <==> exists|i2: int|
                    0 <= i2 < i && #[trigger] graph_kids(sg, frontier@[i2]).contains(x),
            decreases n - i,
        {
            let y = frontier[i];
            let ks = kids(y);
            assert(ks@ == graph_kids(sg, y));
            let ghost before = next@;
            let m = ks.len();
            let mut j: usize = 0;
            while j < m
                invariant
                    m == ks@.len(),
                    j <= m,
                    ks@ == graph_kids(sg, y),
                    y == frontier@[i as int],
                    i < n,
                    n == frontier@.len(),
                    forall|x: i32| #[trigger] next@.contains(x) <==> seen@.contains(x),
                    forall|x: i32| #[trigger] next@.contains(x) <==> (before.contains(x) || exists|j2: int|
                        0 <= j2 < j && ks@[j2] == x),
                    forall|x: i32| #[trigger] before.contains(x) <==> exists|i2: int|
                        0 <= i2 < i && #[trigger] graph_kids(sg, frontier@[i2]).contains(x),
                decreases m - j,
            {
                let c = ks[j];
                if seen.insert(c) {
                    next.push(c);
                }
                assert(next@.contains(c));
                j = j + 1;
            }
            proof {
                assert forall|x: i32| #[trigger] next@.contains(x) <==> exists|i2: int|
                    0 <= i2 < i + 1 && #[trigger] graph_kids(sg, frontier@[i2]).contains(x) by {
                    if next@.contains(x) && !before.contains(x) {
                        let q = choose|q: int| 0 <= q < m && ks@[q] == x;
                        assert(graph_kids(sg, frontier@[i as int]).contains(x));
                    }
                    if exists|i2: int| 0 <= i2 < i + 1 && #[trigger] graph_kids(sg, frontier@[i2]).contains(x) {
                        let i2 = choose|i2: int| 0 <= i2 < i + 1 && #[trigger] graph_kids(sg, frontier@[i2]).contains(x);
                        if i2 == i {
                            let q = choose|q: int| 0 <= q < ks@.len() && ks@[q] == x;
                        }
                    }
                }
            }
            i = i + 1;
        }
        let ghost k1: nat = (k + 1) as nat;
        proof {
            assert forall|x: i32| next@.contains(x) <==> #[trigger] path(sg, root, x, k1) by {
                lemma_path_step_back(sg, root, x, k as nat);
                if next@.contains(x) {
                    let i2 = choose|i2: int| 0 <= i2 < n && #[trigger] graph_kids(sg, frontier@[i2]).contains(x);
                    let y = frontier@[i2];
                    assert(frontier@.contains(y));
                    assert(path(sg, root, y, k as nat) && graph_kids(sg, y).contains(x));
                }
                if path(sg, root, x, (k + 1) as nat) {
                    let y = choose|y: i32| #[trigger] path(sg, root, y, k as nat) && graph_kids(sg, y).contains(x);
                    assert(frontier@.contains(y));
                    let i2 = choose|i2: int| 0 <= i2 < frontier@.len() && frontier@[i2] == y;
                    assert(graph_kids(sg, frontier@[i2]).contains(x));
                }
            }
        }
        frontier = next;
        k = k + 1;
        assert(k as nat == k1);
    }
}

} // verus!
