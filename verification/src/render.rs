//! Drawing the selected part of the process tree as indented text.

use std::collections::HashMap;
use std::collections::HashSet;
use vstd::prelude::*;

use crate::bounded::depth_ends;
use crate::bounded::graph_kids;
use crate::filter::finite_below;
use crate::filter::lemma_child_finite;
use crate::filter::path;
use crate::process::Process;
use crate::text::int_text;
use crate::text::is_digit;
use crate::text::lemma_nat_text_digits;
use crate::text::nat_text;
use crate::text::push_i32;

verus! {

broadcast use vstd::std_specs::hash::group_hash_axioms;

/// How to draw the tree.
pub struct RenderOptions {
    /// Use ASCII connectors instead of box-drawing characters.
    pub ascii: bool,
    /// Maximum line width in characters; `None` means no truncation.
    pub width: Option<usize>,
}

/// The connector drawn for one ancestor level of a line: on the line's own
/// level a branch (more siblings follow) or a last-branch connector; above
/// it a vertical bar (more siblings follow at that level) or blank space.
pub open spec fn piece_text(ascii: bool, own_level: bool, has_more: bool) -> Seq<char> {
    if ascii {
        if own_level {
            if has_more { "|-- "@ } else { "\\-- "@ }
        } else {
            if has_more { "|   "@ } else { "    "@ }
        }
    } else {
        if own_level {
            if has_more { "\u{251c}\u{2500} "@ } else { "\u{2514}\u{2500} "@ }
        } else {
            if has_more { "\u{2502}  "@ } else { "   "@ }
        }
    }
}

/// The connectors for the first `n` levels of `stack`, where `stack[i]`
/// tells whether more siblings follow at level `i`.
pub open spec fn prefix_upto(stack: Seq<bool>, ascii: bool, n: nat) -> Seq<char>
    decreases n,
{
    if n == 0 || n > stack.len() {
        Seq::empty()
    } else {
        prefix_upto(stack, ascii, (n - 1) as nat) + piece_text(
            ascii,
            n - 1 == stack.len() - 1,
            stack[n - 1],
        )
    }
}

/// The whole prefix drawn before a line at the level given by `stack`.
pub open spec fn prefix_text(stack: Seq<bool>, ascii: bool) -> Seq<char> {
    prefix_upto(stack, ascii, stack.len())
}

/// `s` cut to its first `max_cols` characters.
pub open spec fn clip_to(s: Seq<char>, max_cols: int) -> Seq<char> {
    if s.len() <= max_cols { s } else { s.take(max_cols) }
}

/// `s` cut to the line width, if there is one (a width of 0 means none).
pub open spec fn clip_line(s: Seq<char>, width: Option<usize>) -> Seq<char> {
    match width {
        Some(w) => if w > 0 { clip_to(s, w as int) } else { s },
        None => s,
    }
}

/// The line drawn for process `p` at the level given by `stack`: prefix,
/// pid, a space and the name, cut to the width, then a newline.
pub open spec fn line_text(p: Process, stack: Seq<bool>, ascii: bool, width: Option<usize>) -> Seq<char> {
    clip_line(prefix_text(stack, ascii) + int_text(p.pid as int) + seq![' '] + p.name@, width) + seq!['\n']
}

/// The elements of `s` that lie in `vis`, in order.
pub open spec fn keep_in(s: Seq<i32>, vis: Set<i32>) -> Seq<i32>
    decreases s.len(),
{
    if s.len() == 0 {
        Seq::empty()
    } else if vis.contains(s.last()) {
        keep_in(s.drop_last(), vis).push(s.last())
    } else {
        keep_in(s.drop_last(), vis)
    }
}

/// The visible children of `pid`, in the order of the children map.
pub open spec fn visible_kids(g: Map<i32, Vec<i32>>, vis: Set<i32>, pid: i32) -> Seq<i32> {
    if g.contains_key(pid) { keep_in(g[pid]@, vis) } else { Seq::empty() }
}

/// The text drawn for the subtree of `pid` at the level given by `stack`,
/// looking at most `fuel` levels deep.
pub open spec fn render_tree(
    pm: Map<i32, Process>,
    g: Map<i32, Vec<i32>>,
    vis: Set<i32>,
    pid: i32,
    stack: Seq<bool>,
    ascii: bool,
    width: Option<usize>,
    fuel: nat,
) -> Seq<char>
    decreases fuel, 0int,
{
    if fuel == 0 || !pm.contains_key(pid) {
        Seq::empty()
    } else {
        line_text(pm[pid], stack, ascii, width) + render_kids(
            pm,
            g,
            vis,
            visible_kids(g, vis, pid),
            stack,
            ascii,
            width,
            (fuel - 1) as nat,
            0,
        )
    }
}

/// The text drawn for the subtrees of `kids[i..]`, siblings under a node at
/// the level given by `stack`.
pub open spec fn render_kids(
    pm: Map<i32, Process>,
    g: Map<i32, Vec<i32>>,
    vis: Set<i32>,
    kids: Seq<i32>,
    stack: Seq<bool>,
    ascii: bool,
    width: Option<usize>,
    fuel: nat,
    i: int,
) -> Seq<char>
    decreases fuel, kids.len() - i,
{
    if i < 0 || i >= kids.len() {
        Seq::empty()
    } else {
        render_tree(pm, g, vis, kids[i], stack.push(i < kids.len() - 1), ascii, width, fuel)
            + render_kids(pm, g, vis, kids, stack, ascii, width, fuel, i + 1)
    }
}

/// The graph along which the drawing descends: each known process with its
/// visible children.
pub open spec fn draw_graph(pm: Map<i32, Process>, g: Map<i32, Vec<i32>>, vis: Set<i32>) -> Map<i32, Seq<i32>> {
    Map::new(|a: i32| pm.contains_key(a), |a: i32| visible_kids(g, vis, a))
}

/// Every path along which the drawing descends from `a` has fewer than `n`
/// steps.
pub open spec fn draw_finite(
    pm: Map<i32, Process>,
    g: Map<i32, Vec<i32>>,
    vis: Set<i32>,
    a: i32,
    n: nat,
) -> bool {
    finite_below(draw_graph(pm, g, vis), a, n)
}

/// The drawing from `root` comes to an end: the visible part below it has
/// no cycle.
pub open spec fn draw_ends(pm: Map<i32, Process>, g: Map<i32, Vec<i32>>, vis: Set<i32>, root: i32) -> bool {
    exists|n: nat| draw_finite(pm, g, vis, root, n)
}

/// The whole drawing from `root`.
pub open spec fn rendered(
    pm: Map<i32, Process>,
    g: Map<i32, Vec<i32>>,
    vis: Set<i32>,
    root: i32,
    ascii: bool,
    width: Option<usize>,
) -> Seq<char> {
    render_tree(pm, g, vis, root, Seq::empty(), ascii, width, choose|n: nat| draw_finite(pm, g, vis, root, n))
}

/// Below a visible child the bound is one less.
proof fn lemma_draw_child(pm: Map<i32, Process>, g: Map<i32, Vec<i32>>, vis: Set<i32>, a: i32, j: int, n: nat)
    requires
        draw_finite(pm, g, vis, a, n),
        pm.contains_key(a),
        0 <= j < visible_kids(g, vis, a).len(),
    ensures
        n >= 1,
        draw_finite(pm, g, vis, visible_kids(g, vis, a)[j], (n - 1) as nat),
{
    let dg = draw_graph(pm, g, vis);
    assert(dg.contains_key(a) && dg[a] == visible_kids(g, vis, a));
    lemma_child_finite(dg, a, j, n);
}

/// The connector for one level.
fn piece_str(ascii: bool, own_level: bool, has_more: bool) -> (r: &'static str)
    ensures
        r@ == piece_text(ascii, own_level, has_more),
{
    if ascii {
        if own_level {
            if has_more { "|-- " } else { "\\-- " }
        } else {
            if has_more { "|   " } else { "    " }
        }
    } else {
        if own_level {
            if has_more { "\u{251c}\u{2500} " } else { "\u{2514}\u{2500} " }
        } else {
            if has_more { "\u{2502}  " } else { "   " }
        }
    }
}

/// Truncates a string to at most `max_cols` characters (one column per
/// character).
fn truncate_to_width(s: &str, max_cols: usize) -> (r: String)
    ensures
        r@ == clip_to(s@, max_cols as int),
{
    if s.unicode_len() <= max_cols {
        return s.to_string();
    }
    s.substring_char(0, max_cols).to_string()
}

/// The visible children of `pid`, in the order of the children map.
pub(crate) fn visible_children(children: &HashMap<i32, Vec<i32>>, visible: &HashSet<i32>, pid: i32) -> (r: Vec<i32>)
    ensures
        r@ == visible_kids(children@, visible@, pid),
{
    let ghost vis = visible@;
    let mut out: Vec<i32> = Vec::new();
    if let Some(list) = children.get(&pid) {
        let n = list.len();
        let mut k: usize = 0;
        while k < n
            invariant
                n == list@.len(),
                k <= n,
                vis == visible@,
                out@ == keep_in(list@.take(k as int), vis),
            decreases n - k,
        {
            let c = list[k];
            assert(list@.take(k + 1).drop_last() =~= list@.take(k as int));
            if visible.contains(&c) {
                out.push(c);
            }
            k = k + 1;
        }
        assert(list@.take(n as int) =~= list@);
    }
    out
}

/// Draws the subtree of `pid` into `out`: its line, then the subtrees of its
/// visible children, each one level deeper.
fn render_node(
    proc_map: &HashMap<i32, Process>,
    children: &HashMap<i32, Vec<i32>>,
    visible: &HashSet<i32>,
    pid: i32,
    prefix_stack: &[bool],
    opts: &RenderOptions,
    out: &mut String,
    Ghost(fuel): Ghost<nat>,
)
    requires
        draw_finite(proc_map@, children@, visible@, pid, fuel),
    ensures
        final(out)@ == old(out)@ + render_tree(
            proc_map@,
            children@,
            visible@,
            pid,
            prefix_stack@,
            opts.ascii,
            opts.width,
            fuel,
        ),
    decreases fuel,
{
    let ghost pm = proc_map@;
    let ghost g = children@;
    let ghost vis = visible@;
    let ghost stack = prefix_stack@;
    let p = match proc_map.get(&pid) {
        Some(p) => p,
        None => {
            assert(old(out)@ + render_tree(pm, g, vis, pid, stack, opts.ascii, opts.width, fuel) =~= old(out)@);
            return;
        },
    };
    assert(path(draw_graph(pm, g, vis), pid, pid, 0));

    // The prefix from the ancestor levels.
    let mut line = String::new();
    let depth = prefix_stack.len();
    let mut i: usize = 0;
    while i < depth
        invariant
            depth == stack.len(),
            stack == prefix_stack@,
            i <= depth,
            line@ == prefix_upto(stack, opts.ascii, i as nat),
        decreases depth - i,
    {
        line.append(piece_str(opts.ascii, i == depth - 1, prefix_stack[i]));
        i = i + 1;
    }
    push_i32(&mut line, p.pid);
    proof { reveal_strlit(" "); }
    line.append(" ");
    line.append(p.name.as_str());
    let line = match opts.width {
        Some(w) => if w > 0 { truncate_to_width(line.as_str(), w) } else { line },
        None => line,
    };
    out.append(line.as_str());
    proof { reveal_strlit("\n"); }
    out.append("\n");
    assert(out@ =~= old(out)@ + line_text(pm[pid], stack, opts.ascii, opts.width));

    // The visible children, in order.
    let ghost kids = visible_kids(g, vis, pid);
    let visible_children = visible_children(children, visible, pid);

    let ghost base = out@;
    let n = visible_children.len();
    let mut i: usize = 0;
    while i < n
        invariant
            n == kids.len(),
            visible_children@ == kids,
            kids == visible_kids(g, vis, pid),
            pm == proc_map@,
            g == children@,
            vis == visible@,
            stack == prefix_stack@,
            pm.contains_key(pid),
            draw_finite(pm, g, vis, pid, fuel),
            fuel >= 1,
            i <= n,
            out@ + render_kids(pm, g, vis, kids, stack, opts.ascii, opts.width, (fuel - 1) as nat, i as int)
                == base + render_kids(pm, g, vis, kids, stack, opts.ascii, opts.width, (fuel - 1) as nat, 0),
        decreases n - i,
    {
        let child = visible_children[i];
        let has_more = i < n - 1;
        let mut next_stack = vstd::slice::slice_to_vec(prefix_stack);
        next_stack.push(has_more);
        proof {
            lemma_draw_child(pm, g, vis, pid, i as int, fuel);
        }
        let ghost before = out@;
        render_node(proc_map, children, visible, child, next_stack.as_slice(), opts, out, Ghost((fuel - 1) as nat));
        proof {
            let f = (fuel - 1) as nat;
            assert(render_kids(pm, g, vis, kids, stack, opts.ascii, opts.width, f, i as int)
                == render_tree(pm, g, vis, child, stack.push(has_more), opts.ascii, opts.width, f)
                    + render_kids(pm, g, vis, kids, stack, opts.ascii, opts.width, f, i + 1));
            assert(out@ + render_kids(pm, g, vis, kids, stack, opts.ascii, opts.width, f, i + 1)
                =~= before + render_kids(pm, g, vis, kids, stack, opts.ascii, opts.width, f, i as int));
        }
        i = i + 1;
    }
    assert(out@ =~= base + render_kids(pm, g, vis, kids, stack, opts.ascii, opts.width, (fuel - 1) as nat, 0));
    assert(out@ =~= old(out)@ + render_tree(pm, g, vis, pid, stack, opts.ascii, opts.width, fuel));
}

/// Draws the visible part of the tree below `root`, one line per process in
/// depth-first order, children in the order of the children map.
pub fn render(
    proc_map: &HashMap<i32, Process>,
    children: &HashMap<i32, Vec<i32>>,
    visible: &HashSet<i32>,
    root: i32,
    opts: &RenderOptions,
) -> (out: String)
    requires
        draw_ends(proc_map@, children@, visible@, root),
    ensures
        out@ == rendered(proc_map@, children@, visible@, root, opts.ascii, opts.width),
{
    let ghost fuel = choose|n: nat| draw_finite(proc_map@, children@, visible@, root, n);
    let mut out = String::new();
    let empty: Vec<bool> = Vec::new();
    render_node(proc_map, children, visible, root, empty.as_slice(), opts, &mut out, Ghost(fuel));
    assert(out@ =~= rendered(proc_map@, children@, visible@, root, opts.ascii, opts.width));
    out
}

/// The column at which the character at position `i` of `s` stands: the
/// number of characters since the last newline before it.
pub open spec fn column(s: Seq<char>, i: int) -> int
    decreases i,
{
    if i <= 0 || i > s.len() {
        0
    } else if s[i - 1] == '\n' {
        0
    } else {
        column(s, i - 1) + 1
    }
}

/// Every character of `s` other than a newline stands in one of the first
/// `w` columns: no line of `s` is longer than `w` characters.
pub open spec fn lines_fit(s: Seq<char>, w: int) -> bool {
    forall|i: int| 0 <= i < s.len() && s[i] != '\n' ==> #[trigger] column(s, i) < w
}

/// `s` is empty or ends with a newline.
pub open spec fn ends_line(s: Seq<char>) -> bool {
    s.len() == 0 || s[s.len() - 1] == '\n'
}

proof fn lemma_column_le(s: Seq<char>, i: int)
    requires
        0 <= i <= s.len(),
    ensures
        column(s, i) <= i,
    decreases i,
{
    if i > 0 {
        lemma_column_le(s, i - 1);
    }
}

proof fn lemma_column_prefix(a: Seq<char>, b: Seq<char>, i: int)
    requires
        0 <= i <= a.len(),
    ensures
        column(a + b, i) == column(a, i),
    decreases i,
{
    if i > 0 {
        lemma_column_prefix(a, b, i - 1);
        assert((a + b)[i - 1] == a[i - 1]);
    }
}

proof fn lemma_column_after(a: Seq<char>, b: Seq<char>, i: int)
    requires
        ends_line(a),
        0 <= i <= b.len(),
    ensures
        column(a + b, a.len() + i) == column(b, i),
    decreases i,
{
    if i > 0 {
        lemma_column_after(a, b, i - 1);
        assert((a + b)[a.len() + i - 1] == b[i - 1]);
    } else if a.len() > 0 {
        assert((a + b)[a.len() - 1] == a[a.len() - 1]);
    }
}

/// Text made of whole lines that fit, followed by more such text, is made of
/// whole lines that fit.
proof fn lemma_fit_concat(a: Seq<char>, b: Seq<char>, w: int)
    requires
        lines_fit(a, w),
        lines_fit(b, w),
        ends_line(a),
        ends_line(b),
    ensures
        lines_fit(a + b, w),
        ends_line(a + b),
{
    let s = a + b;
    assert forall|i: int| 0 <= i < s.len() && s[i] != '\n' implies #[trigger] column(s, i) < w by {
        if i < a.len() {
            lemma_column_prefix(a, b, i);
            assert(s[i] == a[i]);
        } else {
            lemma_column_after(a, b, i - a.len());
            assert(s[i] == b[i - a.len()]);
        }
    }
    if b.len() > 0 {
        assert(s[s.len() - 1] == b[b.len() - 1]);
    } else {
        assert(s =~= a);
    }
}

/// A drawn line fits in the width.
proof fn lemma_line_fits(p: Process, stack: Seq<bool>, ascii: bool, w: usize)
    requires
        w > 0,
    ensures
        lines_fit(line_text(p, stack, ascii, Some(w)), w as int),
        ends_line(line_text(p, stack, ascii, Some(w))),
{
    let body = clip_line(prefix_text(stack, ascii) + int_text(p.pid as int) + seq![' '] + p.name@, Some(w));
    let s = body + seq!['\n'];
    assert(body.len() <= w);
    assert forall|i: int| 0 <= i < s.len() && s[i] != '\n' implies #[trigger] column(s, i) < w by {
        lemma_column_le(s, i);
    }
}

/// The drawing of a subtree is made of whole lines that fit in the width.
proof fn lemma_tree_fits(
    pm: Map<i32, Process>,
    g: Map<i32, Vec<i32>>,
    vis: Set<i32>,
    pid: i32,
    stack: Seq<bool>,
    ascii: bool,
    w: usize,
    fuel: nat,
)
    requires
        w > 0,
    ensures
        lines_fit(render_tree(pm, g, vis, pid, stack, ascii, Some(w), fuel), w as int),
        ends_line(render_tree(pm, g, vis, pid, stack, ascii, Some(w), fuel)),
    decreases fuel, 0int,
{
    if fuel > 0 && pm.contains_key(pid) {
        lemma_line_fits(pm[pid], stack, ascii, w);
        lemma_kids_fit(pm, g, vis, visible_kids(g, vis, pid), stack, ascii, w, (fuel - 1) as nat, 0);
        lemma_fit_concat(
            line_text(pm[pid], stack, ascii, Some(w)),
            render_kids(pm, g, vis, visible_kids(g, vis, pid), stack, ascii, Some(w), (fuel - 1) as nat, 0),
            w as int,
        );
    }
}

/// The drawing of a run of sibling subtrees is made of whole lines that fit.
proof fn lemma_kids_fit(
    pm: Map<i32, Process>,
    g: Map<i32, Vec<i32>>,
    vis: Set<i32>,
    kids: Seq<i32>,
    stack: Seq<bool>,
    ascii: bool,
    w: usize,
    fuel: nat,
    i: int,
)
    requires
        w > 0,
    ensures
        lines_fit(render_kids(pm, g, vis, kids, stack, ascii, Some(w), fuel, i), w as int),
        ends_line(render_kids(pm, g, vis, kids, stack, ascii, Some(w), fuel, i)),
    decreases fuel, kids.len() - i,
{
    if 0 <= i < kids.len() {
        lemma_tree_fits(pm, g, vis, kids[i], stack.push(i < kids.len() - 1), ascii, w, fuel);
        lemma_kids_fit(pm, g, vis, kids, stack, ascii, w, fuel, i + 1);
        lemma_fit_concat(
            render_tree(pm, g, vis, kids[i], stack.push(i < kids.len() - 1), ascii, Some(w), fuel),
            render_kids(pm, g, vis, kids, stack, ascii, Some(w), fuel, i + 1),
            w as int,
        );
    }
}

/// Law: with a positive line width, no line of the drawing is longer than
/// the width.
pub proof fn lemma_rendered_lines_fit(
    pm: Map<i32, Process>,
    g: Map<i32, Vec<i32>>,
    vis: Set<i32>,
    root: i32,
    ascii: bool,
    w: usize,
)
    requires
        w > 0,
    ensures
        lines_fit(rendered(pm, g, vis, root, ascii, Some(w)), w as int),
{
    lemma_tree_fits(pm, g, vis, root, Seq::empty(), ascii, w, choose|n: nat| draw_finite(pm, g, vis, root, n));
}

/// Law: the drawing of a known root begins with the root's own line, which
/// has no connector before the pid.
pub proof fn lemma_root_line_first(
    pm: Map<i32, Process>,
    g: Map<i32, Vec<i32>>,
    vis: Set<i32>,
    root: i32,
    ascii: bool,
    width: Option<usize>,
)
    requires
        draw_ends(pm, g, vis, root),
        pm.contains_key(root),
    ensures
        ({
            let line = clip_line(int_text(pm[root].pid as int) + seq![' '] + pm[root].name@, width) + seq!['\n'];
            rendered(pm, g, vis, root, ascii, width).take(line.len() as int) == line
        }),
{
    let n = choose|n: nat| draw_finite(pm, g, vis, root, n);
    assert(path(draw_graph(pm, g, vis), root, root, 0));
    assert(n >= 1);
    let empty = Seq::<bool>::empty();
    assert(prefix_text(empty, ascii) =~= Seq::<char>::empty());
    assert(prefix_text(empty, ascii) + int_text(pm[root].pid as int) + seq![' '] + pm[root].name@
        =~= int_text(pm[root].pid as int) + seq![' '] + pm[root].name@);
    let line = line_text(pm[root], empty, ascii, width);
    let rest = render_kids(pm, g, vis, visible_kids(g, vis, root), empty, ascii, width, (n - 1) as nat, 0);
    assert(rendered(pm, g, vis, root, ascii, width) == line + rest);
    assert(line == clip_line(int_text(pm[root].pid as int) + seq![' '] + pm[root].name@, width) + seq!['\n']);
    assert((line + rest).take(line.len() as int) =~= line);
}

/// Whether every path down the visible part of the tree from `root` is
/// shorter than `limit` steps; when it is, `render` may be called.
pub fn drawing_ends(
    proc_map: &HashMap<i32, Process>,
    children: &HashMap<i32, Vec<i32>>,
    visible: &HashSet<i32>,
    root: i32,
    limit: usize,
) -> (r: bool)
    ensures
        r == draw_finite(proc_map@, children@, visible@, root, limit as nat),
        r ==> draw_ends(proc_map@, children@, visible@, root),
{
    let ghost dg = draw_graph(proc_map@, children@, visible@);
    let kids = |a: i32| -> (v: Vec<i32>)
        ensures
            v@ == graph_kids(draw_graph(proc_map@, children@, visible@), a),
        {
            if proc_map.contains_key(&a) {
                visible_children(children, visible, a)
            } else {
                Vec::new()
            }
        };
    let r = depth_ends(kids, Ghost(dg), root, limit);
    proof {
        if r {
            let n = choose|n: nat| finite_below(dg, root, n);
            assert(draw_finite(proc_map@, children@, visible@, root, n));
        }
    }
    r
}

/// `s` holds no newline.
pub open spec fn no_newline(s: Seq<char>) -> bool {
    forall|i: int| 0 <= i < s.len() ==> s[i] != '\n'
}

/// `s` with every line cut to its first `w` characters: a character is kept
/// when it is a newline or stands in one of the first `w` columns.
pub open spec fn cut_lines(s: Seq<char>, w: int) -> Seq<char>
    decreases s.len(),
{
    if s.len() == 0 {
        Seq::empty()
    } else {
        let i = s.len() - 1;
        cut_lines(s.drop_last(), w) + if s[i] == '\n' || column(s, i) < w {
            seq![s[i]]
        } else {
            Seq::empty()
        }
    }
}

proof fn lemma_ends_concat(a: Seq<char>, b: Seq<char>)
    requires
        ends_line(a),
        ends_line(b),
    ensures
        ends_line(a + b),
{
    if b.len() > 0 {
        assert((a + b)[a.len() + b.len() - 1] == b[b.len() - 1]);
    } else {
        assert(a + b =~= a);
    }
}

proof fn lemma_no_newline_concat(a: Seq<char>, b: Seq<char>)
    requires
        no_newline(a),
        no_newline(b),
    ensures
        no_newline(a + b),
{
    assert forall|i: int| 0 <= i < (a + b).len() implies (a + b)[i] != '\n' by {
        if i < a.len() {
            assert((a + b)[i] == a[i]);
        } else {
            assert((a + b)[i] == b[i - a.len()]);
        }
    }
}

/// Cutting the lines of text made of whole lines, followed by more text, cuts
/// each part on its own.
proof fn lemma_cut_concat(a: Seq<char>, b: Seq<char>, w: int)
    requires
        ends_line(a),
    ensures
        cut_lines(a + b, w) == cut_lines(a, w) + cut_lines(b, w),
    decreases b.len(),
{
    if b.len() == 0 {
        assert(a + b =~= a);
        assert(cut_lines(a, w) + cut_lines(b, w) =~= cut_lines(a, w));
    } else {
        let s = a + b;
        let i = s.len() - 1;
        assert(s.drop_last() =~= a + b.drop_last());
        lemma_cut_concat(a, b.drop_last(), w);
        assert(s[i] == b[b.len() - 1]);
        lemma_column_after(a, b, b.len() - 1);
    }
}

/// In text without a newline, each character stands in the column of its
/// position.
proof fn lemma_column_no_newline(x: Seq<char>, i: int)
    requires
        no_newline(x),
        0 <= i <= x.len(),
    ensures
        column(x, i) == i,
    decreases i,
{
    if i > 0 {
        lemma_column_no_newline(x, i - 1);
    }
}

/// Cutting text without a newline keeps its first `w` characters.
proof fn lemma_cut_plain(x: Seq<char>, w: int)
    requires
        no_newline(x),
        w >= 0,
    ensures
        cut_lines(x, w) == clip_to(x, w),
    decreases x.len(),
{
    if x.len() > 0 {
        let i = x.len() - 1;
        let y = x.drop_last();
        assert(no_newline(y));
        lemma_cut_plain(y, w);
        lemma_column_no_newline(x, i);
        if x.len() <= w {
            assert(cut_lines(x, w) =~= x);
        } else if y.len() <= w {
            assert(cut_lines(x, w) =~= x.take(w));
        } else {
            assert(cut_lines(x, w) =~= x.take(w));
        }
    } else {
        assert(cut_lines(x, w) =~= clip_to(x, w));
    }
}

/// A line cut to the width is the uncut line with its characters beyond the
/// width dropped.
proof fn lemma_cut_line(x: Seq<char>, w: int)
    requires
        no_newline(x),
        w >= 0,
    ensures
        cut_lines(x + seq!['\n'], w) == clip_to(x, w) + seq!['\n'],
{
    let s = x + seq!['\n'];
    assert(s.drop_last() =~= x);
    assert(s[s.len() - 1] == '\n');
    lemma_cut_plain(x, w);
}

/// The connectors hold no newline.
proof fn lemma_prefix_no_newline(stack: Seq<bool>, ascii: bool, n: nat)
    ensures
        no_newline(prefix_upto(stack, ascii, n)),
    decreases n,
{
    if n > 0 && n <= stack.len() {
        lemma_prefix_no_newline(stack, ascii, (n - 1) as nat);
        reveal_strlit("|-- ");
        reveal_strlit("\\-- ");
        reveal_strlit("|   ");
        reveal_strlit("    ");
        reveal_strlit("\u{251c}\u{2500} ");
        reveal_strlit("\u{2514}\u{2500} ");
        reveal_strlit("\u{2502}  ");
        reveal_strlit("   ");
        let piece = piece_text(ascii, n - 1 == stack.len() - 1, stack[n - 1]);
        assert(no_newline(piece));
        lemma_no_newline_concat(prefix_upto(stack, ascii, (n - 1) as nat), piece);
    }
}

/// The body of a drawn line (everything before its newline) holds no
/// newline when the name holds none.
proof fn lemma_line_body_no_newline(p: Process, stack: Seq<bool>, ascii: bool)
    requires
        no_newline(p.name@),
    ensures
        no_newline(prefix_text(stack, ascii) + int_text(p.pid as int) + seq![' '] + p.name@),
{
    lemma_prefix_no_newline(stack, ascii, stack.len());
    let v = p.pid as int;
    if v < 0 {
        lemma_nat_text_digits((-v) as nat);
        let t = nat_text((-v) as nat);
        assert forall|i: int| 0 <= i < t.len() implies t[i] != '\n' by {
            assert(is_digit(t[i]));
        }
        lemma_no_newline_concat(seq!['-'], t);
    } else {
        lemma_nat_text_digits(v as nat);
        let t = nat_text(v as nat);
        assert forall|i: int| 0 <= i < t.len() implies t[i] != '\n' by {
            assert(is_digit(t[i]));
        }
    }
    lemma_no_newline_concat(prefix_text(stack, ascii), int_text(v));
    lemma_no_newline_concat(prefix_text(stack, ascii) + int_text(v), seq![' ']);
    lemma_no_newline_concat(prefix_text(stack, ascii) + int_text(v) + seq![' '], p.name@);
}

/// The drawing of a subtree with a positive width is its drawing without a
/// width, lines cut; and that drawing is made of whole lines.
proof fn lemma_tree_cut(
    pm: Map<i32, Process>,
    g: Map<i32, Vec<i32>>,
    vis: Set<i32>,
    pid: i32,
    stack: Seq<bool>,
    ascii: bool,
    w: usize,
    fuel: nat,
)
    requires
        w > 0,
        forall|k: i32| #[trigger] pm.contains_key(k) ==> no_newline(pm[k].name@),
    ensures
        ends_line(render_tree(pm, g, vis, pid, stack, ascii, None, fuel)),
        render_tree(pm, g, vis, pid, stack, ascii, Some(w), fuel) == cut_lines(
            render_tree(pm, g, vis, pid, stack, ascii, None, fuel),
            w as int,
        ),
    decreases fuel, 0int,
{
    if fuel > 0 && pm.contains_key(pid) {
        let p = pm[pid];
        let kids = visible_kids(g, vis, pid);
        let f = (fuel - 1) as nat;
        lemma_kids_cut(pm, g, vis, kids, stack, ascii, w, f, 0);
        lemma_line_body_no_newline(p, stack, ascii);
        let body = prefix_text(stack, ascii) + int_text(p.pid as int) + seq![' '] + p.name@;
        lemma_cut_line(body, w as int);
        let plain = line_text(p, stack, ascii, None);
        assert(plain == body + seq!['\n']);
        assert(ends_line(plain));
        lemma_cut_concat(plain, render_kids(pm, g, vis, kids, stack, ascii, None, f, 0), w as int);
        lemma_ends_concat(plain, render_kids(pm, g, vis, kids, stack, ascii, None, f, 0));
    } else {
        assert(cut_lines(Seq::<char>::empty(), w as int) =~= Seq::<char>::empty());
    }
}

/// The same for a run of sibling subtrees.
proof fn lemma_kids_cut(
    pm: Map<i32, Process>,
    g: Map<i32, Vec<i32>>,
    vis: Set<i32>,
    kids: Seq<i32>,
    stack: Seq<bool>,
    ascii: bool,
    w: usize,
    fuel: nat,
    i: int,
)
    requires
        w > 0,
        forall|k: i32| #[trigger] pm.contains_key(k) ==> no_newline(pm[k].name@),
    ensures
        ends_line(render_kids(pm, g, vis, kids, stack, ascii, None, fuel, i)),
        render_kids(pm, g, vis, kids, stack, ascii, Some(w), fuel, i) == cut_lines(
            render_kids(pm, g, vis, kids, stack, ascii, None, fuel, i),
            w as int,
        ),
    decreases fuel, kids.len() - i,
{
    if 0 <= i < kids.len() {
        let st = stack.push(i < kids.len() - 1);
        lemma_tree_cut(pm, g, vis, kids[i], st, ascii, w, fuel);
        lemma_kids_cut(pm, g, vis, kids, stack, ascii, w, fuel, i + 1);
        let a = render_tree(pm, g, vis, kids[i], st, ascii, None, fuel);
        let b = render_kids(pm, g, vis, kids, stack, ascii, None, fuel, i + 1);
        lemma_cut_concat(a, b, w as int);
        lemma_ends_concat(a, b);
    } else {
        assert(cut_lines(Seq::<char>::empty(), w as int) =~= Seq::<char>::empty());
    }
}

/// Law: when no name holds a newline, the drawing with a positive width is
/// the drawing without a width with every line cut to its first `w`
/// characters.
pub proof fn lemma_width_cuts_lines(
    pm: Map<i32, Process>,
    g: Map<i32, Vec<i32>>,
    vis: Set<i32>,
    root: i32,
    ascii: bool,
    w: usize,
)
    requires
        w > 0,
        forall|k: i32| #[trigger] pm.contains_key(k) ==> no_newline(pm[k].name@),
    ensures
        rendered(pm, g, vis, root, ascii, Some(w)) == cut_lines(rendered(pm, g, vis, root, ascii, None), w as int),
{
    lemma_tree_cut(pm, g, vis, root, Seq::empty(), ascii, w, choose|n: nat| draw_finite(pm, g, vis, root, n));
}

/// The drawing of `kids[i..]` is the drawing of each of them in turn, the
/// `j`-th one level deeper with a flag telling whether a later sibling
/// follows it.
proof fn lemma_kids_in_turn(
    pm: Map<i32, Process>,
    g: Map<i32, Vec<i32>>,
    vis: Set<i32>,
    kids: Seq<i32>,
    stack: Seq<bool>,
    ascii: bool,
    width: Option<usize>,
    fuel: nat,
    i: int,
)
    requires
        0 <= i <= kids.len(),
    ensures
        render_kids(pm, g, vis, kids, stack, ascii, width, fuel, i) == Seq::new(
            (kids.len() - i) as nat,
            |j: int| render_tree(pm, g, vis, kids[i + j], stack.push(i + j + 1 < kids.len()), ascii, width, fuel),
        ).flatten(),
    decreases kids.len() - i,
{
    let parts = Seq::new(
        (kids.len() - i) as nat,
        |j: int| render_tree(pm, g, vis, kids[i + j], stack.push(i + j + 1 < kids.len()), ascii, width, fuel),
    );
    if i == kids.len() {
        assert(parts =~= Seq::<Seq<char>>::empty());
    } else {
        lemma_kids_in_turn(pm, g, vis, kids, stack, ascii, width, fuel, i + 1);
        let rest = Seq::new(
            (kids.len() - (i + 1)) as nat,
            |j: int| render_tree(pm, g, vis, kids[i + 1 + j], stack.push(i + 1 + j + 1 < kids.len()), ascii, width, fuel),
        );
        assert(parts.drop_first() =~= rest);
        assert(parts.first() == render_tree(pm, g, vis, kids[i], stack.push(i + 1 < kids.len()), ascii, width, fuel));
    }
}

/// Law: the drawing of a known process is its own line followed by the
/// drawings of its visible children, in the order of the children map, each
/// one level deeper; a child's level is marked as having more siblings
/// exactly when a later visible sibling follows it, so only the last visible
/// child is drawn with the last-branch connector.
pub proof fn lemma_render_children(
    pm: Map<i32, Process>,
    g: Map<i32, Vec<i32>>,
    vis: Set<i32>,
    pid: i32,
    stack: Seq<bool>,
    ascii: bool,
    width: Option<usize>,
    fuel: nat,
)
    requires
        fuel > 0,
        pm.contains_key(pid),
    ensures
        ({
            let kids = visible_kids(g, vis, pid);
            render_tree(pm, g, vis, pid, stack, ascii, width, fuel) == line_text(pm[pid], stack, ascii, width)
                + Seq::new(
                kids.len(),
                |j: int| render_tree(pm, g, vis, kids[j], stack.push(j + 1 < kids.len()), ascii, width, (fuel - 1) as nat),
            ).flatten()
        }),
{
    let kids = visible_kids(g, vis, pid);
    let f = (fuel - 1) as nat;
    lemma_kids_in_turn(pm, g, vis, kids, stack, ascii, width, f, 0);
    assert(Seq::new(
        (kids.len() - 0) as nat,
        |j: int| render_tree(pm, g, vis, kids[0 + j], stack.push(0 + j + 1 < kids.len()), ascii, width, f),
    ) =~= Seq::new(kids.len(), |j: int| render_tree(pm, g, vis, kids[j], stack.push(j + 1 < kids.len()), ascii, width, f)));
}

/// The first `n` levels of a stack drawn above its last level.
proof fn lemma_prefix_levels(stack: Seq<bool>, b: bool, ascii: bool, n: nat)
    requires
        n <= stack.len(),
    ensures
        prefix_upto(stack.push(b), ascii, n) == Seq::new(n, |k: int| piece_text(ascii, false, stack[k])).flatten(),
    decreases n,
{
    let pieces = Seq::new(n, |k: int| piece_text(ascii, false, stack[k]));
    if n == 0 {
        assert(pieces =~= Seq::<Seq<char>>::empty());
    } else {
        lemma_prefix_levels(stack, b, ascii, (n - 1) as nat);
        let before = Seq::new((n - 1) as nat, |k: int| piece_text(ascii, false, stack[k]));
        assert(pieces =~= before.push(piece_text(ascii, false, stack[n - 1])));
        before.lemma_flatten_push(piece_text(ascii, false, stack[n - 1]));
    }
}

/// Law: the prefix of a line at the level given by `stack.push(b)` draws,
/// for each ancestor level `k`, the connector for "more siblings follow"
/// exactly when `stack[k]` says so (a vertical bar, otherwise blank), and
/// then on the line's own level the branch connector when `b` says more
/// siblings follow, and the last-branch connector otherwise.
pub proof fn lemma_prefix_shape(stack: Seq<bool>, b: bool, ascii: bool)
    ensures
        prefix_text(stack.push(b), ascii) == Seq::new(
            stack.len(),
            |k: int| piece_text(ascii, false, stack[k]),
        ).flatten() + piece_text(ascii, true, b),
{
    let s = stack.push(b);
    lemma_prefix_levels(stack, b, ascii, stack.len());
    assert(s[s.len() - 1] == b);
    assert(prefix_text(s, ascii) == prefix_upto(s, ascii, stack.len()) + piece_text(ascii, true, b));
}

/// Law: the shapes of the connectors. All four of one style have the same
/// width (three characters in UTF-8, four in ASCII); an ancestor level with
/// no more siblings is blank; one with more siblings is a vertical bar
/// followed by blanks; on a line's own level the branch connector (more
/// siblings follow) and the last-branch connector differ in their first
/// character and end with a blank.
pub proof fn lemma_connector_shapes(ascii: bool)
    ensures
        piece_text(ascii, false, false).len() == (if ascii { 4int } else { 3int }),
        piece_text(ascii, false, true).len() == piece_text(ascii, false, false).len(),
        piece_text(ascii, true, true).len() == piece_text(ascii, false, false).len(),
        piece_text(ascii, true, false).len() == piece_text(ascii, false, false).len(),
        forall|k: int| 0 <= k < piece_text(ascii, false, false).len() ==> #[trigger] piece_text(ascii, false, false)[k] == ' ',
        piece_text(ascii, false, true)[0] == (if ascii { '|' } else { '\u{2502}' }),
        forall|k: int| 1 <= k < piece_text(ascii, false, true).len() ==> #[trigger] piece_text(ascii, false, true)[k] == ' ',
        piece_text(ascii, true, true)[0] == (if ascii { '|' } else { '\u{251c}' }),
        piece_text(ascii, true, false)[0] == (if ascii { '\\' } else { '\u{2514}' }),
        piece_text(ascii, true, true)[piece_text(ascii, true, true).len() - 1] == ' ',
        piece_text(ascii, true, false)[piece_text(ascii, true, false).len() - 1] == ' ',
{
    reveal_strlit("|-- ");
    reveal_strlit("\\-- ");
    reveal_strlit("|   ");
    reveal_strlit("    ");
    reveal_strlit("\u{251c}\u{2500} ");
    reveal_strlit("\u{2514}\u{2500} ");
    reveal_strlit("\u{2502}  ");
    reveal_strlit("   ");
}

proof fn lemma_tree_width_zero(
    pm: Map<i32, Process>,
    g: Map<i32, Vec<i32>>,
    vis: Set<i32>,
    pid: i32,
    stack: Seq<bool>,
    ascii: bool,
    fuel: nat,
)
    ensures
        render_tree(pm, g, vis, pid, stack, ascii, Some(0), fuel) == render_tree(pm, g, vis, pid, stack, ascii, None, fuel),
    decreases fuel, 0int,
{
    if fuel > 0 && pm.contains_key(pid) {
        lemma_kids_width_zero(pm, g, vis, visible_kids(g, vis, pid), stack, ascii, (fuel - 1) as nat, 0);
    }
}

proof fn lemma_kids_width_zero(
    pm: Map<i32, Process>,
    g: Map<i32, Vec<i32>>,
    vis: Set<i32>,
    kids: Seq<i32>,
    stack: Seq<bool>,
    ascii: bool,
    fuel: nat,
    i: int,
)
    ensures
        render_kids(pm, g, vis, kids, stack, ascii, Some(0), fuel, i) == render_kids(pm, g, vis, kids, stack, ascii, None, fuel, i),
    decreases fuel, kids.len() - i,
{
    if 0 <= i < kids.len() {
        lemma_tree_width_zero(pm, g, vis, kids[i], stack.push(i < kids.len() - 1), ascii, fuel);
        lemma_kids_width_zero(pm, g, vis, kids, stack, ascii, fuel, i + 1);
    }
}

/// Law: a width of 0 draws the same as no width.
pub proof fn lemma_width_zero_is_none(
    pm: Map<i32, Process>,
    g: Map<i32, Vec<i32>>,
    vis: Set<i32>,
    root: i32,
    ascii: bool,
)
    ensures
        rendered(pm, g, vis, root, ascii, Some(0)) == rendered(pm, g, vis, root, ascii, None),
{
    lemma_tree_width_zero(pm, g, vis, root, Seq::empty(), ascii, choose|n: nat| draw_finite(pm, g, vis, root, n));
}

} // verus!
