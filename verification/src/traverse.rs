//! Depth-first traversal of a graph whose nodes are numbered from zero.
//!
//! The graph is given as adjacency rows: row `v` lists the dependencies of
//! node `v`. The traversal keeps an explicit stack and marks each node as
//! unvisited, in progress or resolved.

use crate::graph::{closes_with, has_edge, is_simple_cycle, is_walk, linearizes_except};
use vstd::prelude::*;
use vstd::set_lib::{lemma_int_range, set_int_range};

verus! {

/// What the traversal knows of a node.
#[derive(Clone, Copy, Debug)]
pub enum Mark {
    /// Not met yet.
    Unvisited,
    /// Met, and some of its dependencies are still being resolved.
    InProgress,
    /// Written to the output, after all of its dependencies.
    Resolved,
}

/// What a traversal gives back.
pub struct Traversal {
    /// The nodes in the order in which they were resolved.
    pub order: Vec<usize>,
    /// The cycles that were met, each from a node back to itself.
    pub loops: Vec<Vec<usize>>,
}

/// Every dependency that a row names is the number of a row.
pub open spec fn in_bounds(adj: Seq<Vec<usize>>) -> bool {
    forall|v: int, j: int|
        0 <= v < adj.len() && 0 <= j < adj[v]@.len() ==> (#[trigger] adj[v]@[j]) < adj.len()
}

/// The graph that the adjacency rows stand for.
pub open spec fn adjacency(adj: Seq<Vec<usize>>) -> Map<usize, Set<usize>> {
    Map::new(|v: usize| v < adj.len(), |v: usize| adj[v as int]@.to_set())
}

/// The edges with which the given cycles end.
pub open spec fn closing_edges(loops: Seq<Vec<usize>>) -> Set<(usize, usize)> {
    Set::new(
        |e: (usize, usize)|
            exists|k: int| 0 <= k < loops.len() && closes_with(#[trigger] loops[k]@, e.0, e.1),
    )
}

/// The state of a traversal between two steps.
pub struct Progress {
    pub marks: Seq<Mark>,
    pub order: Seq<usize>,
    pub path: Seq<usize>,
    pub cursor: Seq<usize>,
    pub loops: Seq<Vec<usize>>,
}

/// `dep` stands in `order` before position `i`.
pub open spec fn placed_before(order: Seq<usize>, i: int, dep: usize) -> bool {
    exists|m: int| 0 <= m < i && #[trigger] order[m] == dep
}

/// The edge from `node` to `dep` needs no more work: `dep` is resolved, or
/// the edge closed a cycle that was recorded.
pub open spec fn settled(s: Progress, node: usize, dep: usize) -> bool {
    s.marks[dep as int] is Resolved || closing_edges(s.loops).contains((node, dep))
}

/// What holds of the state between any two steps of the traversal.
pub open spec fn consistent(adj: Seq<Vec<usize>>, s: Progress) -> bool {
    let n = adj.len();
    &&& s.marks.len() == n
    &&& s.cursor.len() == s.path.len()
    &&& s.order.no_duplicates()
    &&& s.path.no_duplicates()
    &&& forall|i: int| 0 <= i < s.order.len() ==> (#[trigger] s.order[i]) < n
    &&& forall|i: int| 0 <= i < s.path.len() ==> (#[trigger] s.path[i]) < n
    &&& forall|v: usize|
        #![trigger s.marks[v as int]]
        #![trigger s.order.contains(v)]
        v < n ==> (s.marks[v as int] is Resolved <==> s.order.contains(v))
    &&& forall|v: usize|
        #![trigger s.marks[v as int]]
        #![trigger s.path.contains(v)]
        v < n ==> (s.marks[v as int] is InProgress <==> s.path.contains(v))
    &&& forall|k: int|
        0 <= k < s.path.len() ==> (#[trigger] s.cursor[k]) <= adj[s.path[k] as int]@.len()
    &&& forall|k: int|
        0 <= k < s.path.len() - 1 ==> (#[trigger] s.cursor[k]) >= 1 && adj[s.path[k] as int]@[s.cursor[k]
            - 1] == s.path[k + 1]
    &&& forall|k: int, j: int|
        0 <= k < s.path.len() && 0 <= j < s.cursor[k] && !(k < s.path.len() - 1 && j
            == s.cursor[k] - 1) ==> settled(s, s.path[k], #[trigger] adj[s.path[k] as int]@[j])
    &&& forall|i: int, j: int|
        0 <= i < s.order.len() && 0 <= j < adj[s.order[i] as int]@.len() ==> placed_before(
            s.order,
            i,
            #[trigger] adj[s.order[i] as int]@[j],
        ) || closing_edges(s.loops).contains((s.order[i], adj[s.order[i] as int]@[j]))
    &&& forall|k: int|
        0 <= k < s.loops.len() ==> is_simple_cycle(adjacency(adj), #[trigger] s.loops[k]@)
}

/// The state before the first step.
pub open spec fn initial(n: nat) -> Progress {
    Progress {
        marks: Seq::new(n, |i: int| Mark::Unvisited),
        order: Seq::empty(),
        path: Seq::empty(),
        cursor: Seq::empty(),
        loops: Seq::empty(),
    }
}

/// The state after node `v` was put on the empty stack.
pub open spec fn started(s: Progress, v: usize) -> Progress {
    Progress {
        marks: s.marks.update(v as int, Mark::InProgress),
        path: s.path.push(v),
        cursor: s.cursor.push(0),
        ..s
    }
}

/// The state after the top node passed over its next dependency.
pub open spec fn skipped(s: Progress) -> Progress {
    let top = s.path.len() - 1;
    Progress { cursor: s.cursor.update(top, (s.cursor[top] + 1) as usize), ..s }
}

/// The state after the top node went down into its next dependency `d`.
pub open spec fn descended(s: Progress, d: usize) -> Progress {
    started(skipped(s), d)
}

/// The state after the top node recorded that its next dependency closes
/// the cycle `c`.
pub open spec fn recorded(s: Progress, c: Vec<usize>) -> Progress {
    Progress { loops: s.loops.push(c), ..skipped(s) }
}

/// The state after the top node was resolved.
pub open spec fn finished(s: Progress) -> Progress {
    let v = s.path.last();
    Progress {
        marks: s.marks.update(v as int, Mark::Resolved),
        order: s.order.push(v),
        path: s.path.drop_last(),
        cursor: s.cursor.drop_last(),
        ..s
    }
}

proof fn lemma_closing_edges_grow(loops: Seq<Vec<usize>>, c: Vec<usize>)
    ensures
        forall|e: (usize, usize)|
            closing_edges(loops).contains(e) ==> #[trigger] closing_edges(loops.push(c)).contains(
                e,
            ),
        forall|a: usize, b: usize|
            closes_with(c@, a, b) ==> closing_edges(loops.push(c)).contains((a, b)),
{
    let more = loops.push(c);
    assert forall|e: (usize, usize)| closing_edges(loops).contains(e) implies #[trigger] closing_edges(
        more,
    ).contains(e) by {
        let k = choose|k: int| 0 <= k < loops.len() && closes_with(#[trigger] loops[k]@, e.0, e.1);
        assert(more[k] == loops[k]);
    }
    assert forall|a: usize, b: usize| closes_with(c@, a, b) implies closing_edges(more).contains(
        (a, b),
    ) by {
        assert(more[loops.len() as int] == c);
    }
}

proof fn lemma_initial(adj: Seq<Vec<usize>>)
    ensures
        consistent(adj, initial(adj.len())),
{
    let s = initial(adj.len());
    assert forall|v: usize| v < adj.len() implies (s.marks[v as int] is Resolved
        <==> s.order.contains(v)) by {}
}

proof fn lemma_started(adj: Seq<Vec<usize>>, s: Progress, v: usize)
    requires
        consistent(adj, s),
        s.path.len() == 0,
        v < adj.len(),
        s.marks[v as int] is Unvisited,
    ensures
        consistent(adj, started(s, v)),
{
    let t = started(s, v);
    assert forall|w: usize| w < adj.len() implies (t.marks[w as int] is InProgress
        <==> t.path.contains(w)) by {
        if w == v {
            assert(t.path[0] == v);
        } else {
            assert(!s.path.contains(w));
        }
    }
    assert forall|w: usize| w < adj.len() implies (t.marks[w as int] is Resolved
        <==> t.order.contains(w)) by {}
}

proof fn lemma_skipped(adj: Seq<Vec<usize>>, s: Progress)
    requires
        consistent(adj, s),
        s.path.len() > 0,
        s.cursor.last() < adj[s.path.last() as int]@.len(),
        s.cursor.last() < usize::MAX,
        s.marks[adj[s.path.last() as int]@[s.cursor.last() as int] as int] is Resolved,
    ensures
        consistent(adj, skipped(s)),
{
    let t = skipped(s);
    let top = s.path.len() - 1;
    assert forall|k: int, j: int|
        0 <= k < t.path.len() && 0 <= j < t.cursor[k] && !(k < t.path.len() - 1 && j
            == t.cursor[k] - 1) implies settled(
        t,
        t.path[k],
        #[trigger] adj[t.path[k] as int]@[j],
    ) by {
        if k == top && j == s.cursor[top] {
        } else {
            assert(settled(s, s.path[k], adj[s.path[k] as int]@[j]));
        }
    }
}

proof fn lemma_recorded(adj: Seq<Vec<usize>>, s: Progress, c: Vec<usize>, p: int)
    requires
        consistent(adj, s),
        in_bounds(adj),
        s.path.len() > 0,
        s.cursor.last() < adj[s.path.last() as int]@.len(),
        s.cursor.last() < usize::MAX,
        0 <= p < s.path.len(),
        s.path[p] == adj[s.path.last() as int]@[s.cursor.last() as int],
        c@ == s.path.subrange(p, s.path.len() as int).push(s.path[p]),
    ensures
        consistent(adj, recorded(s, c)),
{
    let t = recorded(s, c);
    let top = s.path.len() - 1;
    let v = s.path[top];
    let d = s.path[p];
    let g = adjacency(adj);
    lemma_closing_edges_grow(s.loops, c);
    assert(closes_with(c@, v, d));
    assert forall|k: int, j: int|
        0 <= k < t.path.len() && 0 <= j < t.cursor[k] && !(k < t.path.len() - 1 && j
            == t.cursor[k] - 1) implies settled(
        t,
        t.path[k],
        #[trigger] adj[t.path[k] as int]@[j],
    ) by {
        if k == top && j == s.cursor[top] {
        } else {
            assert(settled(s, s.path[k], adj[s.path[k] as int]@[j]));
        }
    }
    assert forall|i: int, j: int|
        0 <= i < t.order.len() && 0 <= j < adj[t.order[i] as int]@.len() implies placed_before(
        t.order,
        i,
        #[trigger] adj[t.order[i] as int]@[j],
    ) || closing_edges(t.loops).contains((t.order[i], adj[t.order[i] as int]@[j])) by {}
    // the new cycle
    let w = c@;
    assert(w.len() == s.path.len() - p + 1);
    assert forall|i: int| 0 <= i < w.len() implies g.dom().contains(#[trigger] w[i]) by {
        if i < w.len() - 1 {
            assert(w[i] == s.path[p + i]);
        }
    }
    assert forall|i: int| 0 <= i < w.len() - 1 implies has_edge(g, #[trigger] w[i], w[i + 1]) by {
        let k = p + i;
        assert(w[i] == s.path[k]);
        if k < top {
            assert(w[i + 1] == s.path[k + 1]);
            assert(s.cursor[k] >= 1);
            let row = adj[s.path[k] as int]@;
            assert(row[s.cursor[k] - 1] == s.path[k + 1]);
            assert(row.contains(s.path[k + 1]));
        } else {
            assert(w[i + 1] == d);
            let row = adj[v as int]@;
            assert(row[s.cursor[top] as int] == d);
            assert(row.contains(d));
        }
    }
    assert(is_walk(g, w));
    assert(w.drop_last() =~= s.path.subrange(p, s.path.len() as int));
    assert(is_simple_cycle(g, w));
    assert forall|k: int| 0 <= k < t.loops.len() implies is_simple_cycle(
        g,
        #[trigger] t.loops[k]@,
    ) by {
        if k < s.loops.len() {
            assert(t.loops[k] == s.loops[k]);
        }
    }
}

proof fn lemma_descended(adj: Seq<Vec<usize>>, s: Progress, d: usize)
    requires
        consistent(adj, s),
        in_bounds(adj),
        s.path.len() > 0,
        s.cursor.last() < adj[s.path.last() as int]@.len(),
        s.cursor.last() < usize::MAX,
        d == adj[s.path.last() as int]@[s.cursor.last() as int],
        s.marks[d as int] is Unvisited,
    ensures
        consistent(adj, descended(s, d)),
{
    let t = descended(s, d);
    let top = s.path.len() - 1;
    assert(!s.path.contains(d));
    assert forall|w: usize| w < adj.len() implies (t.marks[w as int] is InProgress
        <==> t.path.contains(w)) by {
        if w == d {
            assert(t.path[top + 1] == d);
        } else {
            if s.path.contains(w) {
                let i = choose|i: int| 0 <= i < s.path.len() && s.path[i] == w;
                assert(t.path[i] == w);
            }
        }
    }
    assert forall|w: usize| w < adj.len() implies (t.marks[w as int] is Resolved
        <==> t.order.contains(w)) by {}
    assert forall|k: int, j: int|
        0 <= k < t.path.len() && 0 <= j < t.cursor[k] && !(k < t.path.len() - 1 && j
            == t.cursor[k] - 1) implies settled(
        t,
        t.path[k],
        #[trigger] adj[t.path[k] as int]@[j],
    ) by {
        assert(k <= top);
        assert(settled(s, s.path[k], adj[s.path[k] as int]@[j]));
    }
}

proof fn lemma_finished(adj: Seq<Vec<usize>>, s: Progress)
    requires
        consistent(adj, s),
        in_bounds(adj),
        s.path.len() > 0,
        s.cursor.last() == adj[s.path.last() as int]@.len(),
    ensures
        consistent(adj, finished(s)),
{
    let t = finished(s);
    let top = s.path.len() - 1;
    let v = s.path[top];
    assert(s.path.contains(v));
    assert(!s.order.contains(v));
    assert forall|w: usize| w < adj.len() implies (t.marks[w as int] is InProgress
        <==> t.path.contains(w)) by {
        if w == v {
            if t.path.contains(w) {
                let i = choose|i: int| 0 <= i < t.path.len() && t.path[i] == w;
                assert(s.path[i] == s.path[top]);
            }
        } else {
            if s.path.contains(w) {
                let i = choose|i: int| 0 <= i < s.path.len() && s.path[i] == w;
                assert(t.path[i] == w);
            }
        }
    }
    assert forall|w: usize| w < adj.len() implies (t.marks[w as int] is Resolved
        <==> t.order.contains(w)) by {
        if w == v {
            assert(t.order[s.order.len() as int] == v);
        } else {
            if s.order.contains(w) {
                let i = choose|i: int| 0 <= i < s.order.len() && s.order[i] == w;
                assert(t.order[i] == w);
            }
        }
    }
    assert forall|k: int, j: int|
        0 <= k < t.path.len() && 0 <= j < t.cursor[k] && !(k < t.path.len() - 1 && j
            == t.cursor[k] - 1) implies settled(
        t,
        t.path[k],
        #[trigger] adj[t.path[k] as int]@[j],
    ) by {
        if k == top - 1 && j == s.cursor[k] - 1 {
            assert(adj[s.path[k] as int]@[j] == v);
        } else {
            assert(settled(s, s.path[k], adj[s.path[k] as int]@[j]));
        }
    }
    assert forall|i: int, j: int|
        0 <= i < t.order.len() && 0 <= j < adj[t.order[i] as int]@.len() implies placed_before(
        t.order,
        i,
        #[trigger] adj[t.order[i] as int]@[j],
    ) || closing_edges(t.loops).contains((t.order[i], adj[t.order[i] as int]@[j])) by {
        let dep = adj[t.order[i] as int]@[j];
        if i < s.order.len() {
            if placed_before(s.order, i, dep) {
                let m = choose|m: int| 0 <= m < i && #[trigger] s.order[m] == dep;
                assert(t.order[m] == dep);
            }
        } else {
            assert(settled(s, s.path[top], adj[s.path[top] as int]@[j]));
            if s.marks[dep as int] is Resolved {
                assert(s.order.contains(dep));
                let m = choose|m: int| 0 <= m < s.order.len() && s.order[m] == dep;
                assert(t.order[m] == dep);
            }
        }
    }
    assert(t.order.no_duplicates());
    assert(t.path.no_duplicates());
}

proof fn lemma_complete(adj: Seq<Vec<usize>>, s: Progress)
    requires
        consistent(adj, s),
        s.path.len() == 0,
        forall|v: int| 0 <= v < adj.len() ==> !(#[trigger] s.marks[v] is Unvisited),
    ensures
        linearizes_except(adjacency(adj), s.order, closing_edges(s.loops)),
{
    let g = adjacency(adj);
    assert forall|k: usize| s.order.contains(k) <==> g.dom().contains(k) by {
        if k < adj.len() {
            assert(!(s.marks[k as int] is Unvisited));
            assert(!s.path.contains(k));
        }
    }
    assert forall|i: int, j: int|
        0 <= i < s.order.len() && 0 <= j < s.order.len() && has_edge(
            g,
            s.order[i],
            s.order[j],
        ) implies j < i || closing_edges(s.loops).contains((s.order[i], s.order[j])) by {
        let row = adj[s.order[i] as int]@;
        assert(row.contains(s.order[j]));
        let jj = choose|jj: int| 0 <= jj < row.len() && row[jj] == s.order[j];
        assert(adj[s.order[i] as int]@[jj] == s.order[j]);
        if placed_before(s.order, i, s.order[j]) {
            let m = choose|m: int| 0 <= m < i && #[trigger] s.order[m] == s.order[j];
            assert(m == j);
        }
    }
}

/// The state that the traversal's variables stand for.
pub open spec fn progress(
    marks: Seq<Mark>,
    order: Seq<usize>,
    path: Seq<usize>,
    cursor: Seq<usize>,
    loops: Seq<Vec<usize>>,
) -> Progress {
    Progress { marks, order, path, cursor, loops }
}

/// How many dependencies the node on top of the stack has not looked at yet.
pub open spec fn pending(adj: Seq<Vec<usize>>, path: Seq<usize>, cursor: Seq<usize>) -> int {
    if path.len() == 0 {
        0
    } else {
        adj[path.last() as int]@.len() - cursor.last()
    }
}

/// Marks for `n` nodes that were not met yet.
fn unvisited(n: usize) -> (marks: Vec<Mark>)
    ensures
        marks@ == Seq::new(n as nat, |i: int| Mark::Unvisited),
{
    let mut marks: Vec<Mark> = Vec::new();
    let mut i: usize = 0;
    while i < n
        invariant
            i <= n,
            marks@.len() == i,
            forall|j: int| 0 <= j < i ==> marks@[j] == Mark::Unvisited,
        decreases n - i,
    {
        marks.push(Mark::Unvisited);
        i += 1;
    }
    assert(marks@ =~= Seq::new(n as nat, |i: int| Mark::Unvisited));
    marks
}

/// Puts `v` on the stack if it was not met before, and says whether it did.
fn begin(v: usize, marks: &mut Vec<Mark>, path: &mut Vec<usize>, cursor: &mut Vec<usize>) -> (fresh:
    bool)
    requires
        v < old(marks)@.len(),
    ensures
        fresh == (old(marks)@[v as int] is Unvisited),
        fresh ==> final(marks)@ == old(marks)@.update(v as int, Mark::InProgress) && final(path)@
            == old(path)@.push(v) && final(cursor)@ == old(cursor)@.push(0),
        !fresh ==> final(marks)@ == old(marks)@ && final(path)@ == old(path)@ && final(cursor)@
            == old(cursor)@,
{
    match marks[v] {
        Mark::Unvisited => {
            marks.set(v, Mark::InProgress);
            path.push(v);
            cursor.push(0);
            true
        },
        _ => false,
    }
}

/// Where `d` stands on the stack.
fn find_on_path(path: &Vec<usize>, d: usize) -> (p: usize)
    requires
        path@.contains(d),
    ensures
        p < path@.len(),
        path@[p as int] == d,
{
    let len = path.len();
    let mut p: usize = 0;
    while path[p] != d
        invariant
            len == path@.len(),
            p < path@.len(),
            path@.contains(d),
            forall|i: int| 0 <= i < p ==> path@[i] != d,
        decreases path@.len() - p,
    {
        proof {
            let w = choose|w: int| 0 <= w < path@.len() && path@[w] == d;
            assert(w > p);
        }
        p += 1;
    }
    p
}

/// The part of the stack from position `p` up, and the node at `p` once more.
fn walk_back(path: &Vec<usize>, p: usize) -> (c: Vec<usize>)
    requires
        p < path@.len(),
    ensures
        c@ == path@.subrange(p as int, path@.len() as int).push(path@[p as int]),
{
    let mut c: Vec<usize> = Vec::new();
    let mut i: usize = p;
    while i < path.len()
        invariant
            p <= i <= path@.len(),
            c@ == path@.subrange(p as int, i as int),
        decreases path@.len() - i,
    {
        c.push(path[i]);
        i += 1;
        assert(c@ =~= path@.subrange(p as int, i as int));
    }
    c.push(path[p]);
    c
}

/// Walks through the whole graph depth first, from each of `seeds` in turn
/// and then from every node that was not met by then.
///
/// A node is written to the order when all of its dependencies have been
/// written. An edge that leads back to a node in progress closes a cycle;
/// the cycle is recorded and the edge is passed over. With `every_loop` the
/// traversal then goes on, without it the traversal ends at the first cycle.
pub fn traverse(adj: &Vec<Vec<usize>>, seeds: &Vec<usize>, every_loop: bool) -> (out: Traversal)
    requires
        in_bounds(adj@),
        forall|i: int| 0 <= i < seeds@.len() ==> (#[trigger] seeds@[i]) < adj@.len(),
    ensures
        forall|k: int|
            0 <= k < out.loops@.len() ==> is_simple_cycle(
                adjacency(adj@),
                #[trigger] out.loops@[k]@,
            ),
        every_loop || out.loops@.len() == 0 ==> linearizes_except(
            adjacency(adj@),
            out.order@,
            closing_edges(out.loops@),
        ),
        !every_loop ==> out.loops@.len() <= 1,
{
    let n = adj.len();
    let mut marks = unvisited(n);
    let mut order: Vec<usize> = Vec::new();
    let mut loops: Vec<Vec<usize>> = Vec::new();
    let mut path: Vec<usize> = Vec::new();
    let mut cursor: Vec<usize> = Vec::new();
    let mut seed_i: usize = 0;
    let mut node_i: usize = 0;
    let ghost mut white: Set<int> = set_int_range(0, n as int);
    let ghost mut open: Set<int> = set_int_range(0, n as int);
    proof {
        lemma_int_range(0, n as int);
        lemma_initial(adj@);
        assert(progress(marks@, order@, path@, cursor@, loops@) == initial(adj@.len()));
    }
    loop
        invariant
            n == adj@.len(),
            in_bounds(adj@),
            forall|i: int| 0 <= i < seeds@.len() ==> (#[trigger] seeds@[i]) < adj@.len(),
            consistent(adj@, progress(marks@, order@, path@, cursor@, loops@)),
            seed_i <= seeds@.len(),
            node_i <= n,
            white.finite(),
            open.finite(),
            forall|v: int| white.contains(v) <==> 0 <= v < n && marks@[v] is Unvisited,
            forall|v: int| open.contains(v) <==> 0 <= v < n && !(marks@[v] is Resolved),
            forall|i: int| 0 <= i < seed_i ==> !(marks@[#[trigger] seeds@[i] as int] is Unvisited),
            forall|v: int| 0 <= v < node_i ==> !(#[trigger] marks@[v] is Unvisited),
            !every_loop ==> loops@.len() == 0,
        ensures
            path@.len() == 0,
            node_i == n,
        decreases
                open.len(),
                white.len(),
                (seeds@.len() - seed_i) + (n - node_i),
                pending(adj@, path@, cursor@),
    {
        let ghost s = progress(marks@, order@, path@, cursor@, loops@);
        if path.len() == 0 {
            if seed_i < seeds.len() {
                let v = seeds[seed_i];
                seed_i += 1;
                let fresh = begin(v, &mut marks, &mut path, &mut cursor);
                proof {
                    if fresh {
                        lemma_started(adj@, s, v);
                        white = white.remove(v as int);
                    }
                }
            } else if node_i < n {
                let v = node_i;
                node_i += 1;
                let fresh = begin(v, &mut marks, &mut path, &mut cursor);
                proof {
                    if fresh {
                        lemma_started(adj@, s, v);
                        white = white.remove(v as int);
                    }
                }
            } else {
                break ;
            }
        } else {
            let top = path.len() - 1;
            let v = path[top];
            let i = cursor[top];
            if i < adj[v].len() {
                let d = adj[v][i];
                cursor.set(top, i + 1);
                match marks[d] {
                    Mark::Resolved => {
                        proof {
                            lemma_skipped(adj@, s);
                        }
                    },
                    Mark::Unvisited => {
                        begin(d, &mut marks, &mut path, &mut cursor);
                        proof {
                            lemma_descended(adj@, s, d);
                            white = white.remove(d as int);
                        }
                    },
                    Mark::InProgress => {
                        let p = find_on_path(&path, d);
                        let c = walk_back(&path, p);
                        loops.push(c);
                        proof {
                            lemma_recorded(adj@, s, c, p as int);
                        }
                        if !every_loop {
                            return Traversal { order, loops };
                        }
                    },
                }
            } else {
                marks.set(v, Mark::Resolved);
                order.push(v);
                path.pop();
                cursor.pop();
                proof {
                    lemma_finished(adj@, s);
                    open = open.remove(v as int);
                }
            }
        }
    }
    proof {
        lemma_complete(adj@, progress(marks@, order@, path@, cursor@, loops@));
    }
    Traversal { order, loops }
}

} // verus!
