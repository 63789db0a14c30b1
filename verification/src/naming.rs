//! From numbered nodes to named ones.
//!
//! A graph of named nodes is stored as a list of names and, for each name,
//! a row with the numbers of its dependencies. What the traversal proves of
//! the numbers is carried over to the names here.

use crate::graph::{closes_with, has_edge, is_simple_cycle, is_walk, linearizes_except};
use crate::traverse::{adjacency, closing_edges, in_bounds};
use vstd::prelude::*;

verus! {

/// The names of the nodes with the given numbers.
pub open spec fn named<K>(names: Seq<K>, numbers: Seq<usize>) -> Seq<K> {
    Seq::new(numbers.len(), |i: int| names[numbers[i] as int])
}

/// The dependencies of the node with number `v`, by name.
pub open spec fn named_row<K>(names: Seq<K>, rows: Seq<Vec<usize>>, v: int) -> Set<K> {
    Set::new(
        |d: K|
            exists|j: int|
                0 <= j < rows[v]@.len() && names[(#[trigger] rows[v]@[j]) as int] == d,
    )
}

/// The graph that names and rows stand for.
pub open spec fn named_graph<K>(names: Seq<K>, rows: Seq<Vec<usize>>) -> Map<K, Set<K>> {
    Map::new(|k: K| names.contains(k), |k: K| named_row(names, rows, names.index_of(k)))
}

/// Names and rows fit together: one row for each name, no name twice, and
/// the rows name rows.
pub open spec fn fitting<K>(names: Seq<K>, rows: Seq<Vec<usize>>) -> bool {
    &&& names.len() == rows.len()
    &&& names.len() <= usize::MAX
    &&& names.no_duplicates()
    &&& in_bounds(rows)
}

/// The edges with which the given cycles end.
pub open spec fn closing<K>(loops: Seq<Seq<K>>) -> Set<(K, K)> {
    Set::new(
        |e: (K, K)| exists|k: int| 0 <= k < loops.len() && closes_with(#[trigger] loops[k], e.0, e.1),
    )
}

/// A name stands where its number says.
pub proof fn lemma_index_of_name<K>(names: Seq<K>, v: int)
    requires
        names.no_duplicates(),
        0 <= v < names.len(),
    ensures
        names.contains(names[v]),
        names.index_of(names[v]) == v,
{
    assert(names.contains(names[v]));
    let i = names.index_of(names[v]);
    assert(names[i] == names[v]);
}

/// The named graph has an edge exactly where the rows have one.
pub proof fn lemma_named_edge<K>(names: Seq<K>, rows: Seq<Vec<usize>>, v: usize, d: usize)
    requires
        fitting(names, rows),
        v < names.len(),
        d < names.len(),
    ensures
        has_edge(named_graph(names, rows), names[v as int], names[d as int]) <==> has_edge(
            adjacency(rows),
            v,
            d,
        ),
{
    lemma_index_of_name(names, v as int);
    let g = named_graph(names, rows);
    if has_edge(g, names[v as int], names[d as int]) {
        let j = choose|j: int|
            0 <= j < rows[v as int]@.len() && names[(#[trigger] rows[v as int]@[j]) as int]
                == names[d as int];
        assert(rows[v as int]@[j] == d);
        assert(rows[v as int]@.contains(d));
    }
    if has_edge(adjacency(rows), v, d) {
        let j = choose|j: int| 0 <= j < rows[v as int]@.len() && rows[v as int]@[j] == d;
        assert(names[(rows[v as int]@[j]) as int] == names[d as int]);
    }
}

/// An order of the numbers, read by name, is an order of the named graph.
pub proof fn lemma_named_order<K>(
    names: Seq<K>,
    rows: Seq<Vec<usize>>,
    order: Seq<usize>,
    excused: Set<(usize, usize)>,
    named_excused: Set<(K, K)>,
)
    requires
        fitting(names, rows),
        linearizes_except(adjacency(rows), order, excused),
        forall|a: usize, b: usize|
            a < names.len() && b < names.len() && #[trigger] excused.contains((a, b))
                ==> named_excused.contains((names[a as int], names[b as int])),
    ensures
        linearizes_except(named_graph(names, rows), named(names, order), named_excused),
{
    let g = named_graph(names, rows);
    let h = adjacency(rows);
    let o = named(names, order);
    assert forall|i: int| 0 <= i < order.len() implies (#[trigger] order[i]) < names.len() by {
        assert(order.contains(order[i]));
        assert(h.dom().contains(order[i]));
    }
    assert forall|i: int, j: int| 0 <= i < o.len() && 0 <= j < o.len() && i != j implies o[i]
        != o[j] by {
        assert(order[i] != order[j]);
    }
    assert forall|k: K| o.contains(k) <==> g.dom().contains(k) by {
        if o.contains(k) {
            let i = choose|i: int| 0 <= i < o.len() && o[i] == k;
            assert(names[order[i] as int] == k);
        }
        if names.contains(k) {
            let v = names.index_of(k);
            assert(0 <= v < names.len() && names[v] == k);
            assert(h.dom().contains(v as usize));
            assert(order.contains(v as usize));
            let i = choose|i: int| 0 <= i < order.len() && order[i] == v as usize;
            assert(o[i] == k);
        }
    }
    assert forall|i: int, j: int|
        0 <= i < o.len() && 0 <= j < o.len() && has_edge(g, o[i], o[j]) implies j < i
        || named_excused.contains((o[i], o[j])) by {
        lemma_named_edge(names, rows, order[i], order[j]);
        assert(has_edge(h, order[i], order[j]));
        if !(j < i) {
            assert(excused.contains((order[i], order[j])));
        }
    }
}

/// A cycle of the numbers, read by name, is a cycle of the named graph.
pub proof fn lemma_named_cycle<K>(names: Seq<K>, rows: Seq<Vec<usize>>, c: Seq<usize>)
    requires
        fitting(names, rows),
        is_simple_cycle(adjacency(rows), c),
    ensures
        is_simple_cycle(named_graph(names, rows), named(names, c)),
{
    let g = named_graph(names, rows);
    let h = adjacency(rows);
    let p = named(names, c);
    assert forall|i: int| 0 <= i < c.len() implies (#[trigger] c[i]) < names.len() by {
        assert(h.dom().contains(c[i]));
    }
    assert forall|i: int| 0 <= i < p.len() implies g.dom().contains(#[trigger] p[i]) by {
        lemma_index_of_name(names, c[i] as int);
    }
    assert forall|i: int| 0 <= i < p.len() - 1 implies has_edge(g, #[trigger] p[i], p[i + 1]) by {
        assert(has_edge(h, c[i], c[i + 1]));
        lemma_named_edge(names, rows, c[i], c[i + 1]);
    }
    assert(is_walk(g, p));
    let q = p.drop_last();
    let b = c.drop_last();
    assert forall|i: int, j: int| 0 <= i < q.len() && 0 <= j < q.len() && i != j implies q[i]
        != q[j] by {
        assert(b[i] != b[j]);
        assert(q[i] == names[c[i] as int]);
        assert(q[j] == names[c[j] as int]);
    }
}

/// The closing edges of cycles of numbers, read by name, are the closing
/// edges of the cycles read by name.
pub proof fn lemma_named_closing<K>(
    names: Seq<K>,
    loops: Seq<Vec<usize>>,
    named_loops: Seq<Seq<K>>,
)
    requires
        named_loops.len() == loops.len(),
        forall|k: int|
            0 <= k < loops.len() ==> #[trigger] named_loops[k] == named(names, loops[k]@),
    ensures
        forall|a: usize, b: usize| #[trigger]
            closing_edges(loops).contains((a, b)) ==> closing(named_loops).contains(
                (names[a as int], names[b as int]),
            ),
{
    assert forall|a: usize, b: usize| #[trigger]
        closing_edges(loops).contains((a, b)) implies closing(named_loops).contains(
        (names[a as int], names[b as int]),
    ) by {
        let k = choose|k: int| 0 <= k < loops.len() && closes_with(#[trigger] loops[k]@, a, b);
        assert(closes_with(named_loops[k], names[a as int], names[b as int]));
    }
}

/// A name stands nowhere but where its number says.
pub proof fn lemma_name_found<K>(names: Seq<K>, k: K, v: int)
    requires
        names.no_duplicates(),
        0 <= v < names.len(),
        names[v] == k,
    ensures
        names.contains(k),
        names.index_of(k) == v,
{
    lemma_index_of_name(names, v);
}

/// A new name with an empty row is a new node without dependencies.
pub proof fn lemma_named_push_node<K>(names: Seq<K>, rows: Seq<Vec<usize>>, k: K, row: Vec<usize>)
    requires
        fitting(names, rows),
        !names.contains(k),
        row@.len() == 0,
        names.len() < usize::MAX,
    ensures
        fitting(names.push(k), rows.push(row)),
        named_graph(names.push(k), rows.push(row)) == named_graph(names, rows).insert(
            k,
            Set::empty(),
        ),
{
    let names2 = names.push(k);
    let rows2 = rows.push(row);
    let g = named_graph(names, rows);
    let g2 = named_graph(names2, rows2);
    assert forall|i: int, j: int|
        0 <= i < names2.len() && 0 <= j < names2.len() && i != j implies names2[i] != names2[j] by {
        if i < names.len() {
            assert(names.contains(names[i]));
        }
        if j < names.len() {
            assert(names.contains(names[j]));
        }
    }
    assert forall|v: int, j: int| 0 <= v < rows2.len() && 0 <= j < rows2[v]@.len() implies (
    #[trigger] rows2[v]@[j]) < rows2.len() by {
        assert(rows2[v] == rows[v]);
    }
    let target = g.insert(k, Set::empty());
    assert forall|x: K| g2.dom().contains(x) <==> target.dom().contains(x) by {
        if names2.contains(x) {
            let i = choose|i: int| 0 <= i < names2.len() && names2[i] == x;
            if i < names.len() {
                assert(names[i] == x);
            }
        }
        if names.contains(x) {
            let i = choose|i: int| 0 <= i < names.len() && names[i] == x;
            assert(names2[i] == x);
        }
        if x == k {
            assert(names2[names.len() as int] == k);
        }
    }
    assert forall|x: K| g2.dom().contains(x) implies #[trigger] g2[x] == target[x] by {
        if x == k {
            lemma_name_found(names2, k, names.len() as int);
            assert(g2[x] =~= Set::<K>::empty());
        } else {
            let v = names.index_of(x);
            assert(names[v] == x);
            lemma_name_found(names2, x, v);
            assert(rows2[v] == rows[v]);
            assert forall|d: K| named_row(names2, rows2, v).contains(d) <==> named_row(
                names,
                rows,
                v,
            ).contains(d) by {
                if named_row(names2, rows2, v).contains(d) {
                    let j = choose|j: int|
                        0 <= j < rows2[v]@.len() && names2[(#[trigger] rows2[v]@[j]) as int] == d;
                    assert(names[(rows[v]@[j]) as int] == d);
                }
                if named_row(names, rows, v).contains(d) {
                    let j = choose|j: int|
                        0 <= j < rows[v]@.len() && names[(#[trigger] rows[v]@[j]) as int] == d;
                    assert(names2[(rows2[v]@[j]) as int] == d);
                }
            }
            assert(g2[x] =~= target[x]);
        }
    }
    assert(g2 =~= target);
}

/// A new entry in a row is a new dependency of the row's node.
pub proof fn lemma_named_push_edge<K>(
    names: Seq<K>,
    rows: Seq<Vec<usize>>,
    v: int,
    d: usize,
    row: Vec<usize>,
)
    requires
        fitting(names, rows),
        0 <= v < names.len(),
        d < names.len(),
        row@ == rows[v]@.push(d),
    ensures
        fitting(names, rows.update(v, row)),
        named_graph(names, rows.update(v, row)) == named_graph(names, rows).insert(
            names[v],
            named_graph(names, rows)[names[v]].insert(names[d as int]),
        ),
{
    let rows2 = rows.update(v, row);
    let g = named_graph(names, rows);
    let g2 = named_graph(names, rows2);
    let target = g.insert(names[v], g[names[v]].insert(names[d as int]));
    lemma_index_of_name(names, v);
    assert forall|w: int, j: int| 0 <= w < rows2.len() && 0 <= j < rows2[w]@.len() implies (
    #[trigger] rows2[w]@[j]) < rows2.len() by {
        if w == v {
            if j < rows[v]@.len() {
                assert(rows2[w]@[j] == rows[v]@[j]);
            }
        } else {
            assert(rows2[w] == rows[w]);
        }
    }
    assert forall|x: K| g2.dom().contains(x) implies #[trigger] g2[x] == target[x] by {
        let w = names.index_of(x);
        assert(names[w] == x);
        if w == v {
            assert forall|e: K| named_row(names, rows2, v).contains(e) <==> named_row(
                names,
                rows,
                v,
            ).insert(names[d as int]).contains(e) by {
                if named_row(names, rows2, v).contains(e) {
                    let j = choose|j: int|
                        0 <= j < rows2[v]@.len() && names[(#[trigger] rows2[v]@[j]) as int] == e;
                    if j < rows[v]@.len() {
                        assert(names[(rows[v]@[j]) as int] == e);
                    }
                }
                if named_row(names, rows, v).contains(e) {
                    let j = choose|j: int|
                        0 <= j < rows[v]@.len() && names[(#[trigger] rows[v]@[j]) as int] == e;
                    assert(names[(rows2[v]@[j]) as int] == e);
                }
                if e == names[d as int] {
                    assert(names[(rows2[v]@[rows[v]@.len() as int]) as int] == e);
                }
            }
            assert(g2[x] =~= target[x]);
        } else {
            assert(rows2[w] == rows[w]);
            assert(g2[x] =~= target[x]);
        }
    }
    assert(g2 =~= target);
}

} // verus!
