//! The mathematical model of a dependency graph.
//!
//! A graph is a map from each node to the set of nodes that have to come
//! before it. Everything else in the library states its contracts over the
//! notions defined here.

use vstd::prelude::*;

verus! {

/// `node` is in the graph and names `dep` as one of its dependencies.
pub open spec fn has_edge<K>(g: Map<K, Set<K>>, node: K, dep: K) -> bool {
    g.dom().contains(node) && g[node].contains(dep)
}

/// Every dependency that an edge names is itself a node.
pub open spec fn closed<K>(g: Map<K, Set<K>>) -> bool {
    forall|node: K, dep: K| has_edge(g, node, dep) ==> g.dom().contains(dep)
}

/// The graph with `node` in it: as it is where it holds `node`, else with
/// `node` and no dependencies of it.
pub open spec fn with_node<K>(g: Map<K, Set<K>>, node: K) -> Map<K, Set<K>> {
    if g.dom().contains(node) {
        g
    } else {
        g.insert(node, Set::empty())
    }
}

/// The graph with both nodes in it and `dep` among the dependencies of
/// `node`.
pub open spec fn with_dep<K>(g: Map<K, Set<K>>, node: K, dep: K) -> Map<K, Set<K>> {
    let h = with_node(with_node(g, node), dep);
    h.insert(node, h[node].insert(dep))
}

/// `p` walks through the graph: each of its nodes depends on the next one.
pub open spec fn is_walk<K>(g: Map<K, Set<K>>, p: Seq<K>) -> bool {
    &&& p.len() >= 1
    &&& forall|i: int| 0 <= i < p.len() ==> g.dom().contains(#[trigger] p[i])
    &&& forall|i: int| 0 <= i < p.len() - 1 ==> has_edge(g, #[trigger] p[i], p[i + 1])
}

/// `p` is a walk of at least one edge that ends where it starts.
pub open spec fn is_cycle<K>(g: Map<K, Set<K>>, p: Seq<K>) -> bool {
    &&& is_walk(g, p)
    &&& p.len() >= 2
    &&& p.first() == p.last()
}

/// A cycle that passes through no node twice, its two ends apart.
pub open spec fn is_simple_cycle<K>(g: Map<K, Set<K>>, p: Seq<K>) -> bool {
    &&& is_cycle(g, p)
    &&& p.drop_last().no_duplicates()
}

/// The graph has no cycle.
pub open spec fn acyclic<K>(g: Map<K, Set<K>>) -> bool {
    forall|p: Seq<K>| !is_cycle(g, p)
}

/// `p` ends with the edge from `node` to `dep`.
pub open spec fn closes_with<K>(p: Seq<K>, node: K, dep: K) -> bool {
    p.len() >= 2 && p[p.len() - 2] == node && p[p.len() - 1] == dep
}

/// `order` holds every node of the graph once, and each node after all of
/// its dependencies, but for the edges in `excused`.
pub open spec fn linearizes_except<K>(
    g: Map<K, Set<K>>,
    order: Seq<K>,
    excused: Set<(K, K)>,
) -> bool {
    &&& order.no_duplicates()
    &&& forall|k: K| order.contains(k) <==> g.dom().contains(k)
    &&& forall|i: int, j: int|
        0 <= i < order.len() && 0 <= j < order.len() && has_edge(g, order[i], order[j])
            ==> j < i || excused.contains((order[i], order[j]))
}

/// `order` holds every node of the graph once, and each node after all of
/// its dependencies.
pub open spec fn linearizes<K>(g: Map<K, Set<K>>, order: Seq<K>) -> bool {
    linearizes_except(g, order, Set::empty())
}

/// Where `k` stands in `order`.
pub open spec fn position<K>(order: Seq<K>, k: K) -> int {
    order.index_of(k)
}

/// Along a walk whose edges are all honoured by `order`, positions only go
/// down.
proof fn lemma_walk_descends<K>(
    g: Map<K, Set<K>>,
    order: Seq<K>,
    excused: Set<(K, K)>,
    p: Seq<K>,
    n: int,
)
    requires
        linearizes_except(g, order, excused),
        is_walk(g, p),
        0 <= n < p.len(),
        forall|i: int| 0 <= i < n ==> !excused.contains((#[trigger] p[i], p[i + 1])),
    ensures
        n == 0 ==> position(order, p[n]) == position(order, p[0]),
        n > 0 ==> position(order, p[n]) < position(order, p[0]),
    decreases n,
{
    if n > 0 {
        lemma_walk_descends(g, order, excused, p, n - 1);
        let a = p[n - 1];
        let b = p[n];
        assert(g.dom().contains(a));
        assert(g.dom().contains(b));
        assert(order.contains(a));
        assert(order.contains(b));
        let i = order.index_of(a);
        let j = order.index_of(b);
        assert(has_edge(g, p[n - 1], p[n - 1 + 1]));
        assert(has_edge(g, order[i], order[j]));
        assert(!excused.contains((p[n - 1], p[n - 1 + 1])));
    }
}

/// Every cycle of a graph passes through one of the edges that a
/// linearization leaves out.
pub proof fn lemma_cycle_meets_excused<K>(
    g: Map<K, Set<K>>,
    order: Seq<K>,
    excused: Set<(K, K)>,
    p: Seq<K>,
)
    requires
        linearizes_except(g, order, excused),
        is_cycle(g, p),
    ensures
        exists|i: int| 0 <= i < p.len() - 1 && excused.contains((#[trigger] p[i], p[i + 1])),
{
    if !(exists|i: int| 0 <= i < p.len() - 1 && excused.contains((#[trigger] p[i], p[i + 1]))) {
        lemma_walk_descends(g, order, excused, p, p.len() - 1);
    }
}

/// A graph that can be put in order has no cycle.
pub proof fn lemma_linearized_is_acyclic<K>(g: Map<K, Set<K>>, order: Seq<K>)
    requires
        linearizes(g, order),
    ensures
        acyclic(g),
{
    assert forall|p: Seq<K>| !is_cycle(g, p) by {
        if is_cycle(g, p) {
            lemma_cycle_meets_excused(g, order, Set::empty(), p);
        }
    }
}

/// A graph with a cycle cannot be put in order.
pub proof fn lemma_cycle_forbids_order<K>(g: Map<K, Set<K>>, p: Seq<K>, order: Seq<K>)
    requires
        is_cycle(g, p),
    ensures
        !linearizes(g, order),
{
    if linearizes(g, order) {
        lemma_linearized_is_acyclic(g, order);
    }
}

/// Two orders of one graph hold the same nodes and agree on which of two
/// nodes comes first wherever one depends on the other.
pub proof fn lemma_orders_agree<K>(g: Map<K, Set<K>>, first: Seq<K>, second: Seq<K>)
    requires
        linearizes(g, first),
        linearizes(g, second),
    ensures
        first.len() == second.len(),
        forall|k: K| first.contains(k) <==> second.contains(k),
        forall|node: K, dep: K|
            has_edge(g, node, dep) && g.dom().contains(dep) ==> position(first, dep) < position(
                first,
                node,
            ) && position(second, dep) < position(second, node),
{
    first.unique_seq_to_set();
    second.unique_seq_to_set();
    assert(first.to_set() =~= second.to_set());
    assert forall|node: K, dep: K| has_edge(g, node, dep) && g.dom().contains(dep) implies position(
        first,
        dep,
    ) < position(first, node) && position(second, dep) < position(second, node) by {
        lemma_edge_is_honoured(g, first, node, dep);
        lemma_edge_is_honoured(g, second, node, dep);
    }
}

/// In an order of the graph a dependency stands before the node that names it.
pub proof fn lemma_edge_is_honoured<K>(g: Map<K, Set<K>>, order: Seq<K>, node: K, dep: K)
    requires
        linearizes(g, order),
        has_edge(g, node, dep),
        g.dom().contains(dep),
    ensures
        order.contains(node),
        order.contains(dep),
        position(order, dep) < position(order, node),
{
    assert(order.contains(node));
    assert(order.contains(dep));
    let i = order.index_of(node);
    let j = order.index_of(dep);
    assert(has_edge(g, order[i], order[j]));
}

} // verus!
