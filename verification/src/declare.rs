//! What rules declare of each other, and the graph that follows from it.
//!
//! A rule names the rules that have to come before it, its dependencies, and
//! the rules that have to come after it, its post-dependencies. To say that
//! `b` comes after `a` is to say that `b` depends on `a`: in the graph the
//! two kinds of declaration are one kind of edge.

use crate::graph::{has_edge, lemma_edge_is_honoured, linearizes, position, with_dep};
use vstd::prelude::*;

verus! {

/// What one rule declares: the rules before it and the rules after it.
#[verifier::reject_recursive_types(K)]
pub struct Declaration<K> {
    pub deps: Set<K>,
    pub post_deps: Set<K>,
}

/// The declaration that names nothing.
pub open spec fn nothing<K>() -> Declaration<K> {
    Declaration { deps: Set::empty(), post_deps: Set::empty() }
}

/// The declaration of `from` names `to`, as a dependency or as a
/// post-dependency.
pub open spec fn mentions<K>(decls: Map<K, Declaration<K>>, from: K, to: K) -> bool {
    decls.dom().contains(from) && (decls[from].deps.contains(to) || decls[from].post_deps.contains(
        to,
    ))
}

/// The declarations make `node` depend on `dep`: `node` names `dep` as a
/// dependency, or `dep` names `node` as a post-dependency.
pub open spec fn declared_edge<K>(decls: Map<K, Declaration<K>>, node: K, dep: K) -> bool {
    ||| decls.dom().contains(node) && decls[node].deps.contains(dep)
    ||| decls.dom().contains(dep) && decls[dep].post_deps.contains(node)
}

/// `w` leads from a root to its last node, each node named by the
/// declaration of the one before.
pub open spec fn is_trail<K>(roots: Set<K>, decls: Map<K, Declaration<K>>, w: Seq<K>) -> bool {
    &&& w.len() >= 1
    &&& roots.contains(w[0])
    &&& forall|i: int| 0 <= i < w.len() - 1 ==> mentions(decls, #[trigger] w[i], w[i + 1])
}

/// `k` is a root, or a rule that the declarations lead to from a root.
pub open spec fn discovered<K>(roots: Set<K>, decls: Map<K, Declaration<K>>, k: K) -> bool {
    exists|w: Seq<K>| is_trail(roots, decls, w) && w.last() == k
}

/// The restriction of the declarations to the rules that are discovered.
pub open spec fn found<K>(roots: Set<K>, decls: Map<K, Declaration<K>>) -> Map<
    K,
    Declaration<K>,
> {
    decls.restrict(Set::new(|k: K| discovered(roots, decls, k)))
}

/// The dependency graph that roots and declarations stand for: its nodes
/// are the rules that are discovered, and a node depends on what it names as
/// a dependency and on the nodes that name it as a post-dependency.
pub open spec fn graph_of<K>(roots: Set<K>, decls: Map<K, Declaration<K>>) -> Map<K, Set<K>> {
    Map::new(
        |k: K| discovered(roots, decls, k),
        |k: K| Set::new(|d: K| declared_edge(found(roots, decls), k, d)),
    )
}

/// A root is discovered.
pub proof fn lemma_root_discovered<K>(roots: Set<K>, decls: Map<K, Declaration<K>>, k: K)
    requires
        roots.contains(k),
    ensures
        discovered(roots, decls, k),
{
    let w = seq![k];
    assert(is_trail(roots, decls, w));
    assert(w.last() == k);
}

/// What a discovered rule names is discovered.
pub proof fn lemma_step_discovered<K>(roots: Set<K>, decls: Map<K, Declaration<K>>, k: K, m: K)
    requires
        discovered(roots, decls, k),
        mentions(decls, k, m),
    ensures
        discovered(roots, decls, m),
{
    let w = choose|w: Seq<K>| is_trail(roots, decls, w) && w.last() == k;
    let x = w.push(m);
    assert forall|i: int| 0 <= i < x.len() - 1 implies mentions(decls, #[trigger] x[i], x[i + 1]) by {
        if i < w.len() - 1 {
            assert(mentions(decls, w[i], w[i + 1]));
        }
    }
    assert(is_trail(roots, decls, x));
    assert(x.last() == m);
}

/// With more declarations no less is discovered.
pub proof fn lemma_more_discovered<K>(
    roots: Set<K>,
    decls: Map<K, Declaration<K>>,
    more: Map<K, Declaration<K>>,
    k: K,
)
    requires
        discovered(roots, decls, k),
        forall|a: K| #[trigger]
            decls.dom().contains(a) ==> more.dom().contains(a) && more[a] == decls[a],
    ensures
        discovered(roots, more, k),
{
    let w = choose|w: Seq<K>| is_trail(roots, decls, w) && w.last() == k;
    assert forall|i: int| 0 <= i < w.len() - 1 implies mentions(more, #[trigger] w[i], w[i + 1]) by {
        assert(mentions(decls, w[i], w[i + 1]));
    }
    assert(is_trail(roots, more, w));
}

/// A set that holds the roots, and with each rule what the rule names,
/// holds whatever a trail leads to.
proof fn lemma_trail_stays<K>(
    roots: Set<K>,
    decls: Map<K, Declaration<K>>,
    held: Set<K>,
    w: Seq<K>,
    n: int,
)
    requires
        is_trail(roots, decls, w),
        0 <= n < w.len(),
        forall|k: K| roots.contains(k) ==> held.contains(k),
        forall|k: K, m: K| held.contains(k) && mentions(decls, k, m) ==> held.contains(m),
    ensures
        held.contains(w[n]),
    decreases n,
{
    if n > 0 {
        lemma_trail_stays(roots, decls, held, w, n - 1);
        assert(mentions(decls, w[n - 1], w[n - 1 + 1]));
    }
}

/// A set that holds the roots, and with each rule what the rule names,
/// holds every discovered rule.
pub proof fn lemma_discovered_within<K>(
    roots: Set<K>,
    decls: Map<K, Declaration<K>>,
    held: Set<K>,
    k: K,
)
    requires
        discovered(roots, decls, k),
        forall|r: K| roots.contains(r) ==> held.contains(r),
        forall|a: K, m: K| held.contains(a) && mentions(decls, a, m) ==> held.contains(m),
    ensures
        held.contains(k),
{
    let w = choose|w: Seq<K>| is_trail(roots, decls, w) && w.last() == k;
    lemma_trail_stays(roots, decls, held, w, w.len() - 1);
}

/// An order of the graph holds every rule that the declarations lead to
/// from a root, requested or not, and each after the rules it depends on.
pub proof fn lemma_closure_is_resolved<K>(
    roots: Set<K>,
    decls: Map<K, Declaration<K>>,
    order: Seq<K>,
    k: K,
    m: K,
)
    requires
        linearizes(graph_of(roots, decls), order),
        discovered(roots, decls, k),
        mentions(decls, k, m),
    ensures
        order.contains(k),
        order.contains(m),
        decls[k].deps.contains(m) ==> position(order, m) < position(order, k),
        decls[k].post_deps.contains(m) ==> position(order, k) < position(order, m),
{
    let g = graph_of(roots, decls);
    lemma_step_discovered(roots, decls, k, m);
    assert(g.dom().contains(k));
    assert(g.dom().contains(m));
    let f = found(roots, decls);
    assert(f.dom().contains(k));
    if decls[k].deps.contains(m) {
        assert(declared_edge(f, k, m));
        assert(has_edge(g, k, m));
        lemma_edge_is_honoured(g, order, k, m);
    }
    if decls[k].post_deps.contains(m) {
        assert(declared_edge(f, m, k));
        assert(has_edge(g, m, k));
        lemma_edge_is_honoured(g, order, m, k);
    }
}

/// Roots whose declarations name nothing are resolved to themselves: the
/// order holds each root once and nothing else.
pub proof fn lemma_no_deps_identity<K>(
    roots: Set<K>,
    decls: Map<K, Declaration<K>>,
    order: Seq<K>,
)
    requires
        roots.finite(),
        forall|k: K| roots.contains(k) && decls.dom().contains(k) ==> decls[k] == nothing::<K>(),
        linearizes(graph_of(roots, decls), order),
    ensures
        order.no_duplicates(),
        order.to_set() == roots,
        order.len() == roots.len(),
{
    let g = graph_of(roots, decls);
    assert forall|k: K| g.dom().contains(k) implies roots.contains(k) by {
        assert forall|a: K, m: K| roots.contains(a) && mentions(decls, a, m) implies roots.contains(
            m,
        ) by {}
        lemma_discovered_within(roots, decls, roots, k);
    }
    assert forall|k: K| roots.contains(k) implies g.dom().contains(k) by {
        lemma_root_discovered(roots, decls, k);
    }
    assert(order.to_set() =~= roots);
    order.unique_seq_to_set();
}

/// The declarations with `to` named as a dependency of `from`.
pub open spec fn with_declared_dep<K>(decls: Map<K, Declaration<K>>, from: K, to: K) -> Map<
    K,
    Declaration<K>,
> {
    decls.insert(
        from,
        Declaration { deps: decls[from].deps.insert(to), post_deps: decls[from].post_deps },
    )
}

/// The declarations with `to` named as a post-dependency of `from`.
pub open spec fn with_declared_post<K>(decls: Map<K, Declaration<K>>, from: K, to: K) -> Map<
    K,
    Declaration<K>,
> {
    decls.insert(
        from,
        Declaration { deps: decls[from].deps, post_deps: decls[from].post_deps.insert(to) },
    )
}

/// What is discovered under declarations is discovered under any others
/// that name what the first name, the roots apart.
pub proof fn lemma_discovered_transfer<K>(
    roots: Set<K>,
    decls: Map<K, Declaration<K>>,
    others: Map<K, Declaration<K>>,
    k: K,
)
    requires
        discovered(roots, decls, k),
        forall|x: K, m: K|
            mentions(decls, x, m) ==> mentions(others, x, m) || roots.contains(m),
    ensures
        discovered(roots, others, k),
{
    let held = Set::new(|k: K| discovered(roots, others, k));
    assert forall|r: K| roots.contains(r) implies held.contains(r) by {
        lemma_root_discovered(roots, others, r);
    }
    assert forall|x: K, m: K| held.contains(x) && mentions(decls, x, m) implies held.contains(
        m,
    ) by {
        if roots.contains(m) {
            lemma_root_discovered(roots, others, m);
        } else {
            lemma_step_discovered(roots, others, x, m);
        }
    }
    lemma_discovered_within(roots, decls, held, k);
}

/// Where both `a` and `b` are roots with declarations, to declare `b` a
/// post-dependency of `a` leads to the same rules as to declare `a` a
/// dependency of `b`.
pub proof fn lemma_inversion_discovers_the_same<K>(
    roots: Set<K>,
    decls: Map<K, Declaration<K>>,
    a: K,
    b: K,
    k: K,
)
    requires
        roots.contains(a),
        roots.contains(b),
        decls.dom().contains(a),
        decls.dom().contains(b),
    ensures
        discovered(roots, with_declared_post(decls, a, b), k) <==> discovered(
            roots,
            with_declared_dep(decls, b, a),
            k,
        ),
{
    let post = with_declared_post(decls, a, b);
    let dep = with_declared_dep(decls, b, a);
    if discovered(roots, post, k) {
        lemma_discovered_transfer(roots, post, dep, k);
    }
    if discovered(roots, dep, k) {
        lemma_discovered_transfer(roots, dep, post, k);
    }
}

/// Where both `a` and `b` are roots with declarations, to declare `b` a
/// post-dependency of `a` gives the same graph as to declare `a` a
/// dependency of `b`.
pub proof fn lemma_post_dep_is_inverted_dep<K>(
    roots: Set<K>,
    decls: Map<K, Declaration<K>>,
    a: K,
    b: K,
)
    requires
        roots.contains(a),
        roots.contains(b),
        decls.dom().contains(a),
        decls.dom().contains(b),
    ensures
        graph_of(roots, with_declared_post(decls, a, b)) == graph_of(
            roots,
            with_declared_dep(decls, b, a),
        ),
{
    let post = with_declared_post(decls, a, b);
    let dep = with_declared_dep(decls, b, a);
    let gp = graph_of(roots, post);
    let gd = graph_of(roots, dep);
    assert forall|k: K| discovered(roots, post, k) <==> discovered(roots, dep, k) by {
        lemma_inversion_discovers_the_same(roots, decls, a, b, k);
    }
    let all = Set::new(|k: K| discovered(roots, post, k));
    assert(all =~= Set::new(|k: K| discovered(roots, dep, k)));
    lemma_root_discovered(roots, post, a);
    lemma_root_discovered(roots, post, b);
    let fp = post.restrict(all);
    let fd = dep.restrict(all);
    assert(fp == found(roots, post));
    assert(fd == found(roots, dep));
    assert forall|k: K| gp.dom().contains(k) implies #[trigger] gp[k] == gd[k] by {
        assert forall|d: K| declared_edge(fp, k, d) <==> declared_edge(fd, k, d) by {
            lemma_inverted_edge(post.restrict(all), dep.restrict(all), decls, all, a, b, k, d);
        }
        assert(gp[k] =~= gd[k]);
    }
    assert(gp =~= gd);
}

/// To declare `b` a post-dependency of `a` makes the rules depend on each
/// other as to declare `a` a dependency of `b` does: between two rules that
/// both declarations lead to, the graphs have the same edges.
pub proof fn lemma_inversion_orders_alike<K>(
    roots: Set<K>,
    decls: Map<K, Declaration<K>>,
    a: K,
    b: K,
    node: K,
    dep: K,
)
    requires
        decls.dom().contains(a),
        decls.dom().contains(b),
        discovered(roots, with_declared_post(decls, a, b), node),
        discovered(roots, with_declared_post(decls, a, b), dep),
        discovered(roots, with_declared_dep(decls, b, a), node),
        discovered(roots, with_declared_dep(decls, b, a), dep),
    ensures
        has_edge(graph_of(roots, with_declared_post(decls, a, b)), node, dep) <==> has_edge(
            graph_of(roots, with_declared_dep(decls, b, a)),
            node,
            dep,
        ),
{
    let post = with_declared_post(decls, a, b);
    let dep_way = with_declared_dep(decls, b, a);
    let fp = found(roots, post);
    let fd = found(roots, dep_way);
    assert(post.dom() =~= decls.dom());
    assert(dep_way.dom() =~= decls.dom());
    assert(fp.dom().contains(node) <==> decls.dom().contains(node));
    assert(fd.dom().contains(node) <==> decls.dom().contains(node));
    assert(fp.dom().contains(dep) <==> decls.dom().contains(dep));
    assert(fd.dom().contains(dep) <==> decls.dom().contains(dep));
    assert(declared_edge(fp, node, dep) <==> declared_edge(fd, node, dep));
}

/// One edge under the two ways to declare that `b` comes after `a`.
proof fn lemma_inverted_edge<K>(
    fp: Map<K, Declaration<K>>,
    fd: Map<K, Declaration<K>>,
    decls: Map<K, Declaration<K>>,
    all: Set<K>,
    a: K,
    b: K,
    k: K,
    d: K,
)
    requires
        all.contains(a),
        all.contains(b),
        decls.dom().contains(a),
        decls.dom().contains(b),
        fp == with_declared_post(decls, a, b).restrict(all),
        fd == with_declared_dep(decls, b, a).restrict(all),
    ensures
        declared_edge(fp, k, d) <==> declared_edge(fd, k, d),
{
    assert(fp.dom().contains(a) && fp.dom().contains(b));
    assert(fd.dom().contains(a) && fd.dom().contains(b));
}

/// The graph agrees with the declarations, all of which were followed up.
pub open spec fn followed_up<K>(
    roots: Set<K>,
    decls: Map<K, Declaration<K>>,
    g: Map<K, Set<K>>,
) -> bool {
    &&& forall|a: K, b: K| has_edge(g, a, b) <==> declared_edge(decls, a, b)
    &&& forall|k: K, m: K| mentions(decls, k, m) ==> g.dom().contains(m)
    &&& forall|k: K| g.dom().contains(k) ==> discovered(roots, decls, k)
    &&& forall|r: K| roots.contains(r) ==> g.dom().contains(r)
    &&& forall|k: K| decls.dom().contains(k) ==> g.dom().contains(k)
}

/// The graph while the declaration `conf` of `rule` is being followed up:
/// of its dependencies those in `deps`, of its post-dependencies those in
/// `posts` are in the graph.
pub open spec fn following_up<K>(
    roots: Set<K>,
    decls: Map<K, Declaration<K>>,
    g: Map<K, Set<K>>,
    rule: K,
    conf: Declaration<K>,
    deps: Set<K>,
    posts: Set<K>,
) -> bool {
    &&& forall|a: K, b: K|
        has_edge(g, a, b) <==> declared_edge(decls, a, b) || (a == rule && deps.contains(b)) || (b
            == rule && posts.contains(a))
    &&& forall|k: K, m: K| mentions(decls, k, m) ==> g.dom().contains(m)
    &&& forall|m: K| deps.contains(m) || posts.contains(m) ==> g.dom().contains(m)
    &&& forall|k: K|
        g.dom().contains(k) ==> discovered(roots, decls, k) || deps.contains(k) || posts.contains(
            k,
        )
    &&& forall|r: K| roots.contains(r) ==> g.dom().contains(r)
    &&& forall|k: K| decls.dom().contains(k) ==> g.dom().contains(k)
    &&& forall|m: K| deps.contains(m) ==> conf.deps.contains(m)
    &&& forall|m: K| posts.contains(m) ==> conf.post_deps.contains(m)
    &&& g.dom().contains(rule)
    &&& !decls.dom().contains(rule)
    &&& discovered(roots, decls, rule)
}

/// Before anything of a rule's declaration is in the graph.
pub proof fn lemma_follow_up_begins<K>(
    roots: Set<K>,
    decls: Map<K, Declaration<K>>,
    g: Map<K, Set<K>>,
    rule: K,
    conf: Declaration<K>,
)
    requires
        followed_up(roots, decls, g),
        g.dom().contains(rule),
        !decls.dom().contains(rule),
    ensures
        following_up(roots, decls, g, rule, conf, Set::empty(), Set::empty()),
{
}

/// One more dependency of the rule is in the graph.
pub proof fn lemma_follow_up_dep<K>(
    roots: Set<K>,
    decls: Map<K, Declaration<K>>,
    g: Map<K, Set<K>>,
    rule: K,
    conf: Declaration<K>,
    deps: Set<K>,
    posts: Set<K>,
    m: K,
)
    requires
        following_up(roots, decls, g, rule, conf, deps, posts),
        conf.deps.contains(m),
    ensures
        following_up(roots, decls, with_dep(g, rule, m), rule, conf, deps.insert(m), posts),
{
    let h = with_dep(g, rule, m);
    assert forall|a: K, b: K|
        has_edge(h, a, b) <==> declared_edge(decls, a, b) || (a == rule && deps.insert(m).contains(
            b,
        )) || (b == rule && posts.contains(a)) by {
        lemma_with_dep_edges(g, rule, m, a, b);
    }
}

/// One more post-dependency of the rule is in the graph.
pub proof fn lemma_follow_up_post<K>(
    roots: Set<K>,
    decls: Map<K, Declaration<K>>,
    g: Map<K, Set<K>>,
    rule: K,
    conf: Declaration<K>,
    deps: Set<K>,
    posts: Set<K>,
    m: K,
)
    requires
        following_up(roots, decls, g, rule, conf, deps, posts),
        conf.post_deps.contains(m),
    ensures
        following_up(roots, decls, with_dep(g, m, rule), rule, conf, deps, posts.insert(m)),
{
    let h = with_dep(g, m, rule);
    assert forall|a: K, b: K|
        has_edge(h, a, b) <==> declared_edge(decls, a, b) || (a == rule && deps.contains(b)) || (b
            == rule && posts.insert(m).contains(a)) by {
        lemma_with_dep_edges(g, m, rule, a, b);
    }
}

/// The edges of a graph with one more dependency.
pub proof fn lemma_with_dep_edges<K>(g: Map<K, Set<K>>, node: K, dep: K, a: K, b: K)
    ensures
        has_edge(with_dep(g, node, dep), a, b) <==> has_edge(g, a, b) || (a == node && b == dep),
        with_dep(g, node, dep).dom() == g.dom().insert(node).insert(dep),
{
    assert(with_dep(g, node, dep).dom() =~= g.dom().insert(node).insert(dep));
}

/// All of the rule's declaration is in the graph.
pub proof fn lemma_follow_up_ends<K>(
    roots: Set<K>,
    decls: Map<K, Declaration<K>>,
    g: Map<K, Set<K>>,
    rule: K,
    conf: Declaration<K>,
)
    requires
        following_up(roots, decls, g, rule, conf, conf.deps, conf.post_deps),
    ensures
        followed_up(roots, decls.insert(rule, conf), g),
{
    let more = decls.insert(rule, conf);
    lemma_more_discovered(roots, decls, more, rule);
    assert forall|k: K| g.dom().contains(k) implies discovered(roots, more, k) by {
        if discovered(roots, decls, k) {
            lemma_more_discovered(roots, decls, more, k);
        } else {
            assert(mentions(more, rule, k));
            lemma_step_discovered(roots, more, rule, k);
        }
    }
    assert forall|a: K, b: K| has_edge(g, a, b) <==> declared_edge(more, a, b) by {}
    assert forall|k: K, m: K| mentions(more, k, m) implies g.dom().contains(m) by {
        if k != rule {
            assert(mentions(decls, k, m));
        }
    }
}

/// A graph that agrees with declarations for each of its nodes, all of
/// them followed up, is the graph that the declarations stand for.
pub proof fn lemma_followed_up_is_graph<K>(
    roots: Set<K>,
    decls: Map<K, Declaration<K>>,
    g: Map<K, Set<K>>,
)
    requires
        followed_up(roots, decls, g),
        decls.dom() == g.dom(),
    ensures
        g == graph_of(roots, decls),
{
    let target = graph_of(roots, decls);
    assert forall|k: K| discovered(roots, decls, k) implies g.dom().contains(k) by {
        lemma_discovered_within(roots, decls, g.dom(), k);
    }
    assert(g.dom() =~= target.dom());
    let f = found(roots, decls);
    assert(f =~= decls);
    assert forall|k: K| g.dom().contains(k) implies #[trigger] g[k] == target[k] by {
        assert forall|d: K| g[k].contains(d) <==> declared_edge(f, k, d) by {
            assert(has_edge(g, k, d) <==> declared_edge(decls, k, d));
        }
        assert(g[k] =~= target[k]);
    }
    assert(g =~= target);
}

/// The declarations hold exactly the rules that they lead to from the
/// roots.
pub open spec fn complete<K>(roots: Set<K>, decls: Map<K, Declaration<K>>) -> bool {
    forall|k: K| decls.dom().contains(k) <==> discovered(roots, decls, k)
}

/// Declarations that hold exactly what they lead to, and that are part of
/// others, stand for the same graph as the others.
pub proof fn lemma_graph_of_part<K>(
    roots: Set<K>,
    decls: Map<K, Declaration<K>>,
    all: Map<K, Declaration<K>>,
)
    requires
        complete(roots, decls),
        forall|k: K| #[trigger]
            decls.dom().contains(k) ==> all.dom().contains(k) && all[k] == decls[k],
    ensures
        forall|k: K| discovered(roots, all, k) <==> decls.dom().contains(k),
        graph_of(roots, decls) == graph_of(roots, all),
{
    assert forall|k: K| discovered(roots, all, k) <==> decls.dom().contains(k) by {
        if discovered(roots, all, k) {
            assert forall|r: K| roots.contains(r) implies decls.dom().contains(r) by {
                lemma_root_discovered(roots, decls, r);
            }
            assert forall|a: K, m: K| decls.dom().contains(a) && mentions(
                all,
                a,
                m,
            ) implies decls.dom().contains(m) by {
                assert(mentions(decls, a, m));
                lemma_step_discovered(roots, decls, a, m);
            }
            lemma_discovered_within(roots, all, decls.dom(), k);
        }
        if decls.dom().contains(k) {
            lemma_more_discovered(roots, decls, all, k);
        }
    }
    let fd = found(roots, decls);
    let fa = found(roots, all);
    assert(fd =~= decls);
    assert forall|k: K| fa.dom().contains(k) <==> decls.dom().contains(k) by {}
    assert forall|k: K| fa.dom().contains(k) implies #[trigger] fa[k] == decls[k] by {
        assert(decls.dom().contains(k));
    }
    assert(fa =~= decls);
    let gd = graph_of(roots, decls);
    let ga = graph_of(roots, all);
    assert forall|k: K| gd.dom().contains(k) implies #[trigger] gd[k] == ga[k] by {
        assert(gd[k] =~= ga[k]);
    }
    assert(gd =~= ga);
}

} // verus!
