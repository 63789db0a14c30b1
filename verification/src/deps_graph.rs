//! The dependency graph of named nodes, and its resolution.

use crate::declare::{
    discovered, followed_up, following_up, graph_of, lemma_follow_up_begins, lemma_follow_up_dep,
    lemma_follow_up_ends, lemma_follow_up_post, lemma_followed_up_is_graph, lemma_root_discovered,
    Declaration,
};
use crate::deps_resolver::DepsConf;
use crate::graph::{
    acyclic, closed, has_edge, is_cycle, is_simple_cycle, lemma_cycle_meets_excused,
    lemma_linearized_is_acyclic, linearizes, with_dep, with_node,
};
use crate::naming::{
    closing, fitting, lemma_index_of_name, lemma_named_closing, lemma_named_cycle,
    lemma_named_order, lemma_named_push_edge, lemma_named_push_node, named, named_graph,
};
use crate::node::{keys, Node};
use crate::path::{CycleError, Path};
use crate::traverse::{adjacency, closing_edges, traverse};
use vstd::prelude::*;

verus! {

/// The nodes of each of the given paths.
pub open spec fn key_paths<I: View>(paths: Seq<Vec<I>>) -> Seq<Seq<I::V>> {
    Seq::new(paths.len(), |k: int| keys(paths[k]@))
}

/// What a graph is to its users: the dependencies of each node, and the
/// nodes that are its roots.
#[verifier::reject_recursive_types(K)]
pub struct Shape<K> {
    pub deps: Map<K, Set<K>>,
    pub roots: Set<K>,
}

/// The shape after `node` was added.
pub open spec fn with_root<K>(s: Shape<K>, node: K) -> Shape<K> {
    if s.deps.dom().contains(node) {
        s
    } else {
        Shape { deps: s.deps.insert(node, Set::empty()), roots: s.roots.insert(node) }
    }
}

/// The shape after `node` was made to depend on `dep`: a `node` that is new
/// becomes a root, and `dep` is a root no more.
pub open spec fn linked<K>(s: Shape<K>, node: K, dep: K) -> Shape<K> {
    Shape {
        deps: with_dep(s.deps, node, dep),
        roots: with_root(s, node).roots.remove(dep),
    }
}

/// The lookup gave, for each rule that `decls` holds, what `decls` holds
/// for it.
pub open spec fn declared_by<I: Node, F: Fn(&I) -> DepsConf<I>>(
    lookup: F,
    decls: Map<I::V, Declaration<I::V>>,
) -> bool {
    forall|k: I::V| #[trigger]
        decls.dom().contains(k) ==> exists|n: I, conf: DepsConf<I>|
            n@ == k && #[trigger] call_ensures(lookup, (&n,), conf) && conf@ == decls[k]
}

/// The lookup knew each rule that `decls` holds, and gave for it what
/// `decls` holds for it.
pub open spec fn answered_by<I: Node, F: Fn(&I) -> Option<DepsConf<I>>>(
    lookup: F,
    decls: Map<I::V, Declaration<I::V>>,
) -> bool {
    forall|k: I::V| #[trigger]
        decls.dom().contains(k) ==> exists|n: I, conf: DepsConf<I>|
            n@ == k && #[trigger] call_ensures(lookup, (&n,), Some(conf)) && conf@ == decls[k]
}

/// The lookup did not know the rule `k`.
pub open spec fn unknown_to<I: Node, F: Fn(&I) -> Option<DepsConf<I>>>(lookup: F, k: I::V) -> bool {
    exists|n: I| n@ == k && #[trigger] call_ensures(lookup, (&n,), None::<DepsConf<I>>)
}

/// Something that can be asked what a rule declares.
trait Ask<I: Node>: Sized {
    /// The rule can be asked for.
    spec fn ready(&self, n: I) -> bool;

    /// Asked for the rule, `r` may be the answer.
    spec fn answers(&self, n: I, r: Option<DepsConf<I>>) -> bool;

    /// What the rule declares, if anything is known of the rule.
    fn ask(&self, n: &I) -> (r: Option<DepsConf<I>>)
        requires
            self.ready(*n),
        ensures
            self.answers(*n, r),
    ;
}

/// A lookup that knows every rule.
struct Total<F> {
    lookup: F,
}

impl<I: Node, F: Fn(&I) -> DepsConf<I>> Ask<I> for Total<F> {
    spec fn ready(&self, n: I) -> bool {
        call_requires(self.lookup, (&n,))
    }

    spec fn answers(&self, n: I, r: Option<DepsConf<I>>) -> bool {
        r matches Some(conf) && call_ensures(self.lookup, (&n,), conf)
    }

    fn ask(&self, n: &I) -> (r: Option<DepsConf<I>>) {
        Some((self.lookup)(n))
    }
}

/// A lookup that may not know a rule.
struct Partial<F> {
    lookup: F,
}

impl<I: Node, F: Fn(&I) -> Option<DepsConf<I>>> Ask<I> for Partial<F> {
    spec fn ready(&self, n: I) -> bool {
        call_requires(self.lookup, (&n,))
    }

    spec fn answers(&self, n: I, r: Option<DepsConf<I>>) -> bool {
        call_ensures(self.lookup, (&n,), r)
    }

    fn ask(&self, n: &I) -> (r: Option<DepsConf<I>>) {
        (self.lookup)(n)
    }
}

/// Each rule that `decls` holds was asked for, and the answer was what
/// `decls` holds for it.
spec fn told_by<I: Node, A: Ask<I>>(asked: A, decls: Map<I::V, Declaration<I::V>>) -> bool {
    forall|k: I::V| #[trigger]
        decls.dom().contains(k) ==> exists|n: I, conf: DepsConf<I>|
            n@ == k && #[trigger] asked.answers(n, Some(conf)) && conf@ == decls[k]
}

proof fn lemma_partial_told<I: Node, F: Fn(&I) -> Option<DepsConf<I>>>(
    asked: Partial<F>,
    decls: Map<I::V, Declaration<I::V>>,
)
    requires
        told_by(asked, decls),
    ensures
        answered_by(asked.lookup, decls),
{
    assert forall|k: I::V| #[trigger] decls.dom().contains(k) implies exists|
        n: I,
        conf: DepsConf<I>,
    |
        n@ == k && #[trigger] call_ensures(asked.lookup, (&n,), Some(conf)) && conf@
            == decls[k] by {
        let (n, conf) = choose|n: I, conf: DepsConf<I>|
            n@ == k && #[trigger] asked.answers(n, Some(conf)) && conf@ == decls[k];
        assert(call_ensures(asked.lookup, (&n,), Some(conf)));
    }
}

/// A graph of dependencies: for each node the nodes that have to come
/// before it, and the nodes that are its roots.
pub struct DepsGraph<I> {
    nodes: Vec<I>,
    rows: Vec<Vec<usize>>,
    roots: Vec<usize>,
}

impl<I: Node> View for DepsGraph<I> {
    type V = Map<I::V, Set<I::V>>;

    /// The dependencies of each node.
    closed spec fn view(&self) -> Map<I::V, Set<I::V>> {
        named_graph(keys(self.nodes@), self.rows@)
    }
}

impl<I: Node> DepsGraph<I> {
    /// The graph is well formed. Every graph that this library hands out is.
    pub closed spec fn wf(&self) -> bool {
        &&& fitting(keys(self.nodes@), self.rows@)
        &&& self.roots@.no_duplicates()
        &&& forall|i: int| 0 <= i < self.roots@.len() ==> (#[trigger] self.roots@[i]) < self.nodes@.len()
    }

    /// The nodes in the order in which they came into the graph.
    pub closed spec fn names(&self) -> Seq<I::V> {
        keys(self.nodes@)
    }

    /// The roots in the order in which they became roots.
    pub closed spec fn root_names(&self) -> Seq<I::V> {
        named(keys(self.nodes@), self.roots@)
    }

    /// The roots of the graph.
    pub open spec fn root_set(&self) -> Set<I::V> {
        self.root_names().to_set()
    }

    /// The dependencies and the roots of the graph.
    pub open spec fn shape(&self) -> Shape<I::V> {
        Shape { deps: self@, roots: self.root_set() }
    }

    /// The nodes of a well-formed graph are those that were put into it,
    /// each once; its roots are among them, and so is every dependency that
    /// one of them names.
    pub proof fn lemma_nodes(&self)
        requires
            self.wf(),
        ensures
            self.names().no_duplicates(),
            self.root_names().no_duplicates(),
            forall|k: I::V| self.names().contains(k) <==> self@.dom().contains(k),
            forall|k: I::V| self.root_set().contains(k) ==> self@.dom().contains(k),
            closed(self@),
    {
        let names = keys(self.nodes@);
        let roots = self.root_names();
        assert forall|node: I::V, dep: I::V| has_edge(self@, node, dep) implies self@.dom().contains(
            dep,
        ) by {
            let v = names.index_of(node);
            let j = choose|j: int|
                0 <= j < self.rows@[v]@.len() && names[(#[trigger] self.rows@[v]@[j]) as int]
                    == dep;
            lemma_index_of_name(names, self.rows@[v]@[j] as int);
        }
        assert forall|i: int, j: int|
            0 <= i < roots.len() && 0 <= j < roots.len() && i != j implies roots[i] != roots[j] by {
            assert(self.roots@[i] != self.roots@[j]);
        }
        assert forall|k: I::V| self.root_set().contains(k) implies self@.dom().contains(k) by {
            let i = choose|i: int| 0 <= i < roots.len() && roots[i] == k;
            lemma_index_of_name(names, self.roots@[i] as int);
        }
    }

    /// A graph without nodes.
    pub fn new() -> (g: Self)
        ensures
            g.wf(),
            g@ == Map::<I::V, Set<I::V>>::empty(),
            g.root_set() == Set::<I::V>::empty(),
    {
        let g = DepsGraph { nodes: Vec::new(), rows: Vec::new(), roots: Vec::new() };
        assert(g@ =~= Map::<I::V, Set<I::V>>::empty());
        assert(g.root_set() =~= Set::<I::V>::empty());
        g
    }

    /// The number under which `node` is stored, if it is in the graph.
    fn number_of(&self, node: &I) -> (at: Option<usize>)
        requires
            self.wf(),
        ensures
            match at {
                Some(v) => v < self.nodes@.len() && self.nodes@[v as int]@ == node@,
                None => !keys(self.nodes@).contains(node@),
            },
    {
        let mut v: usize = 0;
        while v < self.nodes.len()
            invariant
                v <= self.nodes@.len(),
                forall|j: int| 0 <= j < v ==> (#[trigger] self.nodes@[j])@ != node@,
            decreases self.nodes@.len() - v,
        {
            if self.nodes[v].same(node) {
                return Some(v);
            }
            v += 1;
        }
        proof {
            let names = keys(self.nodes@);
            if names.contains(node@) {
                let j = choose|j: int| 0 <= j < names.len() && names[j] == node@;
                assert(self.nodes@[j]@ == node@);
            }
        }
        None
    }

    /// Stores a node that is not in the graph yet, without dependencies, and
    /// gives its number.
    fn push_node(&mut self, node: I) -> (v: usize)
        requires
            old(self).wf(),
            !old(self)@.dom().contains(node@),
        ensures
            final(self).wf(),
            v == old(self).nodes@.len(),
            final(self).nodes@ == old(self).nodes@.push(node),
            final(self).roots@ == old(self).roots@,
            final(self)@ == old(self)@.insert(node@, Set::empty()),
            final(self).root_names() == old(self).root_names(),
    {
        let row: Vec<usize> = Vec::new();
        let ghost key = node@;
        self.nodes.push(node);
        let count = self.nodes.len();
        proof {
            assert(keys(self.nodes@) =~= keys(old(self).nodes@).push(key));
            lemma_named_push_node(keys(old(self).nodes@), self.rows@, key, row);
        }
        self.rows.push(row);
        proof {
            assert(self.root_names() =~= old(self).root_names());
        }
        count - 1
    }

    /// Makes the node with number `v` a root, where it is none.
    fn root(&mut self, v: usize)
        requires
            old(self).wf(),
            v < old(self).nodes@.len(),
        ensures
            final(self).wf(),
            final(self).nodes@ == old(self).nodes@,
            final(self)@ == old(self)@,
            final(self).root_set() == old(self).root_set().insert(old(self).nodes@[v as int]@),
    {
        let mut i: usize = 0;
        while i < self.roots.len()
            invariant
                *self == *old(self),
                self.wf(),
                v < self.nodes@.len(),
                i <= self.roots@.len(),
                forall|j: int| 0 <= j < i ==> self.roots@[j] != v,
            decreases self.roots@.len() - i,
        {
            if self.roots[i] == v {
                proof {
                    let k = self.nodes@[v as int]@;
                    assert(self.root_names()[i as int] == k);
                    assert(self.root_set() =~= self.root_set().insert(k));
                }
                return ;
            }
            i += 1;
        }
        self.roots.push(v);
        proof {
            let k = self.nodes@[v as int]@;
            assert(self.root_names() =~= old(self).root_names().push(k));
            old(self).root_names().lemma_push_to_set_commute(k);
        }
    }

    /// Makes the node with number `d` no root.
    fn unroot(&mut self, d: usize)
        requires
            old(self).wf(),
            d < old(self).nodes@.len(),
        ensures
            final(self).wf(),
            final(self).nodes@ == old(self).nodes@,
            final(self)@ == old(self)@,
            final(self).root_set() == old(self).root_set().remove(old(self).nodes@[d as int]@),
    {
        let mut kept: Vec<usize> = Vec::new();
        let mut i: usize = 0;
        while i < self.roots.len()
            invariant
                i <= self.roots@.len(),
                self.wf(),
                kept@.no_duplicates(),
                forall|j: int| 0 <= j < kept@.len() ==> kept@[j] != d && self.roots@.subrange(
                    0,
                    i as int,
                ).contains(#[trigger] kept@[j]),
                forall|j: int|
                    0 <= j < i && self.roots@[j] != d ==> kept@.contains(#[trigger] self.roots@[j]),
            decreases self.roots@.len() - i,
        {
            let r = self.roots[i];
            let ghost before = kept@;
            if r != d {
                proof {
                    if kept@.contains(r) {
                        let j = choose|j: int| 0 <= j < kept@.len() && kept@[j] == r;
                        let m = choose|m: int|
                            0 <= m < i && self.roots@.subrange(0, i as int)[m] == kept@[j];
                        assert(self.roots@[m] == self.roots@[i as int]);
                    }
                }
                kept.push(r);
            }
            proof {
                assert forall|j: int| 0 <= j < kept@.len() implies self.roots@.subrange(
                    0,
                    i + 1,
                ).contains(#[trigger] kept@[j]) by {
                    if j < before.len() {
                        let m = choose|m: int|
                            0 <= m < i && self.roots@.subrange(0, i as int)[m] == before[j];
                        assert(self.roots@.subrange(0, i + 1)[m] == kept@[j]);
                    } else {
                        assert(self.roots@.subrange(0, i + 1)[i as int] == kept@[j]);
                    }
                }
                assert forall|j: int| 0 <= j < i + 1 && self.roots@[j] != d implies kept@.contains(
                    #[trigger] self.roots@[j],
                ) by {
                    if j < i {
                        assert(before.contains(self.roots@[j]));
                        let m = choose|m: int| 0 <= m < before.len() && before[m] == self.roots@[j];
                        assert(kept@[m] == self.roots@[j]);
                    } else {
                        assert(kept@[kept@.len() - 1] == r);
                    }
                }
            }
            i += 1;
        }
        let ghost names = keys(self.nodes@);
        let ghost old_roots = self.roots@;
        proof {
            assert(old_roots.subrange(0, i as int) =~= old_roots);
            assert forall|k: I::V|
                named(names, kept@).to_set().contains(k) <==> named(names, old_roots).to_set().remove(
                    names[d as int],
                ).contains(k) by {
                if named(names, kept@).contains(k) {
                    let j = choose|j: int| 0 <= j < kept@.len() && named(names, kept@)[j] == k;
                    let m = choose|m: int| 0 <= m < old_roots.len() && old_roots[m] == kept@[j];
                    assert(named(names, old_roots)[m] == k);
                    assert(kept@[j] != d);
                    assert(names[kept@[j] as int] != names[d as int]);
                }
                if named(names, old_roots).contains(k) && k != names[d as int] {
                    let m = choose|m: int|
                        0 <= m < old_roots.len() && named(names, old_roots)[m] == k;
                    assert(old_roots[m] != d);
                    assert(kept@.contains(old_roots[m]));
                    let j = choose|j: int| 0 <= j < kept@.len() && kept@[j] == old_roots[m];
                    assert(named(names, kept@)[j] == k);
                }
            }
            assert(named(names, kept@).to_set() =~= named(names, old_roots).to_set().remove(
                names[d as int],
            ));
            assert forall|j: int| 0 <= j < kept@.len() implies (#[trigger] kept@[j])
                < self.nodes@.len() by {
                let m = choose|m: int| 0 <= m < old_roots.len() && old_roots[m] == kept@[j];
            }
        }
        self.roots = kept;
    }

    /// Writes `d` into the row of `v`, where the row does not hold it.
    fn link(&mut self, v: usize, d: usize)
        requires
            old(self).wf(),
            v < old(self).nodes@.len(),
            d < old(self).nodes@.len(),
        ensures
            final(self).wf(),
            final(self).nodes@ == old(self).nodes@,
            final(self).roots@ == old(self).roots@,
            final(self)@ == old(self)@.insert(
                old(self).nodes@[v as int]@,
                old(self)@[old(self).nodes@[v as int]@].insert(old(self).nodes@[d as int]@),
            ),
    {
        let ghost names = keys(self.nodes@);
        let ghost kv = names[v as int];
        let ghost kd = names[d as int];
        proof {
            lemma_index_of_name(names, v as int);
        }
        let mut i: usize = 0;
        while i < self.rows[v].len()
            invariant
                *self == *old(self),
                self.wf(),
                names == keys(self.nodes@),
                kv == names[v as int],
                kd == names[d as int],
                names.index_of(kv) == v,
                v < self.rows@.len(),
                d < self.rows@.len(),
                i <= self.rows@[v as int]@.len(),
                forall|j: int| 0 <= j < i ==> self.rows@[v as int]@[j] != d,
            decreases self.rows@[v as int]@.len() - i,
        {
            if self.rows[v][i] == d {
                proof {
                    assert(names[(self.rows@[v as int]@[i as int]) as int] == kd);
                    assert(self@[kv].contains(kd));
                    assert(self@[kv].insert(kd) =~= self@[kv]);
                    assert(self@.insert(kv, self@[kv]) =~= self@);
                }
                return ;
            }
            i += 1;
        }
        let mut row: Vec<usize> = Vec::new();
        let mut j: usize = 0;
        while j < self.rows[v].len()
            invariant
                v < self.rows@.len(),
                j <= self.rows@[v as int]@.len(),
                row@ == self.rows@[v as int]@.subrange(0, j as int),
            decreases self.rows@[v as int]@.len() - j,
        {
            row.push(self.rows[v][j]);
            j += 1;
            assert(row@ =~= self.rows@[v as int]@.subrange(0, j as int));
        }
        row.push(d);
        proof {
            assert(self.rows@[v as int]@.subrange(0, j as int) =~= self.rows@[v as int]@);
            lemma_named_push_edge(names, self.rows@, v as int, d, row);
        }
        self.rows.set(v, row);
    }

    /// Puts `node` into the graph, as a root without dependencies, unless
    /// the graph holds it already.
    pub fn add_node(&mut self, node: I)
        requires
            old(self).wf(),
        ensures
            final(self).wf(),
            final(self).shape() == with_root(old(self).shape(), node@),
    {
        let _ = self.ensure_node(node);
    }

    /// The number of `node`, which is put into the graph as a root without
    /// dependencies where the graph does not hold it yet.
    fn ensure_node(&mut self, node: I) -> (v: usize)
        requires
            old(self).wf(),
        ensures
            final(self).wf(),
            final(self).shape() == with_root(old(self).shape(), node@),
            v < final(self).nodes@.len(),
            final(self).nodes@[v as int]@ == node@,
            forall|j: int|
                0 <= j < old(self).nodes@.len() ==> j < final(self).nodes@.len()
                    && #[trigger] final(self).nodes@[j] == old(self).nodes@[j],
    {
        match self.number_of(&node) {
            Some(v) => {
                proof {
                    lemma_index_of_name(keys(self.nodes@), v as int);
                }
                v
            },
            None => {
                let v = self.push_node(node);
                self.root(v);
                proof {
                    assert(self.root_set() == old(self).root_set().insert(node@));
                }
                v
            },
        }
    }

    /// Makes `node` depend on `dep`. Both are put into the graph where it
    /// does not hold them. A `node` that is new becomes a root, and `dep` is
    /// a root no more.
    pub fn add_dep(&mut self, node: I, dep: I)
        requires
            old(self).wf(),
        ensures
            final(self).wf(),
            final(self).shape() == linked(old(self).shape(), node@, dep@),
    {
        let ghost kn = node@;
        let ghost kd = dep@;
        let v = self.ensure_node(node);
        let d = match self.number_of(&dep) {
            Some(d) => {
                proof {
                    lemma_index_of_name(keys(self.nodes@), d as int);
                }
                d
            },
            None => self.push_node(dep),
        };
        let ghost second = *self;
        proof {
            assert(second@ == with_node(with_node(old(self)@, kn), kd));
            assert(second.nodes@[v as int]@ == kn);
            assert(second.nodes@[d as int]@ == kd);
        }
        self.link(v, d);
        self.unroot(d);
        proof {
            assert(self@ == with_dep(old(self)@, kn, kd));
            assert(self.root_set() == with_root(old(self).shape(), kn).roots.remove(kd));
        }
    }

    /// Makes `node` depend on each of `deps`, in turn.
    pub fn add_deps(&mut self, node: &I, deps: &Vec<I>)
        requires
            old(self).wf(),
        ensures
            final(self).wf(),
            final(self).shape() == keys(deps@).fold_left(
                old(self).shape(),
                |s: Shape<I::V>, dep: I::V| linked(s, node@, dep),
            ),
    {
        let ghost step = |s: Shape<I::V>, dep: I::V| linked(s, node@, dep);
        let mut i: usize = 0;
        proof {
            assert(keys(deps@).subrange(0, 0) =~= Seq::<I::V>::empty());
        }
        while i < deps.len()
            invariant
                i <= deps@.len(),
                self.wf(),
                step == |s: Shape<I::V>, dep: I::V| linked(s, node@, dep),
                self.shape() == keys(deps@).subrange(0, i as int).fold_left(old(self).shape(), step),
            decreases deps@.len() - i,
        {
            let ghost before = keys(deps@).subrange(0, i as int);
            let ghost after = keys(deps@).subrange(0, i + 1);
            self.add_dep(node.duplicate(), deps[i].duplicate());
            proof {
                assert(after.drop_last() =~= before);
                assert(after.last() == deps@[i as int]@);
            }
            i += 1;
        }
        proof {
            assert(keys(deps@).subrange(0, i as int) =~= keys(deps@));
        }
    }

    /// The graph whose nodes are the given ones, each a root without
    /// dependencies.
    pub fn init(roots: Vec<I>) -> (g: Self)
        ensures
            g.wf(),
            g@.dom() == keys(roots@).to_set(),
            g.root_set() == keys(roots@).to_set(),
            forall|k: I::V| g@.dom().contains(k) ==> #[trigger] g@[k] == Set::<I::V>::empty(),
    {
        let mut g = Self::new();
        let mut i: usize = 0;
        proof {
            assert(keys(roots@.subrange(0, 0)).to_set() =~= Set::<I::V>::empty());
        }
        while i < roots.len()
            invariant
                i <= roots@.len(),
                g.wf(),
                g.root_set() == keys(roots@.subrange(0, i as int)).to_set(),
                g@.dom() == g.root_set(),
                forall|k: I::V| g@.dom().contains(k) ==> #[trigger] g@[k] == Set::<I::V>::empty(),
            decreases roots@.len() - i,
        {
            let ghost seen = keys(roots@.subrange(0, i as int));
            let ghost k = roots@[i as int]@;
            g.add_node(roots[i].duplicate());
            proof {
                assert(keys(roots@.subrange(0, i + 1)) =~= seen.push(k));
                seen.lemma_push_to_set_commute(k);
                assert(g@.dom() =~= g.root_set());
            }
            i += 1;
        }
        proof {
            assert(roots@.subrange(0, i as int) =~= roots@);
        }
        g
    }

    /// Makes the node with number `v` depend on `dep`, which is put into
    /// the graph where the graph does not hold it. The roots stay.
    fn connect(&mut self, v: usize, dep: &I)
        requires
            old(self).wf(),
            v < old(self).nodes@.len(),
        ensures
            final(self).wf(),
            final(self)@ == with_dep(old(self)@, old(self).nodes@[v as int]@, dep@),
            final(self).root_names() == old(self).root_names(),
            final(self).nodes@.len() >= old(self).nodes@.len(),
            forall|j: int|
                0 <= j < old(self).nodes@.len() ==> #[trigger] final(self).nodes@[j] == old(
                    self,
                ).nodes@[j],
    {
        proof {
            lemma_index_of_name(keys(self.nodes@), v as int);
        }
        let d = match self.number_of(dep) {
            Some(d) => {
                proof {
                    lemma_index_of_name(keys(self.nodes@), d as int);
                }
                d
            },
            None => self.push_node(dep.duplicate()),
        };
        self.link(v, d);
    }

    /// Makes `node`, which is put into the graph where the graph does not
    /// hold it, depend on the node with number `d`. The roots stay.
    fn connect_back(&mut self, node: &I, d: usize)
        requires
            old(self).wf(),
            d < old(self).nodes@.len(),
        ensures
            final(self).wf(),
            final(self)@ == with_dep(old(self)@, node@, old(self).nodes@[d as int]@),
            final(self).root_names() == old(self).root_names(),
            final(self).nodes@.len() >= old(self).nodes@.len(),
            forall|j: int|
                0 <= j < old(self).nodes@.len() ==> #[trigger] final(self).nodes@[j] == old(
                    self,
                ).nodes@[j],
    {
        proof {
            lemma_index_of_name(keys(self.nodes@), d as int);
        }
        let v = match self.number_of(node) {
            Some(v) => {
                proof {
                    lemma_index_of_name(keys(self.nodes@), v as int);
                }
                v
            },
            None => self.push_node(node.duplicate()),
        };
        proof {
            assert(self@ =~= with_node(with_node(old(self)@, node@), old(self).nodes@[d as int]@));
        }
        self.link(v, d);
    }

    /// The graph of the rules that the declarations lead to from the given
    /// roots.
    ///
    /// The declaration of each root is looked up once, and then that of each
    /// rule that a declaration names which was looked up, as a dependency or
    /// as a post-dependency. All of them are the nodes of the graph. A node
    /// depends on the dependencies that it declares and on the nodes that
    /// declare it their post-dependency.
    pub fn build<F: Fn(&I) -> DepsConf<I>>(roots: Vec<I>, get_deps_for: F) -> (g: Self)
        requires
            forall|n: I| call_requires(get_deps_for, (&n,)),
        ensures
            g.wf(),
            g.root_set() == keys(roots@).to_set(),
            exists|decls: Map<I::V, Declaration<I::V>>|
                {
                    &&& decls.dom() == g@.dom()
                    &&& #[trigger] declared_by(get_deps_for, decls)
                    &&& g@ == graph_of(keys(roots@).to_set(), decls)
                },
    {
        let asked = Total { lookup: get_deps_for };
        match Self::grow(roots, asked) {
            Ok(g) => {
                proof {
                    let decls = choose|decls: Map<I::V, Declaration<I::V>>|
                        {
                            &&& decls.dom() == g@.dom()
                            &&& #[trigger] told_by(asked, decls)
                            &&& g@ == graph_of(keys(roots@).to_set(), decls)
                        };
                    assert forall|k: I::V| #[trigger] decls.dom().contains(k) implies exists|
                        n: I,
                        conf: DepsConf<I>,
                    |
                        n@ == k && #[trigger] call_ensures(get_deps_for, (&n,), conf) && conf@
                            == decls[k] by {
                        let (n, conf) = choose|n: I, conf: DepsConf<I>|
                            n@ == k && #[trigger] asked.answers(n, Some(conf)) && conf@ == decls[k];
                        assert(call_ensures(get_deps_for, (&n,), conf));
                    }
                    assert(declared_by(get_deps_for, decls));
                }
                g
            },
            Err(rule) => {
                proof {
                    let n = choose|n: I|
                        n@ == rule@ && #[trigger] asked.answers(n, None::<DepsConf<I>>);
                    assert(false);
                }
                vstd::pervasive::unreached()
            },
        }
    }

    /// The graph of the rules that the declarations lead to from the given
    /// roots, or a rule among them that the lookup does not know.
    ///
    /// The declaration of each root is looked up once, and then that of each
    /// rule that a declaration names which was looked up, as a dependency or
    /// as a post-dependency. Where the lookup knows them all, they are the
    /// nodes of the graph. A node depends on the dependencies that it
    /// declares and on the nodes that declare it their post-dependency.
    pub fn try_build<F: Fn(&I) -> Option<DepsConf<I>>>(roots: Vec<I>, get_deps_for: F) -> (res:
        Result<Self, I>)
        requires
            forall|n: I| call_requires(get_deps_for, (&n,)),
        ensures
            match res {
                Ok(g) => {
                    &&& g.wf()
                    &&& g.root_set() == keys(roots@).to_set()
                    &&& exists|decls: Map<I::V, Declaration<I::V>>|
                        {
                            &&& decls.dom() == g@.dom()
                            &&& #[trigger] answered_by(get_deps_for, decls)
                            &&& g@ == graph_of(keys(roots@).to_set(), decls)
                        }
                },
                Err(rule) => {
                    &&& unknown_to(get_deps_for, rule@)
                    &&& exists|decls: Map<I::V, Declaration<I::V>>|
                        #[trigger] answered_by(get_deps_for, decls) && discovered(
                            keys(roots@).to_set(),
                            decls,
                            rule@,
                        )
                },
            },
    {
        let asked = Partial { lookup: get_deps_for };
        let res = Self::grow(roots, asked);
        proof {
            match &res {
                Ok(g) => {
                    let decls = choose|decls: Map<I::V, Declaration<I::V>>|
                        {
                            &&& decls.dom() == g@.dom()
                            &&& #[trigger] told_by(asked, decls)
                            &&& g@ == graph_of(keys(roots@).to_set(), decls)
                        };
                    lemma_partial_told(asked, decls);
                },
                Err(rule) => {
                    let decls = choose|decls: Map<I::V, Declaration<I::V>>|
                        #[trigger] told_by(asked, decls) && discovered(
                            keys(roots@).to_set(),
                            decls,
                            rule@,
                        );
                    lemma_partial_told(asked, decls);
                    let n = choose|n: I|
                        n@ == rule@ && #[trigger] asked.answers(n, None::<DepsConf<I>>);
                    assert(call_ensures(get_deps_for, (&n,), None::<DepsConf<I>>));
                },
            }
        }
        res
    }

    /// The graph of the rules that the declarations lead to from the given
    /// roots, or a rule among them of which nothing is known.
    fn grow<A: Ask<I>>(roots: Vec<I>, get_deps_for: A) -> (res: Result<Self, I>)
        requires
            forall|n: I| get_deps_for.ready(n),
        ensures
            match res {
                Ok(g) => {
                    &&& g.wf()
                    &&& g.root_set() == keys(roots@).to_set()
                    &&& exists|decls: Map<I::V, Declaration<I::V>>|
                        {
                            &&& decls.dom() == g@.dom()
                            &&& #[trigger] told_by(get_deps_for, decls)
                            &&& g@ == graph_of(keys(roots@).to_set(), decls)
                        }
                },
                Err(rule) => {
                    &&& exists|n: I|
                        n@ == rule@ && #[trigger] get_deps_for.answers(n, None::<DepsConf<I>>)
                    &&& exists|decls: Map<I::V, Declaration<I::V>>|
                        #[trigger] told_by(get_deps_for, decls) && discovered(
                            keys(roots@).to_set(),
                            decls,
                            rule@,
                        )
                },
            },
    {
        let ghost requested = keys(roots@).to_set();
        let mut g = Self::init(roots);
        let ghost mut decls = Map::<I::V, Declaration<I::V>>::empty();
        let mut next: usize = 0;
        proof {
            assert(keys(g.nodes@).subrange(0, 0).to_set() =~= decls.dom());
            assert forall|r: I::V| requested.contains(r) implies discovered(requested, decls, r) by {
                lemma_root_discovered(requested, decls, r);
            }
        }
        loop
            invariant
                forall|n: I| get_deps_for.ready(n),
                requested == keys(roots@).to_set(),
                g.wf(),
                g.root_set() == requested,
                next <= g.nodes@.len(),
                decls.dom() == keys(g.nodes@).subrange(0, next as int).to_set(),
                told_by(get_deps_for, decls),
                followed_up(requested, decls, g@),
            ensures
                next == g.nodes@.len(),
            decreases usize::MAX - next,
        {
            if next >= g.nodes.len() {
                break ;
            }
            let ghost names = keys(g.nodes@);
            let ghost rule = names[next as int];
            let ghost asked = g.nodes@[next as int];
            let conf = match get_deps_for.ask(&g.nodes[next]) {
                Some(conf) => conf,
                None => {
                    proof {
                        assert(g@.dom().contains(rule)) by {
                            lemma_index_of_name(names, next as int);
                        }
                        assert(asked@ == rule && get_deps_for.answers(asked, None::<DepsConf<I>>));
                    }
                    return Err(g.nodes[next].duplicate());
                },
            };
            proof {
                lemma_index_of_name(names, next as int);
                if decls.dom().contains(rule) {
                    let done = names.subrange(0, next as int);
                    let j = choose|j: int| 0 <= j < done.len() && done[j] == rule;
                    assert(names[j] == names[next as int]);
                }
                lemma_follow_up_begins(requested, decls, g@, rule, conf@);
            }
            let deps = conf.deps();
            let mut t: usize = 0;
            proof {
                assert(keys(deps@.subrange(0, 0)).to_set() =~= Set::<I::V>::empty());
            }
            while t < deps.len()
                invariant
                    t <= deps@.len(),
                    keys(deps@).to_set() == conf@.deps,
                    g.wf(),
                    g.root_set() == requested,
                    next < g.nodes@.len(),
                    g.nodes@[next as int] == asked,
                    asked@ == rule,
                    keys(g.nodes@).subrange(0, next as int) == names.subrange(0, next as int),
                    following_up(
                        requested,
                        decls,
                        g@,
                        rule,
                        conf@,
                        keys(deps@.subrange(0, t as int)).to_set(),
                        Set::empty(),
                    ),
                decreases deps@.len() - t,
            {
                let ghost seen = keys(deps@.subrange(0, t as int));
                let ghost m = deps@[t as int]@;
                let ghost before = g;
                proof {
                    assert(keys(deps@)[t as int] == m);
                    assert(keys(deps@).to_set().contains(m));
                    lemma_follow_up_dep(
                        requested,
                        decls,
                        g@,
                        rule,
                        conf@,
                        seen.to_set(),
                        Set::empty(),
                        m,
                    );
                }
                g.connect(next, &deps[t]);
                proof {
                    assert(keys(deps@.subrange(0, t + 1)) =~= seen.push(m));
                    seen.lemma_push_to_set_commute(m);
                    assert(keys(g.nodes@).subrange(0, next as int) =~= keys(
                        before.nodes@,
                    ).subrange(0, next as int));
                }
                t += 1;
            }
            let posts = conf.post_deps();
            let mut u: usize = 0;
            proof {
                assert(deps@.subrange(0, t as int) =~= deps@);
                assert(keys(posts@.subrange(0, 0)).to_set() =~= Set::<I::V>::empty());
            }
            while u < posts.len()
                invariant
                    u <= posts@.len(),
                    keys(posts@).to_set() == conf@.post_deps,
                    g.wf(),
                    g.root_set() == requested,
                    next < g.nodes@.len(),
                    g.nodes@[next as int] == asked,
                    asked@ == rule,
                    keys(g.nodes@).subrange(0, next as int) == names.subrange(0, next as int),
                    following_up(
                        requested,
                        decls,
                        g@,
                        rule,
                        conf@,
                        conf@.deps,
                        keys(posts@.subrange(0, u as int)).to_set(),
                    ),
                decreases posts@.len() - u,
            {
                let ghost seen = keys(posts@.subrange(0, u as int));
                let ghost m = posts@[u as int]@;
                let ghost before = g;
                proof {
                    assert(keys(posts@)[u as int] == m);
                    assert(keys(posts@).to_set().contains(m));
                    lemma_follow_up_post(
                        requested,
                        decls,
                        g@,
                        rule,
                        conf@,
                        conf@.deps,
                        seen.to_set(),
                        m,
                    );
                }
                g.connect_back(&posts[u], next);
                proof {
                    assert(keys(posts@.subrange(0, u + 1)) =~= seen.push(m));
                    seen.lemma_push_to_set_commute(m);
                    assert(keys(g.nodes@).subrange(0, next as int) =~= keys(
                        before.nodes@,
                    ).subrange(0, next as int));
                }
                u += 1;
            }
            proof {
                assert(posts@.subrange(0, u as int) =~= posts@);
                lemma_follow_up_ends(requested, decls, g@, rule, conf@);
                let more = decls.insert(rule, conf@);
                assert forall|k: I::V| #[trigger] more.dom().contains(k) implies exists|
                    n: I,
                    c: DepsConf<I>,
                |
                    n@ == k && #[trigger] get_deps_for.answers(n, Some(c)) && c@ == more[k] by {
                    if k == rule {
                        assert(asked@ == k && get_deps_for.answers(asked, Some(conf)) && conf@
                            == more[k]);
                    } else {
                        assert(decls.dom().contains(k));
                        let (n, c) = choose|n: I, c: DepsConf<I>|
                            n@ == k && #[trigger] get_deps_for.answers(n, Some(c)) && c@
                                == decls[k];
                        assert(n@ == k && get_deps_for.answers(n, Some(c)) && c@ == more[k]);
                    }
                }
                let done = keys(g.nodes@).subrange(0, next as int);
                let more_done = keys(g.nodes@).subrange(0, next + 1);
                assert(more_done =~= done.push(rule));
                done.lemma_push_to_set_commute(rule);
                assert(more.dom() =~= more_done.to_set());
                decls = more;
            }
            next += 1;
        }
        proof {
            assert(keys(g.nodes@).subrange(0, next as int) =~= keys(g.nodes@));
            g.lemma_nodes();
            assert(decls.dom() =~= g@.dom());
            lemma_followed_up_is_graph(requested, decls, g@);
        }
        Ok(g)
    }

    /// The roots of the graph.
    pub fn roots<'a>(&'a self) -> (roots: Vec<&'a I>)
        requires
            self.wf(),
        ensures
            keys(roots@) == self.root_names(),
    {
        let mut roots: Vec<&'a I> = Vec::new();
        let mut i: usize = 0;
        while i < self.roots.len()
            invariant
                i <= self.roots@.len(),
                self.wf(),
                roots@.len() == i,
                forall|j: int| 0 <= j < i ==> (#[trigger] roots@[j])@ == self.nodes@[self.roots@[j] as int]@,
            decreases self.roots@.len() - i,
        {
            roots.push(&self.nodes[self.roots[i]]);
            i += 1;
        }
        assert(keys(roots@) =~= self.root_names());
        roots
    }

    /// The nodes with the given numbers, borrowed.
    fn borrowed<'a>(&'a self, numbers: &Vec<usize>) -> (nodes: Vec<&'a I>)
        requires
            forall|i: int| 0 <= i < numbers@.len() ==> (#[trigger] numbers@[i]) < self.nodes@.len(),
        ensures
            keys(nodes@) == named(keys(self.nodes@), numbers@),
    {
        let mut nodes: Vec<&'a I> = Vec::new();
        let mut i: usize = 0;
        while i < numbers.len()
            invariant
                i <= numbers@.len(),
                forall|i: int| 0 <= i < numbers@.len() ==> (#[trigger] numbers@[i]) < self.nodes@.len(),
                nodes@.len() == i,
                forall|j: int| 0 <= j < i ==> (#[trigger] nodes@[j])@ == self.nodes@[numbers@[j] as int]@,
            decreases numbers@.len() - i,
        {
            nodes.push(&self.nodes[numbers[i]]);
            i += 1;
        }
        assert(keys(nodes@) =~= named(keys(self.nodes@), numbers@));
        nodes
    }

    /// The nodes with the given numbers, as values of their own.
    fn owned(&self, numbers: &Vec<usize>) -> (nodes: Vec<I>)
        requires
            forall|i: int| 0 <= i < numbers@.len() ==> (#[trigger] numbers@[i]) < self.nodes@.len(),
        ensures
            keys(nodes@) == named(keys(self.nodes@), numbers@),
    {
        let mut nodes: Vec<I> = Vec::new();
        let mut i: usize = 0;
        while i < numbers.len()
            invariant
                i <= numbers@.len(),
                forall|i: int| 0 <= i < numbers@.len() ==> (#[trigger] numbers@[i]) < self.nodes@.len(),
                nodes@.len() == i,
                forall|j: int| 0 <= j < i ==> (#[trigger] nodes@[j])@ == self.nodes@[numbers@[j] as int]@,
            decreases numbers@.len() - i,
        {
            nodes.push(self.nodes[numbers[i]].duplicate());
            i += 1;
        }
        assert(keys(nodes@) =~= named(keys(self.nodes@), numbers@));
        nodes
    }

    /// Puts all nodes of the graph in one order in which every node stands
    /// after all of its dependencies, the roots and what they depend on
    /// first.
    ///
    /// There is such an order exactly where the graph has no cycle. Where it
    /// has one, the error shows a cycle: a path along dependencies from a
    /// node back to itself, through no other node twice.
    pub fn resolve<'a>(&'a self) -> (res: Result<Vec<&'a I>, CycleError<I>>)
        requires
            self.wf(),
        ensures
            match res {
                Ok(order) => linearizes(self@, keys(order@)),
                Err(e) => is_simple_cycle(self@, keys(e.nodes())),
            },
            res is Ok <==> acyclic(self@),
    {
        let ghost names = keys(self.nodes@);
        let out = traverse(&self.rows, &self.roots, false);
        if out.loops.len() == 0 {
            proof {
                assert(closing_edges(out.loops@) =~= Set::<(usize, usize)>::empty());
                lemma_named_order(
                    names,
                    self.rows@,
                    out.order@,
                    Set::<(usize, usize)>::empty(),
                    Set::<(I::V, I::V)>::empty(),
                );
                assert forall|i: int| 0 <= i < out.order@.len() implies (#[trigger] out.order@[i])
                    < self.nodes@.len() by {
                    assert(out.order@.contains(out.order@[i]));
                    assert(adjacency(self.rows@).dom().contains(out.order@[i]));
                }
            }
            let order = self.borrowed(&out.order);
            proof {
                lemma_linearized_is_acyclic(self@, keys(order@));
            }
            Ok(order)
        } else {
            let numbers = &out.loops[0];
            proof {
                lemma_named_cycle(names, self.rows@, numbers@);
                assert forall|i: int| 0 <= i < numbers@.len() implies (#[trigger] numbers@[i])
                    < self.nodes@.len() by {
                    assert(adjacency(self.rows@).dom().contains(numbers@[i]));
                }
            }
            let nodes = self.owned(numbers);
            let e = CycleError::new(Path::new(nodes));
            proof {
                assert(is_cycle(self@, keys(e.nodes())));
            }
            Err(e)
        }
    }

    /// Cycles of the graph, each as a path along dependencies from a node
    /// back to itself, through no other node twice.
    ///
    /// Every cycle of the graph passes through the last edge of one of
    /// them; so there are none exactly where the graph has no cycle.
    pub fn find_loops(&self) -> (loops: Vec<Vec<I>>)
        requires
            self.wf(),
        ensures
            forall|k: int|
                0 <= k < loops@.len() ==> is_simple_cycle(self@, keys(#[trigger] loops@[k]@)),
            forall|p: Seq<I::V>|
                is_cycle(self@, p) ==> exists|i: int|
                    0 <= i < p.len() - 1 && closing(key_paths(loops@)).contains(
                        (#[trigger] p[i], p[i + 1]),
                    ),
            loops@.len() == 0 <==> acyclic(self@),
    {
        let ghost names = keys(self.nodes@);
        let out = traverse(&self.rows, &self.roots, true);
        let mut loops: Vec<Vec<I>> = Vec::new();
        let mut k: usize = 0;
        while k < out.loops.len()
            invariant
                k <= out.loops@.len(),
                self.wf(),
                names == keys(self.nodes@),
                loops@.len() == k,
                forall|m: int|
                    0 <= m < out.loops@.len() ==> is_simple_cycle(
                        adjacency(self.rows@),
                        #[trigger] out.loops@[m]@,
                    ),
                forall|m: int|
                    0 <= m < k ==> keys(#[trigger] loops@[m]@) == named(names, out.loops@[m]@),
            decreases out.loops@.len() - k,
        {
            let numbers = &out.loops[k];
            proof {
                assert forall|i: int| 0 <= i < numbers@.len() implies (#[trigger] numbers@[i])
                    < self.nodes@.len() by {
                    assert(adjacency(self.rows@).dom().contains(numbers@[i]));
                }
            }
            loops.push(self.owned(numbers));
            k += 1;
        }
        proof {
            let named_loops = key_paths(loops@);
            assert forall|m: int| 0 <= m < loops@.len() implies is_simple_cycle(
                self@,
                keys(#[trigger] loops@[m]@),
            ) by {
                lemma_named_cycle(names, self.rows@, out.loops@[m]@);
            }
            lemma_named_closing(names, out.loops@, named_loops);
            let order = named(names, out.order@);
            lemma_named_order(
                names,
                self.rows@,
                out.order@,
                closing_edges(out.loops@),
                closing(named_loops),
            );
            assert forall|p: Seq<I::V>| is_cycle(self@, p) implies exists|i: int|
                0 <= i < p.len() - 1 && closing(named_loops).contains(
                    (#[trigger] p[i], p[i + 1]),
                ) by {
                lemma_cycle_meets_excused(self@, order, closing(named_loops), p);
            }
            if loops@.len() == 0 {
                assert(closing(named_loops) =~= Set::<(I::V, I::V)>::empty());
                lemma_linearized_is_acyclic(self@, order);
            } else {
                assert(is_cycle(self@, keys(loops@[0]@)));
            }
        }
        loops
    }
}

/// Goes through the nodes of a graph in an order in which every node
/// stands after all of its dependencies.
pub struct DepsIter<'a, I: Node> {
    order: Vec<&'a I>,
    at: usize,
}

impl<'a, I: Node> DepsIter<'a, I> {
    #[verifier::type_invariant]
    spec fn inv(self) -> bool {
        self.at <= self.order@.len()
    }

    /// The nodes that are still to come, in their order.
    pub closed spec fn remaining(&self) -> Seq<&'a I> {
        self.order@.subrange(self.at as int, self.order@.len() as int)
    }

    /// The next node, if one is left.
    pub fn next(&mut self) -> (node: Option<&'a I>)
        ensures
            match node {
                Some(n) => old(self).remaining().len() > 0 && n == old(self).remaining()[0]
                    && final(self).remaining() == old(self).remaining().drop_first(),
                None => old(self).remaining().len() == 0 && final(self).remaining() == old(
                    self,
                ).remaining(),
            },
    {
        proof {
            use_type_invariant(&*self);
        }
        if self.at < self.order.len() {
            let node = self.order[self.at];
            self.at = self.at + 1;
            proof {
                assert(self.remaining() =~= old(self).remaining().drop_first());
            }
            Some(node)
        } else {
            None
        }
    }
}

impl<I: Node> DepsGraph<I> {
    /// Goes through all nodes of the graph in an order in which every node
    /// stands after all of its dependencies; the error shows a cycle where
    /// the graph has one.
    pub fn iter<'a>(&'a self) -> (res: Result<DepsIter<'a, I>, CycleError<I>>)
        requires
            self.wf(),
        ensures
            match res {
                Ok(nodes) => linearizes(self@, keys(nodes.remaining())),
                Err(e) => is_simple_cycle(self@, keys(e.nodes())),
            },
            res is Ok <==> acyclic(self@),
    {
        match self.resolve() {
            Ok(order) => {
                let nodes = DepsIter { order, at: 0 };
                proof {
                    assert(nodes.remaining() =~= order@);
                }
                Ok(nodes)
            },
            Err(e) => Err(e),
        }
    }
}

} // verus!
