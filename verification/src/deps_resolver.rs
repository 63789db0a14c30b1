//! What a rule declares about its place among the other rules, and the
//! resolution of requested rules into the order in which to perform them.

use crate::declare::{complete, discovered, graph_of, Declaration};
use crate::deps_graph::{answered_by, unknown_to, DepsGraph};
use crate::graph::{is_simple_cycle, linearizes};
use crate::items::{join_into, without};
use crate::node::{keys, Node};
use crate::path::Cycle;
use vstd::prelude::*;

verus! {

/// The declarations of one rule: the rules that have to be performed before
/// it, and the rules that have to be performed after it.
#[derive(Debug)]
pub struct DepsConf<I: Node> {
    deps: Vec<I>,
    post_deps: Vec<I>,
}

impl<I: Node> View for DepsConf<I> {
    type V = Declaration<I::V>;

    closed spec fn view(&self) -> Declaration<I::V> {
        Declaration { deps: keys(self.deps@).to_set(), post_deps: keys(self.post_deps@).to_set() }
    }
}

impl<I: Node> DepsConf<I> {
    #[verifier::type_invariant]
    spec fn inv(self) -> bool {
        keys(self.deps@).no_duplicates() && keys(self.post_deps@).no_duplicates()
    }

    /// A declaration that names no rule.
    pub fn new() -> (conf: Self)
        ensures
            conf@.deps == Set::<I::V>::empty(),
            conf@.post_deps == Set::<I::V>::empty(),
    {
        let conf = DepsConf { deps: Vec::new(), post_deps: Vec::new() };
        assert(conf@.deps =~= Set::<I::V>::empty());
        assert(conf@.post_deps =~= Set::<I::V>::empty());
        conf
    }

    /// The rules that have to be performed before this one, each once.
    pub fn deps(&self) -> (deps: &Vec<I>)
        ensures
            keys(deps@).no_duplicates(),
            keys(deps@).to_set() == self@.deps,
    {
        proof {
            use_type_invariant(self);
        }
        &self.deps
    }

    /// The rules that have to be performed after this one, each once.
    pub fn post_deps(&self) -> (post_deps: &Vec<I>)
        ensures
            keys(post_deps@).no_duplicates(),
            keys(post_deps@).to_set() == self@.post_deps,
    {
        proof {
            use_type_invariant(self);
        }
        &self.post_deps
    }

    /// Another declaration of the same.
    pub fn duplicate(&self) -> (copy: Self)
        ensures
            copy@ == self@,
    {
        proof {
            use_type_invariant(self);
        }
        let mut deps: Vec<I> = Vec::new();
        let mut post_deps: Vec<I> = Vec::new();
        join_into(&mut deps, &self.deps);
        join_into(&mut post_deps, &self.post_deps);
        let copy = DepsConf { deps, post_deps };
        assert(copy@.deps =~= self@.deps);
        assert(copy@.post_deps =~= self@.post_deps);
        copy
    }

    /// Declares the given rules as dependencies too.
    pub fn add_deps(&mut self, deps: Vec<I>)
        ensures
            final(self)@.deps == old(self)@.deps.union(keys(deps@).to_set()),
            final(self)@.post_deps == old(self)@.post_deps,
    {
        proof {
            use_type_invariant(&*self);
        }
        let mut joined: Vec<I> = Vec::new();
        std::mem::swap(&mut self.deps, &mut joined);
        join_into(&mut joined, &deps);
        self.deps = joined;
    }

    /// Declares the given rules as post-dependencies too.
    pub fn add_post_deps(&mut self, post_deps: Vec<I>)
        ensures
            final(self)@.deps == old(self)@.deps,
            final(self)@.post_deps == old(self)@.post_deps.union(keys(post_deps@).to_set()),
    {
        proof {
            use_type_invariant(&*self);
        }
        let mut joined: Vec<I> = Vec::new();
        std::mem::swap(&mut self.post_deps, &mut joined);
        join_into(&mut joined, &post_deps);
        self.post_deps = joined;
    }

    /// Declares what `other` declares too.
    pub fn merge(&mut self, other: Self)
        ensures
            final(self)@.deps == old(self)@.deps.union(other@.deps),
            final(self)@.post_deps == old(self)@.post_deps.union(other@.post_deps),
    {
        proof {
            use_type_invariant(&*self);
        }
        let DepsConf { deps, post_deps } = other;
        self.add_deps(deps);
        self.add_post_deps(post_deps);
    }

    /// Declares none of the given rules as a dependency any more.
    pub fn remove_deps(&mut self, deps: &Vec<I>)
        ensures
            final(self)@.deps == old(self)@.deps.difference(keys(deps@).to_set()),
            final(self)@.post_deps == old(self)@.post_deps,
    {
        proof {
            use_type_invariant(&*self);
        }
        self.deps = without(&self.deps, deps);
    }

    /// Declares none of the given rules as a post-dependency any more.
    pub fn remove_post_deps(&mut self, post_deps: &Vec<I>)
        ensures
            final(self)@.deps == old(self)@.deps,
            final(self)@.post_deps == old(self)@.post_deps.difference(keys(post_deps@).to_set()),
    {
        proof {
            use_type_invariant(&*self);
        }
        self.post_deps = without(&self.post_deps, post_deps);
    }

    /// Declares nothing any more that `other` declares.
    pub fn disjoin(&mut self, other: &Self)
        ensures
            final(self)@.deps == old(self)@.deps.difference(other@.deps),
            final(self)@.post_deps == old(self)@.post_deps.difference(other@.post_deps),
    {
        proof {
            use_type_invariant(&*self);
        }
        self.deps = without(&self.deps, &other.deps);
        self.post_deps = without(&self.post_deps, &other.post_deps);
    }
}

/// Why requested rules could not be resolved.
#[derive(Debug, PartialEq, Eq)]
pub enum ResolveError<I: Node> {
    /// A rule that was requested, or that a declaration names, is not
    /// known.
    UnknownIdentifier(I),
    /// The rules depend on each other in a cycle.
    CycleDetected(Cycle<I>),
}

/// Resolves requested rules, with what they depend on and what depends on
/// them, into the order in which to perform them.
pub struct DepsResolver<I: Node, F> {
    roots: Vec<I>,
    get_deps_for: F,
}

impl<I: Node, F: Fn(&I) -> Option<DepsConf<I>>> DepsResolver<I, F> {
    /// The rules that were requested.
    pub closed spec fn roots(&self) -> Seq<I> {
        self.roots@
    }

    /// The lookup that says what a rule declares.
    pub closed spec fn lookup(&self) -> F {
        self.get_deps_for
    }

    /// A resolver for the requested rules `roots`, which asks
    /// `get_deps_for` what a rule declares.
    pub fn init(roots: Vec<I>, get_deps_for: F) -> (resolver: Self)
        ensures
            resolver.roots() == roots@,
            resolver.lookup() == get_deps_for,
    {
        DepsResolver { roots, get_deps_for }
    }

    /// The requested rules and every rule that the declarations lead to
    /// from them, each once, and each after all the rules it depends on.
    ///
    /// A rule depends on the dependencies that it declares and on the rules
    /// that declare it their post-dependency. Where the lookup does not
    /// know one of the rules, the error names that rule. Where the rules
    /// depend on each other in a cycle, the error shows a cycle.
    pub fn try_resolve(self) -> (res: Result<Vec<I>, ResolveError<I>>)
        requires
            forall|n: I| call_requires(self.lookup(), (&n,)),
        ensures
            exists|decls: Map<I::V, Declaration<I::V>>|
                {
                    let requested = keys(self.roots()).to_set();
                    &&& #[trigger] answered_by(self.lookup(), decls)
                    &&& !(res matches Err(ResolveError::UnknownIdentifier(_))) ==> complete(
                        requested,
                        decls,
                    )
                    &&& match res {
                        Ok(order) => linearizes(graph_of(requested, decls), keys(order@)),
                        Err(ResolveError::UnknownIdentifier(rule)) => discovered(
                            requested,
                            decls,
                            rule@,
                        ),
                        Err(ResolveError::CycleDetected(cycle)) => is_simple_cycle(
                            graph_of(requested, decls),
                            keys(cycle@),
                        ),
                    }
                },
            res matches Err(ResolveError::UnknownIdentifier(rule)) ==> unknown_to(
                self.lookup(),
                rule@,
            ),
    {
        let ghost requested = keys(self.roots()).to_set();
        let ghost lookup = self.lookup();
        let DepsResolver { roots, get_deps_for } = self;
        assert(get_deps_for == lookup);
        assert(roots@ == self.roots());
        match DepsGraph::try_build(roots, get_deps_for) {
            Err(rule) => {
                proof {
                    let decls = choose|decls: Map<I::V, Declaration<I::V>>|
                        #[trigger] answered_by(lookup, decls) && discovered(
                            requested,
                            decls,
                            rule@,
                        );
                    assert(answered_by(lookup, decls) && discovered(requested, decls, rule@));
                }
                Err(ResolveError::UnknownIdentifier(rule))
            },
            Ok(graph) => {
                let ghost decls = choose|decls: Map<I::V, Declaration<I::V>>|
                    {
                        &&& decls.dom() == graph@.dom()
                        &&& #[trigger] answered_by(lookup, decls)
                        &&& graph@ == graph_of(requested, decls)
                    };
                match graph.resolve() {
                    Ok(order) => {
                        let mut owned: Vec<I> = Vec::new();
                        let mut i: usize = 0;
                        while i < order.len()
                            invariant
                                i <= order@.len(),
                                owned@.len() == i,
                                forall|j: int| 0 <= j < i ==> (#[trigger] owned@[j])@ == order@[j]@,
                            decreases order@.len() - i,
                        {
                            owned.push(order[i].duplicate());
                            i += 1;
                        }
                        proof {
                            assert(keys(owned@) =~= keys(order@));
                            assert(complete(requested, decls));
                            assert(answered_by(lookup, decls) && linearizes(
                                graph_of(requested, decls),
                                keys(owned@),
                            ));
                        }
                        Ok(owned)
                    },
                    Err(e) => {
                        let nodes = e.into_path().into_vec();
                        let cycle = Cycle::new(nodes);
                        proof {
                            assert(complete(requested, decls));
                            assert(answered_by(lookup, decls) && is_simple_cycle(
                                graph_of(requested, decls),
                                keys(cycle@),
                            ));
                        }
                        Err(ResolveError::CycleDetected(cycle))
                    },
                }
            },
        }
    }
}

} // verus!
