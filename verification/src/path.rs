//! Paths through a dependency graph, and the cycles among them.

use crate::node::{keys, labels, Node};
use crate::text::joined;
use vstd::prelude::*;
use vstd::string::StringExecFns;

verus! {

/// The texts one after another, with an arrow between each two.
pub open spec fn arrowed(texts: Seq<Seq<char>>) -> Seq<char> {
    joined(texts, seq![' ', '-', '>', ' '])
}

/// The text of the nodes with an arrow between each two.
fn arrowed_text<I: Node>(nodes: &Vec<I>) -> (s: String)
    ensures
        s@ == arrowed(labels(nodes@)),
{
    let mut s = String::new();
    let mut i: usize = 0;
    proof {
        reveal_strlit(" -> ");
        assert(labels(nodes@.subrange(0, 0)) =~= Seq::<Seq<char>>::empty());
    }
    while i < nodes.len()
        invariant
            i <= nodes@.len(),
            s@ == arrowed(labels(nodes@.subrange(0, i as int))),
            " -> "@ == seq![' ', '-', '>', ' '],
        decreases nodes@.len() - i,
    {
        let ghost before = labels(nodes@.subrange(0, i as int));
        let ghost after = labels(nodes@.subrange(0, i + 1));
        if i > 0 {
            s.append(" -> ");
        }
        let text = nodes[i].to_text();
        s.append(text.as_str());
        proof {
            assert(after.drop_last() =~= before);
            assert(after.last() == nodes@[i as int].label());
            if i == 0 {
                assert(s@ =~= after[0]);
            } else {
                assert(s@ =~= arrowed(before) + seq![' ', '-', '>', ' '] + after.last());
            }
        }
        i += 1;
    }
    assert(nodes@.subrange(0, i as int) =~= nodes@);
    s
}

/// A path in a dependency graph: at least one node.
#[derive(Debug, PartialEq, Eq)]
pub struct Path<I> {
    path: Vec<I>,
}

impl<I> View for Path<I> {
    type V = Seq<I>;

    closed spec fn view(&self) -> Seq<I> {
        self.path@
    }
}

impl<I> Path<I> {
    #[verifier::type_invariant]
    spec fn inv(self) -> bool {
        self.path@.len() > 0
    }

    /// A path through the given nodes.
    pub fn new(path: Vec<I>) -> (p: Self)
        requires
            path@.len() > 0,
        ensures
            p@ == path@,
    {
        Path { path }
    }

    /// The nodes of the path.
    pub fn as_vec(&self) -> (nodes: &Vec<I>)
        ensures
            nodes@ == self@,
            nodes@.len() > 0,
    {
        proof {
            use_type_invariant(self);
        }
        &self.path
    }

    /// The nodes of the path.
    pub fn into_vec(self) -> (nodes: Vec<I>)
        ensures
            nodes@ == self@,
            nodes@.len() > 0,
    {
        proof {
            use_type_invariant(&self);
        }
        self.path
    }

    /// How many nodes the path has.
    pub fn len(&self) -> (n: usize)
        ensures
            n == self@.len(),
            n > 0,
    {
        proof {
            use_type_invariant(self);
        }
        self.path.len()
    }

    /// The node that the path starts with.
    pub fn first(&self) -> (node: &I)
        ensures
            *node == self@.first(),
    {
        proof {
            use_type_invariant(self);
        }
        &self.path[0]
    }

    /// The node that the path ends with.
    pub fn last(&self) -> (node: &I)
        ensures
            *node == self@.last(),
    {
        proof {
            use_type_invariant(self);
        }
        &self.path[self.path.len() - 1]
    }
}

impl<I: Node> Path<I> {
    /// The nodes of the path with an arrow from each to the next.
    pub fn to_string(&self) -> (s: String)
        ensures
            s@ == arrowed(labels(self@)),
    {
        arrowed_text(&self.path)
    }
}

impl<'a, I: Node> Path<&'a I> {
    /// The same path, holding values of its own in place of borrowed ones.
    pub fn own_nodes(&self) -> (owned: Path<I>)
        ensures
            keys(owned@) == keys(self@),
    {
        proof {
            use_type_invariant(self);
        }
        let mut nodes: Vec<I> = Vec::new();
        let mut i: usize = 0;
        while i < self.path.len()
            invariant
                i <= self.path@.len(),
                nodes@.len() == i,
                forall|j: int| 0 <= j < i ==> (#[trigger] nodes@[j])@ == self.path@[j]@,
            decreases self.path@.len() - i,
        {
            nodes.push(self.path[i].duplicate());
            i += 1;
        }
        assert(keys(nodes@) =~= keys(self.path@));
        Path::new(nodes)
    }
}

/// A path of at least one edge that ends at the node it starts from.
pub open spec fn returns_to_start<I: View>(nodes: Seq<I>) -> bool {
    nodes.len() > 1 && nodes.first()@ == nodes.last()@
}

/// Says that a dependency graph holds a cycle, and which, so that it cannot
/// be resolved.
#[derive(Debug, PartialEq, Eq)]
pub struct CycleError<I: Node> {
    path: Path<I>,
}

impl<I: Node> CycleError<I> {
    #[verifier::type_invariant]
    spec fn inv(self) -> bool {
        returns_to_start(self.path@)
    }

    /// The nodes of the cycle, the first of them once more at the end.
    pub closed spec fn nodes(&self) -> Seq<I> {
        self.path@
    }

    /// An error for the cycle that `path` runs through.
    pub fn new(path: Path<I>) -> (e: Self)
        requires
            returns_to_start(path@),
        ensures
            e.nodes() == path@,
    {
        CycleError { path }
    }

    /// The path of the cycle.
    pub fn path(&self) -> (p: &Path<I>)
        ensures
            p@ == self.nodes(),
            returns_to_start(p@),
    {
        proof {
            use_type_invariant(self);
        }
        &self.path
    }

    /// The path of the cycle.
    pub fn into_path(self) -> (p: Path<I>)
        ensures
            p@ == self.nodes(),
            returns_to_start(p@),
    {
        proof {
            use_type_invariant(&self);
        }
        self.path
    }

    /// The message of the error: what was found, and the cycle's path.
    pub fn to_string(&self) -> (s: String)
        ensures
            s@ == "Found cycle in dependencies graph: "@ + arrowed(labels(self.nodes())),
    {
        let mut s = String::from_str("Found cycle in dependencies graph: ");
        let path = self.path.to_string();
        s.append(path.as_str());
        s
    }
}

/// A chain of dependencies that comes back to the node it starts from.
#[derive(Debug, PartialEq, Eq)]
pub struct Cycle<I: Node> {
    cycle: Vec<I>,
}

impl<I: Node> View for Cycle<I> {
    type V = Seq<I>;

    closed spec fn view(&self) -> Seq<I> {
        self.cycle@
    }
}

impl<I: Node> Cycle<I> {
    #[verifier::type_invariant]
    spec fn inv(self) -> bool {
        self.cycle@.len() > 0 && self.cycle@.first()@ == self.cycle@.last()@
    }

    /// The cycle through the given nodes, the first of them once more at
    /// the end.
    pub fn new(cycle: Vec<I>) -> (c: Self)
        requires
            cycle@.len() > 0,
            cycle@.first()@ == cycle@.last()@,
        ensures
            c@ == cycle@,
    {
        Cycle { cycle }
    }

    /// The nodes of the cycle.
    pub fn nodes(&self) -> (nodes: &Vec<I>)
        ensures
            nodes@ == self@,
            nodes@.len() > 0,
            nodes@.first()@ == nodes@.last()@,
    {
        proof {
            use_type_invariant(self);
        }
        &self.cycle
    }

    /// The nodes of the cycle with an arrow from each to the next.
    pub fn to_string(&self) -> (s: String)
        ensures
            s@ == arrowed(labels(self@)),
    {
        arrowed_text(&self.cycle)
    }
}

} // verus!
