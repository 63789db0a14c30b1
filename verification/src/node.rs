//! What a value has to offer to stand for a node of a dependency graph.

use crate::text::{decimal, signed_text, unsigned_text};
use vstd::prelude::*;

verus! {

/// The nodes that the given values name.
pub open spec fn keys<I: View>(items: Seq<I>) -> Seq<I::V> {
    Seq::new(items.len(), |i: int| items[i]@)
}

/// The texts that messages show for the given nodes.
pub open spec fn labels<I: Node>(items: Seq<I>) -> Seq<Seq<char>> {
    Seq::new(items.len(), |i: int| items[i].label())
}

/// A value that names a node.
///
/// Two values name the same node when their views are equal.
pub trait Node: Sized + View {
    /// The text that a message shows for the node.
    spec fn label(&self) -> Seq<char>;

    /// Whether `self` and `other` name the same node.
    fn same(&self, other: &Self) -> (b: bool)
        ensures
            b == (self@ == other@),
    ;

    /// Another value for the same node.
    fn duplicate(&self) -> (copy: Self)
        ensures
            copy@ == self@,
    ;

    /// The text that a message shows for the node.
    fn to_text(&self) -> (s: String)
        ensures
            s@ == self.label(),
    ;
}

impl Node for i32 {
    open spec fn label(&self) -> Seq<char> {
        decimal(*self as int)
    }

    fn same(&self, other: &Self) -> (b: bool) {
        *self == *other
    }

    fn duplicate(&self) -> (copy: Self) {
        *self
    }

    fn to_text(&self) -> (s: String) {
        signed_text(*self as i64)
    }
}

impl Node for u64 {
    open spec fn label(&self) -> Seq<char> {
        decimal(*self as int)
    }

    fn same(&self, other: &Self) -> (b: bool) {
        *self == *other
    }

    fn duplicate(&self) -> (copy: Self) {
        *self
    }

    fn to_text(&self) -> (s: String) {
        unsigned_text(*self)
    }
}

impl Node for usize {
    open spec fn label(&self) -> Seq<char> {
        decimal(*self as int)
    }

    fn same(&self, other: &Self) -> (b: bool) {
        *self == *other
    }

    fn duplicate(&self) -> (copy: Self) {
        *self
    }

    fn to_text(&self) -> (s: String) {
        unsigned_text(*self as u64)
    }
}

} // verus!
