//! Lists that a configuration may write as one item or as a sequence.

use vstd::prelude::*;

verus! {

/// What a configuration wrote where a list is expected: a sequence of
/// items, or one item that stands for the sequence of just that item.
#[derive(Debug)]
pub enum ListEnum<T> {
    Sequence(Vec<T>),
    Singletone(T),
}

impl<T> ListEnum<T> {
    /// The items, in their order.
    pub open spec fn items(self) -> Seq<T> {
        match self {
            ListEnum::Sequence(vec) => vec@,
            ListEnum::Singletone(elem) => seq![elem],
        }
    }

    /// The items as a vector.
    pub fn to_vec(self) -> (vec: Vec<T>)
        ensures
            vec@ == self.items(),
    {
        match self {
            ListEnum::Sequence(vec) => vec,
            ListEnum::Singletone(elem) => {
                let mut vec = Vec::new();
                vec.push(elem);
                assert(vec@ =~= seq![elem]);
                vec
            },
        }
    }

    /// The items as a list.
    pub fn to_list(self) -> (list: List<T>)
        ensures
            list@ == self.items(),
    {
        List { vec: self.to_vec() }
    }
}

/// A sequence of items.
#[derive(Debug)]
pub struct List<T> {
    vec: Vec<T>,
}

impl<T> View for List<T> {
    type V = Seq<T>;

    closed spec fn view(&self) -> Seq<T> {
        self.vec@
    }
}

impl<T> List<T> {
    /// The list without items.
    pub fn new() -> (list: Self)
        ensures
            list@ == Seq::<T>::empty(),
    {
        List { vec: Vec::new() }
    }

    /// The list of the given items.
    pub fn from_vec(vec: Vec<T>) -> (list: Self)
        ensures
            list@ == vec@,
    {
        List { vec }
    }

    /// The items of the list.
    pub fn as_vec(&self) -> (vec: &Vec<T>)
        ensures
            vec@ == self@,
    {
        &self.vec
    }

    /// The items of the list.
    pub fn to_vec(self) -> (vec: Vec<T>)
        ensures
            vec@ == self@,
    {
        self.vec
    }

    /// How many items the list has.
    pub fn len(&self) -> (n: usize)
        ensures
            n == self@.len(),
    {
        self.vec.len()
    }
}

} // verus!
