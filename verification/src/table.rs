//! Tables that map identifiers to values, kept as lists of entries.

use crate::identifier::Identifier;
use crate::node::Node;
use vstd::prelude::*;

verus! {

/// The value of the first entry from `i` on whose key is `key`.
pub open spec fn entry_from<V>(entries: Seq<(Identifier, V)>, key: Seq<char>, i: int) -> Option<V>
    decreases entries.len() - i,
{
    if i < 0 || i >= entries.len() {
        None
    } else if entries[i].0@ == key {
        Some(entries[i].1)
    } else {
        entry_from(entries, key, i + 1)
    }
}

/// The value that the table holds for `key`: that of the first entry with
/// this key.
pub open spec fn entry_of<V>(entries: Seq<(Identifier, V)>, key: Seq<char>) -> Option<V> {
    entry_from(entries, key, 0)
}

/// The table holds a value for `key`.
pub open spec fn has_entry<V>(entries: Seq<(Identifier, V)>, key: Seq<char>) -> bool {
    exists|i: int| 0 <= i < entries.len() && (#[trigger] entries[i]).0@ == key
}

/// A table holds a value for a key exactly where an entry has the key.
pub proof fn lemma_entry_from<V>(entries: Seq<(Identifier, V)>, key: Seq<char>, i: int)
    requires
        0 <= i,
    ensures
        entry_from(entries, key, i) is Some <==> exists|j: int|
            i <= j < entries.len() && (#[trigger] entries[j]).0@ == key,
    decreases entries.len() - i,
{
    if i < entries.len() {
        lemma_entry_from(entries, key, i + 1);
        if entries[i].0@ == key {
        } else if entry_from(entries, key, i + 1) is Some {
            let j = choose|j: int| i + 1 <= j < entries.len() && (#[trigger] entries[j]).0@ == key;
            assert(i <= j < entries.len() && entries[j].0@ == key);
        } else {
            if exists|j: int| i <= j < entries.len() && (#[trigger] entries[j]).0@ == key {
                let j = choose|j: int| i <= j < entries.len() && (#[trigger] entries[j]).0@ == key;
                assert(i + 1 <= j);
            }
        }
    }
}

/// Where the first entry with the key of `key` stands.
pub fn find_entry<V>(entries: &Vec<(Identifier, V)>, key: &Identifier) -> (at: Option<usize>)
    ensures
        match at {
            Some(i) => i < entries@.len() && entries@[i as int].0@ == key@ && entry_of(
                entries@,
                key@,
            ) == Some(entries@[i as int].1),
            None => entry_of(entries@, key@) is None && !has_entry(entries@, key@),
        },
{
    let mut i: usize = 0;
    while i < entries.len()
        invariant
            i <= entries@.len(),
            entry_of(entries@, key@) == entry_from(entries@, key@, i as int),
        decreases entries@.len() - i,
    {
        if entries[i].0.same(key) {
            return Some(i);
        }
        i += 1;
    }
    proof {
        lemma_entry_from(entries@, key@, 0);
    }
    None
}

/// The value that the table holds for `key`.
pub fn lookup<'a, V>(entries: &'a Vec<(Identifier, V)>, key: &Identifier) -> (found: Option<&'a V>)
    ensures
        match found {
            Some(v) => entry_of(entries@, key@) == Some(*v),
            None => entry_of(entries@, key@) is None && !has_entry(entries@, key@),
        },
{
    match find_entry(entries, key) {
        Some(i) => Some(&entries[i].1),
        None => None,
    }
}

} // verus!
