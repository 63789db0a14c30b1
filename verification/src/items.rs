//! Lists of nodes used as sets: no node twice.

use crate::node::{keys, Node};
use vstd::prelude::*;

verus! {

/// Whether the list holds the node.
pub fn holds<I: Node>(items: &Vec<I>, x: &I) -> (b: bool)
    ensures
        b == keys(items@).contains(x@),
{
    let mut i: usize = 0;
    while i < items.len()
        invariant
            i <= items@.len(),
            forall|j: int| 0 <= j < i ==> (#[trigger] items@[j])@ != x@,
        decreases items@.len() - i,
    {
        if items[i].same(x) {
            assert(keys(items@)[i as int] == x@);
            return true;
        }
        i += 1;
    }
    proof {
        let names = keys(items@);
        if names.contains(x@) {
            let j = choose|j: int| 0 <= j < names.len() && names[j] == x@;
            assert(items@[j]@ == x@);
        }
    }
    false
}

/// Puts each node of `more` that the list does not hold behind what it
/// holds.
pub fn join_into<I: Node>(items: &mut Vec<I>, more: &Vec<I>)
    requires
        keys(old(items)@).no_duplicates(),
    ensures
        keys(final(items)@).no_duplicates(),
        keys(final(items)@).to_set() == keys(old(items)@).to_set().union(keys(more@).to_set()),
{
    let mut i: usize = 0;
    while i < more.len()
        invariant
            i <= more@.len(),
            keys(items@).no_duplicates(),
            keys(items@).to_set() == keys(old(items)@).to_set().union(
                keys(more@.subrange(0, i as int)).to_set(),
            ),
        decreases more@.len() - i,
    {
        let ghost before = keys(items@);
        let ghost seen = keys(more@.subrange(0, i as int));
        let ghost k = more@[i as int]@;
        if !holds(items, &more[i]) {
            items.push(more[i].duplicate());
            proof {
                assert(keys(items@) =~= before.push(k));
                before.lemma_push_to_set_commute(k);
                assert forall|a: int, b: int|
                    0 <= a < keys(items@).len() && 0 <= b < keys(items@).len() && a
                        != b implies keys(items@)[a] != keys(items@)[b] by {
                    if a < before.len() {
                        assert(before.contains(before[a]));
                    }
                    if b < before.len() {
                        assert(before.contains(before[b]));
                    }
                }
            }
        }
        proof {
            let next = keys(more@.subrange(0, i + 1));
            assert(next =~= seen.push(k));
            seen.lemma_push_to_set_commute(k);
            assert(keys(items@).to_set() =~= keys(old(items)@).to_set().union(next.to_set()));
        }
        i += 1;
    }
    assert(more@.subrange(0, i as int) =~= more@);
}

/// The nodes of the list that `gone` does not hold, in their order.
pub fn without<I: Node>(items: &Vec<I>, gone: &Vec<I>) -> (kept: Vec<I>)
    requires
        keys(items@).no_duplicates(),
    ensures
        keys(kept@).no_duplicates(),
        keys(kept@).to_set() == keys(items@).to_set().difference(keys(gone@).to_set()),
{
    let mut kept: Vec<I> = Vec::new();
    let mut i: usize = 0;
    while i < items.len()
        invariant
            i <= items@.len(),
            keys(items@).no_duplicates(),
            keys(kept@).no_duplicates(),
            keys(kept@).to_set() == keys(items@.subrange(0, i as int)).to_set().difference(
                keys(gone@).to_set(),
            ),
        decreases items@.len() - i,
    {
        let ghost before = keys(kept@);
        let ghost seen = keys(items@.subrange(0, i as int));
        let ghost k = items@[i as int]@;
        proof {
            let next = keys(items@.subrange(0, i + 1));
            assert(next =~= seen.push(k));
            seen.lemma_push_to_set_commute(k);
            if seen.contains(k) {
                let j = choose|j: int| 0 <= j < seen.len() && seen[j] == k;
                assert(keys(items@)[j] == keys(items@)[i as int]);
            }
        }
        if !holds(gone, &items[i]) {
            kept.push(items[i].duplicate());
            proof {
                assert(keys(kept@) =~= before.push(k));
                before.lemma_push_to_set_commute(k);
                assert(!before.to_set().contains(k));
                assert forall|a: int, b: int|
                    0 <= a < keys(kept@).len() && 0 <= b < keys(kept@).len() && a
                        != b implies keys(kept@)[a] != keys(kept@)[b] by {
                    if a < before.len() {
                        assert(before.contains(before[a]));
                    }
                    if b < before.len() {
                        assert(before.contains(before[b]));
                    }
                }
            }
        }
        proof {
            let next = keys(items@.subrange(0, i + 1));
            assert(keys(kept@).to_set() =~= next.to_set().difference(keys(gone@).to_set()));
        }
        i += 1;
    }
    assert(items@.subrange(0, i as int) =~= items@);
    kept
}

} // verus!
