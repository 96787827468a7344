//! The order in which heaps and work queues give their items, and what a queue holds.

use crate::ancestry::IndexPositionByGeneration;
use crate::generation_walk::RevWalkItemGenerationRange;
use crate::heap::HeapItem;
use crate::queue::{
    any_above, count_at, is_mapped, unwanted_item, unwanted_items, wanted_item, wanted_items,
    without_key, RevWalkWorkItem, RevWalkWorkItemState, WalkTag,
};
use crate::sort::is_sorted;
use vstd::multiset::Multiset;
use vstd::prelude::*;

verus! {

/// Positions are ordered by generation number first, and by position among equal
/// generation numbers.
pub proof fn law_generation_order(a: IndexPositionByGeneration, b: IndexPositionByGeneration)
    ensures
        a.rank() < b.rank() <==> a.generation < b.generation || a.generation == b.generation
            && a.pos < b.pos,
        a.rank() == b.rank() <==> a == b,
{
}

/// Numbers are ordered as numbers, and a sorted list has no greater number before a
/// smaller one.
pub proof fn law_number_order(a: u32, b: u32, list: Seq<u32>)
    ensures
        a.rank() < b.rank() <==> a < b,
        is_sorted(list) <==> forall|i: int, j: int|
            #![trigger list[i], list[j]]
            0 <= i < j < list.len() ==> !(list[i] > list[j]),
{
}

/// A work queue gives the item with the greatest key first. Of items with the same key
/// it gives the unwanted ones before the wanted ones, and these by their tags.
pub proof fn law_queue_order<T: WalkTag>(a: RevWalkWorkItem<T>, b: RevWalkWorkItem<T>)
    ensures
        a.rank() > b.rank() <==> {
            ||| a.pos > b.pos
            ||| a.pos == b.pos && match (a.state, b.state) {
                (RevWalkWorkItemState::Unwanted, RevWalkWorkItemState::Unwanted) => false,
                (RevWalkWorkItemState::Unwanted, RevWalkWorkItemState::Wanted(_)) => true,
                (RevWalkWorkItemState::Wanted(_), RevWalkWorkItemState::Unwanted) => false,
                (RevWalkWorkItemState::Wanted(s), RevWalkWorkItemState::Wanted(t)) => s.tag_rank()
                    > t.tag_rank(),
            }
        },
{
    a.lemma_rank(&b);
    b.lemma_rank(&a);
    match a.state {
        RevWalkWorkItemState::Wanted(t) => t.lemma_tag_rank(),
        RevWalkWorkItemState::Unwanted => {},
    }
    match b.state {
        RevWalkWorkItemState::Wanted(t) => t.lemma_tag_rank(),
        RevWalkWorkItemState::Unwanted => {},
    }
}

/// Of ranges of generations the one with the smaller start is given first, and of those
/// with the same start the one with the smaller end. A range hits a goal that lies
/// behind its start and not behind its end, both moved on by the distance.
pub proof fn law_range_order(
    a: RevWalkItemGenerationRange,
    b: RevWalkItemGenerationRange,
    n: int,
    goal: int,
)
    ensures
        a.tag_rank() > b.tag_rank() <==> a.start < b.start || a.start == b.start && a.end < b.end,
        a.hits(n, goal) <==> a.start < goal - n <= a.end,
{
}

/// What a queue holds without a key are its items with other keys, as often as before.
pub proof fn law_without_key<T>(
    items: Multiset<RevWalkWorkItem<T>>,
    pos: u32,
    item: RevWalkWorkItem<T>,
)
    ensures
        without_key(items, pos).count(item) == (if item.pos == pos {
            0
        } else {
            items.count(item)
        }),
        any_above(items, pos) <==> exists|other: RevWalkWorkItem<T>|
            #[trigger] items.count(other) > 0 && other.pos > pos,
        count_at(items, pos) + without_key(items, pos).len() == items.len(),
{
    broadcast use vstd::multiset::group_multiset_axioms;

    let at = |item: RevWalkWorkItem<T>| item.pos == pos;
    let off = |item: RevWalkWorkItem<T>| item.pos != pos;
    assert(items.filter(at).add(items.filter(off)) =~= items);
    if any_above(items, pos) {
        let other = choose|other: RevWalkWorkItem<T>| #[trigger]
            items.contains(other) && other.pos > pos;
        assert(items.count(other) > 0);
    }
    if exists|other: RevWalkWorkItem<T>| #[trigger] items.count(other) > 0 && other.pos > pos {
        let other = choose|other: RevWalkWorkItem<T>| #[trigger]
            items.count(other) > 0 && other.pos > pos;
        assert(items.contains(other));
    }
}

/// Applying a function to a tag keeps the key, and whether it is wanted; what the
/// function gives is the new tag.
pub proof fn law_mapped<T, U, F: Fn(T) -> U>(
    f: F,
    item: RevWalkWorkItem<T>,
    mapped: RevWalkWorkItem<U>,
)
    ensures
        is_mapped(f, item, mapped) <==> {
            &&& mapped.pos == item.pos
            &&& item.state is Unwanted <==> mapped.state is Unwanted
            &&& item.state matches RevWalkWorkItemState::Wanted(t) ==> (
            mapped.state matches RevWalkWorkItemState::Wanted(u) ==> call_ensures(f, (t,), u))
        },
{
}

/// Keys are put into a queue one by one, the wanted ones with the same tag.
pub proof fn law_keys_queued<T>(keys: Seq<u32>, t: T, i: int)
    requires
        0 <= i < keys.len(),
    ensures
        wanted_items(keys, t).len() == keys.len(),
        wanted_items(keys, t)[i].pos == keys[i],
        wanted_items(keys, t)[i].state == RevWalkWorkItemState::Wanted(t),
        unwanted_items::<T>(keys).len() == keys.len(),
        unwanted_items::<T>(keys)[i].pos == keys[i],
        unwanted_items::<T>(keys)[i].state is Unwanted,
        wanted_item(keys[i], t) == wanted_items(keys, t)[i],
        unwanted_item::<T>(keys[i]) == unwanted_items::<T>(keys)[i],
{
}

} // verus!
