//! The work queue of a graph walk, and what a queue stands for: the nodes that
//! the walk has yet to visit.
//!
//! A walk goes along links from greater keys to smaller ones, the greatest key
//! first. A queue holds wanted keys, from which the walk goes on, and unwanted
//! keys, which bar the way: a node that an unwanted key reaches is not visited.

use crate::heap::{HeapItem, MaxHeap};
use crate::positions::SmallIndexPositionsVec;
use vstd::multiset::Multiset;
use vstd::prelude::*;
use vstd::seq_lib::to_multiset_build;

verus! {

/// What a wanted key carries along: it tells at which distances from the key
/// nodes are to be visited.
pub trait WalkTag: Copy {
    /// Where the tag stands in the order in which equal keys are taken.
    spec fn tag_rank(&self) -> int;

    /// Whether a node at distance `n` is to be visited, where `goal` is a
    /// parameter of the walk.
    spec fn hits(&self, n: int, goal: int) -> bool;

    proof fn lemma_tag_rank(&self)
        ensures
            0 <= self.tag_rank() < 0x1_0000_0000_0000_0000,
    ;

    fn tag_below(&self, other: &Self) -> (result: bool)
        ensures
            result == (self.tag_rank() < other.tag_rank()),
    ;
}

/// The tag for walks that visit nodes at all distances.
#[derive(Clone, Copy)]
pub struct AnyDistance;

impl WalkTag for AnyDistance {
    open spec fn tag_rank(&self) -> int {
        0
    }

    open spec fn hits(&self, n: int, goal: int) -> bool {
        true
    }

    proof fn lemma_tag_rank(&self) {
    }

    fn tag_below(&self, other: &Self) -> (result: bool) {
        false
    }
}

#[derive(Copy)]
pub enum RevWalkWorkItemState<T> {
    Wanted(T),
    // Comes before the wanted items of the same key.
    Unwanted,
}

#[derive(Copy)]
pub struct RevWalkWorkItem<T> {
    pub pos: u32,
    pub state: RevWalkWorkItemState<T>,
}

impl<T: Copy> Clone for RevWalkWorkItemState<T> {
    fn clone(&self) -> (result: Self)
        ensures
            result == *self,
    {
        *self
    }
}

impl<T: Copy> Clone for RevWalkWorkItem<T> {
    fn clone(&self) -> (result: Self)
        ensures
            result == *self,
    {
        *self
    }
}

/// The item for a wanted key.
pub open spec fn wanted_item<T>(pos: u32, t: T) -> RevWalkWorkItem<T> {
    RevWalkWorkItem { pos, state: RevWalkWorkItemState::Wanted(t) }
}

/// The item for an unwanted key.
pub open spec fn unwanted_item<T>(pos: u32) -> RevWalkWorkItem<T> {
    RevWalkWorkItem { pos, state: RevWalkWorkItemState::Unwanted }
}

impl<T: WalkTag> RevWalkWorkItemState<T> {
    pub open spec fn state_rank(&self) -> int {
        match *self {
            RevWalkWorkItemState::Wanted(t) => t.tag_rank(),
            RevWalkWorkItemState::Unwanted => 0x1_0000_0000_0000_0000,
        }
    }
}

impl<T: WalkTag> HeapItem for RevWalkWorkItem<T> {
    open spec fn rank(&self) -> int {
        self.pos * 0x2_0000_0000_0000_0000 + self.state.state_rank()
    }

    fn ranks_below(&self, other: &Self) -> (result: bool) {
        proof {
            self.lemma_rank(other);
            other.lemma_rank(self);
        }
        if self.pos != other.pos {
            return self.pos < other.pos;
        }
        match self.state {
            RevWalkWorkItemState::Wanted(t) => match other.state {
                RevWalkWorkItemState::Wanted(u) => t.tag_below(&u),
                RevWalkWorkItemState::Unwanted => true,
            },
            RevWalkWorkItemState::Unwanted => false,
        }
    }
}

impl<T: WalkTag> RevWalkWorkItem<T> {
    /// Items rank by key first, and by state among equal keys.
    pub proof fn lemma_rank(&self, other: &Self)
        ensures
            0 <= self.state.state_rank() <= 0x1_0000_0000_0000_0000,
            self.state is Wanted ==> self.state.state_rank() < 0x1_0000_0000_0000_0000,
            0 <= other.state.state_rank() <= 0x1_0000_0000_0000_0000,
            self.pos < other.pos ==> self.rank() < other.rank(),
            self.pos == other.pos ==> (self.rank() <= other.rank() <==> self.state.state_rank()
                <= other.state.state_rank()),
    {
        match self.state {
            RevWalkWorkItemState::Wanted(t) => {
                t.lemma_tag_rank();
            },
            RevWalkWorkItemState::Unwanted => {},
        }
        match other.state {
            RevWalkWorkItemState::Wanted(t) => {
                t.lemma_tag_rank();
            },
            RevWalkWorkItemState::Unwanted => {},
        }
    }

    pub fn is_wanted(&self) -> (result: bool)
        ensures
            result == self.state is Wanted,
    {
        matches!(self.state, RevWalkWorkItemState::Wanted(_))
    }
}

impl<T> RevWalkWorkItem<T> {
    /// Applies a function to the tag of a wanted key.
    pub fn map_wanted<U, F: Fn(T) -> U>(self, f: &F) -> (item: RevWalkWorkItem<U>)
        requires
            self.state matches RevWalkWorkItemState::Wanted(t) ==> call_requires(*f, (t,)),
        ensures
            is_mapped(*f, self, item),
    {
        RevWalkWorkItem {
            pos: self.pos,
            state: match self.state {
                RevWalkWorkItemState::Wanted(t) => RevWalkWorkItemState::Wanted(f(t)),
                RevWalkWorkItemState::Unwanted => RevWalkWorkItemState::Unwanted,
            },
        }
    }
}

/// Whether an item is another one, with a function applied to the tag if the key
/// is wanted.
pub open spec fn is_mapped<T, U, F: Fn(T) -> U>(
    f: F,
    item: RevWalkWorkItem<T>,
    mapped: RevWalkWorkItem<U>,
) -> bool {
    &&& mapped.pos == item.pos
    &&& match item.state {
        RevWalkWorkItemState::Wanted(t) => match mapped.state {
            RevWalkWorkItemState::Wanted(u) => call_ensures(f, (t,), u),
            RevWalkWorkItemState::Unwanted => false,
        },
        RevWalkWorkItemState::Unwanted => mapped.state is Unwanted,
    }
}

/// Whether two sequences hold items and, place by place, those items with a
/// function applied to the tags of the wanted ones.
pub open spec fn are_mapped<T, U, F: Fn(T) -> U>(
    f: F,
    items: Seq<RevWalkWorkItem<T>>,
    mapped: Seq<RevWalkWorkItem<U>>,
) -> bool {
    &&& items.len() == mapped.len()
    &&& forall|i: int|
        #![trigger items[i]]
        #![trigger mapped[i]]
        0 <= i < items.len() ==> is_mapped(f, items[i], mapped[i])
}

/// Whether the items of a queue are, one for one, those of another queue with a
/// function applied to the tags of the wanted ones.
pub open spec fn is_mapped_queue<T, U, F: Fn(T) -> U>(
    f: F,
    items: Multiset<RevWalkWorkItem<T>>,
    mapped: Multiset<RevWalkWorkItem<U>>,
) -> bool {
    exists|a: Seq<RevWalkWorkItem<T>>, b: Seq<RevWalkWorkItem<U>>| #[trigger]
        are_mapped(f, a, b) && a.to_multiset() == items && b.to_multiset() == mapped
}

/// The items for wanted keys with the same tag.
pub open spec fn wanted_items<T>(keys: Seq<u32>, t: T) -> Seq<RevWalkWorkItem<T>> {
    keys.map_values(|pos: u32| wanted_item(pos, t))
}

/// The items for unwanted keys.
pub open spec fn unwanted_items<T>(keys: Seq<u32>) -> Seq<RevWalkWorkItem<T>> {
    keys.map_values(|pos: u32| unwanted_item::<T>(pos))
}

/// Whether an item has a key above the given one.
pub open spec fn any_above<T>(items: Multiset<RevWalkWorkItem<T>>, pos: u32) -> bool {
    exists|item: RevWalkWorkItem<T>| #[trigger] items.contains(item) && item.pos > pos
}

/// The items that do not have the given key.
pub open spec fn without_key<T>(items: Multiset<RevWalkWorkItem<T>>, pos: u32) -> Multiset<
    RevWalkWorkItem<T>,
> {
    items.filter(|item: RevWalkWorkItem<T>| item.pos != pos)
}

/// The number of unwanted items.
pub open spec fn count_unwanted<T>(items: Multiset<RevWalkWorkItem<T>>) -> nat {
    items.filter(|item: RevWalkWorkItem<T>| item.state is Unwanted).len()
}

/// The number of items with the given key.
pub open spec fn count_at<T>(items: Multiset<RevWalkWorkItem<T>>, pos: u32) -> nat {
    items.filter(|item: RevWalkWorkItem<T>| item.pos == pos).len()
}

/// The number of wanted items with the given key.
pub open spec fn count_wanted_at<T>(items: Multiset<RevWalkWorkItem<T>>, pos: u32) -> nat {
    items.filter(|item: RevWalkWorkItem<T>| item.pos == pos && item.state is Wanted).len()
}

/// How counts change with an item.
proof fn lemma_counts<T>(items: Multiset<RevWalkWorkItem<T>>, item: RevWalkWorkItem<T>, pos: u32)
    ensures
        count_unwanted(items.insert(item)) == count_unwanted(items) + (if item.state is Unwanted {
            1nat
        } else {
            0nat
        }),
        count_at(items.insert(item), pos) == count_at(items, pos) + (if item.pos == pos {
            1nat
        } else {
            0nat
        }),
        count_wanted_at(items.insert(item), pos) == count_wanted_at(items, pos) + (if item.pos
            == pos && item.state is Wanted {
            1nat
        } else {
            0nat
        }),
{
    broadcast use vstd::multiset::group_multiset_axioms;

    let f = |item: RevWalkWorkItem<T>| item.state is Unwanted;
    if f(item) {
        assert(items.insert(item).filter(f) =~= items.filter(f).insert(item));
    } else {
        assert(items.insert(item).filter(f) =~= items.filter(f));
    }
    let h = |item: RevWalkWorkItem<T>| item.pos == pos;
    if h(item) {
        assert(items.insert(item).filter(h) =~= items.filter(h).insert(item));
    } else {
        assert(items.insert(item).filter(h) =~= items.filter(h));
    }
    let w = |item: RevWalkWorkItem<T>| item.pos == pos && item.state is Wanted;
    if w(item) {
        assert(items.insert(item).filter(w) =~= items.filter(w).insert(item));
    } else {
        assert(items.insert(item).filter(w) =~= items.filter(w));
    }
}

/// Applying a function to the tags of wanted keys keeps the numbers of wanted and
/// unwanted items.
proof fn lemma_mapped_counts<T, U, F: Fn(T) -> U>(
    f: F,
    items: Seq<RevWalkWorkItem<T>>,
    mapped: Seq<RevWalkWorkItem<U>>,
    pos: u32,
)
    requires
        are_mapped(f, items, mapped),
    ensures
        count_wanted_at(items.to_multiset(), pos) == count_wanted_at(mapped.to_multiset(), pos),
        items.to_multiset().count(unwanted_item(pos)) == mapped.to_multiset().count(
            unwanted_item(pos),
        ),
    decreases items.len(),
{
    broadcast use {
        vstd::multiset::group_multiset_axioms,
        vstd::seq_lib::group_to_multiset_ensures,
    };

    if items.len() > 0 {
        let (a, b) = (items.drop_last(), mapped.drop_last());
        assert forall|i: int|
            #![trigger a[i]]
            #![trigger b[i]]
            0 <= i < a.len() implies is_mapped(f, a[i], b[i]) by {
            assert(is_mapped(f, items[i], mapped[i]));
        }
        lemma_mapped_counts(f, a, b, pos);
        assert(is_mapped(f, items[items.len() - 1], mapped[items.len() - 1]));
        assert(items =~= a.push(items.last()));
        assert(mapped =~= b.push(mapped.last()));
        to_multiset_build(a, items.last());
        to_multiset_build(b, mapped.last());
        lemma_counts(a.to_multiset(), items.last(), pos);
        lemma_counts(b.to_multiset(), mapped.last(), pos);
    } else {
        let w = |item: RevWalkWorkItem<T>| item.pos == pos && item.state is Wanted;
        let v = |item: RevWalkWorkItem<U>| item.pos == pos && item.state is Wanted;
        assert(items.to_multiset() =~= Multiset::empty());
        assert(mapped.to_multiset() =~= Multiset::empty());
        assert(items.to_multiset().filter(w) =~= Multiset::empty());
        assert(mapped.to_multiset().filter(v) =~= Multiset::empty());
    }
}

/// What counts of nothing or everything tell.
proof fn lemma_counts_all<T>(items: Multiset<RevWalkWorkItem<T>>)
    ensures
        items.len() == 0 ==> count_unwanted(items) == 0,
        count_unwanted(items) <= items.len(),
        count_unwanted(items) == items.len() ==> forall|item: RevWalkWorkItem<T>| #[trigger]
            items.contains(item) ==> item.state is Unwanted,
    decreases items.len(),
{
    broadcast use vstd::multiset::group_multiset_axioms;

    if items.len() > 0 {
        let item = items.choose();
        let rest = items.remove(item);
        assert(items.contains(item));
        assert(rest.insert(item) =~= items);
        lemma_counts(rest, item, 0);
        lemma_counts_all(rest);
        assert forall|other: RevWalkWorkItem<T>| #[trigger]
            items.contains(other) && count_unwanted(items) == items.len() implies other.state
            is Unwanted by {
            if other != item {
                assert(rest.contains(other));
            }
        }
    } else {
        let f = |item: RevWalkWorkItem<T>| item.state is Unwanted;
        assert(items.filter(f) =~= Multiset::empty());
        assert forall|other: RevWalkWorkItem<T>| !items.contains(other) by {
            if items.contains(other) {
                assert(items.remove(other).insert(other) =~= items);
            }
        }
    }
}

/// A queue of wanted and unwanted keys, of which the greatest is taken first.
pub struct RevWalkQueue<T> {
    items: MaxHeap<RevWalkWorkItem<T>>,
    unwanted_count: usize,
}

impl<T: WalkTag> View for RevWalkQueue<T> {
    type V = Multiset<RevWalkWorkItem<T>>;

    closed spec fn view(&self) -> Multiset<RevWalkWorkItem<T>> {
        self.items@
    }
}

impl<T: WalkTag> Clone for RevWalkQueue<T> {
    fn clone(&self) -> (queue: Self)
        ensures
            queue@ == self@,
            queue.wf() == self.wf(),
    {
        RevWalkQueue { items: self.items.clone(), unwanted_count: self.unwanted_count }
    }
}

impl<T: WalkTag> RevWalkQueue<T> {
    /// Whether the queue's count of unwanted items is right.
    pub closed spec fn wf(&self) -> bool {
        &&& self.items.wf()
        &&& self.unwanted_count == count_unwanted(self.items@)
    }

    pub fn new() -> (queue: Self)
        ensures
            queue.wf(),
            queue@ == Multiset::<RevWalkWorkItem<T>>::empty(),
    {
        let queue = RevWalkQueue { items: MaxHeap::new(), unwanted_count: 0 };
        proof {
            broadcast use vstd::multiset::group_multiset_axioms;

            lemma_counts_all(queue.items@);
        }
        queue
    }

    pub fn push_wanted(&mut self, pos: u32, t: T)
        requires
            old(self).wf(),
        ensures
            final(self).wf(),
            final(self)@ == old(self)@.insert(wanted_item(pos, t)),
    {
        let item = RevWalkWorkItem { pos, state: RevWalkWorkItemState::Wanted(t) };
        proof {
            lemma_counts(self.items@, item, 0);
        }
        self.items.push(item);
    }

    pub fn push_unwanted(&mut self, pos: u32)
        requires
            old(self).wf(),
        ensures
            final(self).wf(),
            final(self)@ == old(self)@.insert(unwanted_item(pos)),
    {
        let item = RevWalkWorkItem { pos, state: RevWalkWorkItemState::Unwanted };
        proof {
            lemma_counts(self.items@, item, 0);
        }
        self.items.push(item);
        proof {
            self.items.lemma_len();
            lemma_counts_all(self.items@);
        }
        self.unwanted_count += 1;
    }

    /// Adds wanted keys with the same tag.
    pub fn extend_wanted(&mut self, keys: &SmallIndexPositionsVec, t: T)
        requires
            old(self).wf(),
        ensures
            final(self).wf(),
            final(self)@ == old(self)@.add(wanted_items(keys@, t).to_multiset()),
    {
        broadcast use {
            vstd::multiset::group_multiset_axioms,
            vstd::seq_lib::group_to_multiset_ensures,
        };

        let ghost all = wanted_items(keys@, t);
        let mut i: usize = 0;
        assert(all.take(0).to_multiset() =~= Multiset::empty());
        assert(self@ =~= old(self)@.add(all.take(0).to_multiset()));
        while i < keys.len()
            invariant
                i <= keys@.len(),
                all == wanted_items(keys@, t),
                self.wf(),
                self@ == old(self)@.add(all.take(i as int).to_multiset()),
            decreases keys@.len() - i,
        {
            let key: u32 = keys.get(i).0;
            proof {
                to_multiset_build(all.take(i as int), wanted_item(key, t));
                assert(all.take(i + 1) =~= all.take(i as int).push(wanted_item(key, t)));
            }
            self.push_wanted(key, t);
            i += 1;
            assert(self@ =~= old(self)@.add(all.take(i as int).to_multiset()));
        }
        assert(all.take(i as int) =~= all);
    }

    /// Adds unwanted keys.
    pub fn extend_unwanted(&mut self, keys: &SmallIndexPositionsVec)
        requires
            old(self).wf(),
        ensures
            final(self).wf(),
            final(self)@ == old(self)@.add(unwanted_items(keys@).to_multiset()),
    {
        broadcast use {
            vstd::multiset::group_multiset_axioms,
            vstd::seq_lib::group_to_multiset_ensures,
        };

        let ghost all = unwanted_items::<T>(keys@);
        let mut i: usize = 0;
        assert(all.take(0).to_multiset() =~= Multiset::empty());
        assert(self@ =~= old(self)@.add(all.take(0).to_multiset()));
        while i < keys.len()
            invariant
                i <= keys@.len(),
                all == unwanted_items::<T>(keys@),
                self.wf(),
                self@ == old(self)@.add(all.take(i as int).to_multiset()),
            decreases keys@.len() - i,
        {
            let key: u32 = keys.get(i).0;
            proof {
                to_multiset_build(all.take(i as int), unwanted_item(key));
                assert(all.take(i + 1) =~= all.take(i as int).push(unwanted_item(key)));
            }
            self.push_unwanted(key);
            i += 1;
            assert(self@ =~= old(self)@.add(all.take(i as int).to_multiset()));
        }
        assert(all.take(i as int) =~= all);
    }

    /// Applies a function to the tag of each wanted key.
    pub fn map_wanted<U: WalkTag, F: Fn(T) -> U>(self, f: F) -> (queue: RevWalkQueue<U>)
        requires
            self.wf(),
            forall|pos: u32, t: T| #[trigger]
                self@.contains(wanted_item(pos, t)) ==> call_requires(f, (t,)),
        ensures
            queue.wf(),
            is_mapped_queue(f, self@, queue@),
            forall|pos: u32| #[trigger]
                count_wanted_at(queue@, pos) == count_wanted_at(self@, pos),
            forall|pos: u32| #[trigger]
                queue@.count(unwanted_item(pos)) == self@.count(unwanted_item(pos)),
    {
        broadcast use {
            vstd::multiset::group_multiset_axioms,
            vstd::seq_lib::group_to_multiset_ensures,
        };

        let ghost all = self@;
        let mut old_queue = self;
        let mut queue: RevWalkQueue<U> = RevWalkQueue::new();
        let ghost mut a: Seq<RevWalkWorkItem<T>> = Seq::empty();
        let ghost mut b: Seq<RevWalkWorkItem<U>> = Seq::empty();
        assert(a.to_multiset() =~= Multiset::empty());
        assert(b.to_multiset() =~= Multiset::empty());
        assert(all =~= old_queue@.add(a.to_multiset()));
        loop
            invariant
                queue.wf(),
                old_queue.wf(),
                forall|pos: u32, t: T| #[trigger]
                    all.contains(wanted_item(pos, t)) ==> call_requires(f, (t,)),
                are_mapped(f, a, b),
                all == old_queue@.add(a.to_multiset()),
                queue@ == b.to_multiset(),
            ensures
                queue.wf(),
                are_mapped(f, a, b),
                all == a.to_multiset(),
                queue@ == b.to_multiset(),
            decreases old_queue@.len(),
        {
            let ghost before = old_queue@;
            match old_queue.pop() {
                Some(item) => {
                    proof {
                        assert(all.contains(item));
                        match item.state {
                            RevWalkWorkItemState::Wanted(t) => {
                                assert(item == wanted_item(item.pos, t));
                            },
                            RevWalkWorkItemState::Unwanted => {},
                        }
                    }
                    let mapped = item.map_wanted(&f);
                    proof {
                        assert(before.remove(item).insert(item) =~= before);
                        to_multiset_build(a, item);
                        to_multiset_build(b, mapped);
                        a = a.push(item);
                        b = b.push(mapped);
                        assert(all =~= old_queue@.add(a.to_multiset()));
                    }
                    match mapped.state {
                        RevWalkWorkItemState::Wanted(u) => {
                            assert(mapped == wanted_item(mapped.pos, u));
                            queue.push_wanted(mapped.pos, u);
                        },
                        RevWalkWorkItemState::Unwanted => {
                            assert(mapped == unwanted_item::<U>(mapped.pos));
                            queue.push_unwanted(mapped.pos);
                        },
                    }
                },
                None => {
                    assert(all =~= a.to_multiset());
                    break;
                },
            }
        }
        proof {
            assert forall|pos: u32| #[trigger] count_wanted_at(queue@, pos) == count_wanted_at(
                all,
                pos,
            ) by {
                lemma_mapped_counts(f, a, b, pos);
            }
            assert forall|pos: u32| #[trigger] queue@.count(unwanted_item(pos)) == all.count(
                unwanted_item(pos),
            ) by {
                lemma_mapped_counts(f, a, b, pos);
            }
        }
        queue
    }

    /// Takes the item out that comes first.
    pub fn pop(&mut self) -> (item: Option<RevWalkWorkItem<T>>)
        requires
            old(self).wf(),
        ensures
            final(self).wf(),
            match item {
                Some(item) => {
                    &&& old(self)@.contains(item)
                    &&& forall|other: RevWalkWorkItem<T>| #[trigger]
                        old(self)@.contains(other) ==> other.rank() <= item.rank()
                    &&& final(self)@ == old(self)@.remove(item)
                },
                None => old(self)@.len() == 0 && final(self)@ == old(self)@,
            },
    {
        let ghost before = self.items@;
        match self.items.pop() {
            Some(item) => {
                proof {
                    broadcast use vstd::multiset::group_multiset_axioms;

                    assert(before.remove(item).insert(item) =~= before);
                    lemma_counts(before.remove(item), item, 0);
                }
                if !item.is_wanted() {
                    self.unwanted_count -= 1;
                }
                Some(item)
            },
            None => None,
        }
    }

    /// Takes the item out that comes first, if it has the given key.
    pub fn pop_eq(&mut self, pos: u32) -> (item: Option<RevWalkWorkItem<T>>)
        requires
            old(self).wf(),
        ensures
            final(self).wf(),
            match item {
                Some(item) => {
                    &&& item.pos == pos
                    &&& old(self)@.contains(item)
                    &&& forall|other: RevWalkWorkItem<T>| #[trigger]
                        old(self)@.contains(other) ==> other.rank() <= item.rank()
                    &&& final(self)@ == old(self)@.remove(item)
                    &&& count_at(final(self)@, pos) < count_at(old(self)@, pos)
                },
                None => {
                    &&& final(self)@ == old(self)@
                    &&& any_above(old(self)@, pos) || forall|other: RevWalkWorkItem<T>| #[trigger]
                        old(self)@.contains(other) ==> other.pos != pos
                },
            },
    {
        let ghost before = self.items@;
        match self.items.peek() {
            Some(first) => {
                if first.pos == pos {
                    let item = self.pop();
                    proof {
                        broadcast use vstd::multiset::group_multiset_axioms;

                        assert(before.contains(first));
                        let taken = item.unwrap();
                        first.lemma_rank(&taken);
                        taken.lemma_rank(&first);
                        assert(before.remove(taken).insert(taken) =~= before);
                        lemma_counts(before.remove(taken), taken, pos);
                    }
                    item
                } else {
                    proof {
                        assert(before.contains(first));
                        assert forall|other: RevWalkWorkItem<T>| #[trigger]
                            before.contains(other) && !any_above(before, pos) implies other.pos
                            != pos by {
                            first.lemma_rank(&other);
                        }
                    }
                    None
                }
            },
            None => {
                proof {
                    lemma_no_items(before);
                }
                None
            },
        }
    }

    /// Takes items out as long as the one that comes first has the given key: all
    /// items with that key, unless there are greater keys.
    pub fn skip_while_eq(&mut self, pos: u32)
        requires
            old(self).wf(),
        ensures
            final(self).wf(),
            final(self)@ == if any_above(old(self)@, pos) {
                old(self)@
            } else {
                without_key(old(self)@, pos)
            },
    {
        broadcast use vstd::multiset::group_multiset_axioms;

        loop
            invariant
                self.wf(),
                any_above(old(self)@, pos) ==> self@ == old(self)@,
                !any_above(old(self)@, pos) ==> !any_above(self@, pos),
                without_key(self@, pos) == without_key(old(self)@, pos),
            decreases count_at(self@, pos),
        {
            let ghost before = self@;
            match self.pop_eq(pos) {
                Some(item) => {
                    proof {
                        lemma_removed(before, item);
                        if any_above(before, pos) {
                            let other = choose|other: RevWalkWorkItem<T>| #[trigger]
                                before.contains(other) && other.pos > pos;
                            item.lemma_rank(&other);
                        }
                        assert(without_key(before.remove(item), pos) =~= without_key(before, pos));
                    }
                },
                None => {
                    proof {
                        if !any_above(before, pos) {
                            assert(without_key(before, pos) =~= before) by {
                                assert forall|other: RevWalkWorkItem<T>| #[trigger]
                                    without_key(before, pos).count(other) == before.count(
                                    other,
                                ) by {
                                    assert(before.contains(other) ==> other.pos != pos);
                                }
                            }
                        }
                    }
                    return;
                },
            }
        }
    }

    /// Whether no wanted item is left.
    pub fn is_exhausted(&self) -> (result: bool)
        requires
            self.wf(),
        ensures
            result == (forall|item: RevWalkWorkItem<T>| #[trigger]
                self@.contains(item) ==> item.state is Unwanted),
    {
        proof {
            lemma_counts_all(self.items@);
            if self.items@.len() != count_unwanted(self.items@) {
                lemma_some_wanted(self.items@);
                let item = choose|item: RevWalkWorkItem<T>| #[trigger]
                    self.items@.contains(item) && item.state is Wanted;
                assert(self@.contains(item));
            }
        }
        self.items.len() == self.unwanted_count
    }
}

/// What is left when an item is taken out.
pub proof fn lemma_removed<T>(items: Multiset<RevWalkWorkItem<T>>, item: RevWalkWorkItem<T>)
    ensures
        forall|other: RevWalkWorkItem<T>| #[trigger]
            items.remove(item).contains(other) ==> items.contains(other),
        forall|other: RevWalkWorkItem<T>|
            #![trigger items.contains(other)]
            #![trigger items.remove(item).contains(other)]
            items.contains(other) && other != item ==> items.remove(item).contains(other),
{
    broadcast use vstd::multiset::group_multiset_axioms;

}

/// What is there when an item is put in.
pub proof fn lemma_inserted<T>(items: Multiset<RevWalkWorkItem<T>>, item: RevWalkWorkItem<T>)
    ensures
        forall|other: RevWalkWorkItem<T>| #[trigger]
            items.insert(item).contains(other) <==> items.contains(other) || other == item,
{
    broadcast use vstd::multiset::group_multiset_axioms;

}

/// What is there when items for wanted keys are put in, and how many have another
/// key.
pub proof fn lemma_wanted_added<T>(items: Multiset<RevWalkWorkItem<T>>, keys: Seq<u32>, t: T)
    ensures
        ({
            let after = items.add(wanted_items(keys, t).to_multiset());
            &&& forall|item: RevWalkWorkItem<T>| #[trigger]
                after.contains(item) <==> items.contains(item) || exists|k: int|
                    0 <= k < keys.len() && item == wanted_item(#[trigger] keys[k], t)
            &&& forall|pos: u32|
                !keys.contains(pos) ==> #[trigger] count_at(after, pos) == count_at(items, pos)
        }),
{
    broadcast use {
        vstd::multiset::group_multiset_axioms,
        vstd::seq_lib::group_to_multiset_ensures,
    };

    let more = wanted_items(keys, t);
    let after = items.add(more.to_multiset());
    assert forall|item: RevWalkWorkItem<T>| #[trigger] after.contains(item) <==> items.contains(
        item,
    ) || exists|k: int| 0 <= k < keys.len() && item == wanted_item(#[trigger] keys[k], t) by {
        if more.contains(item) {
            let k = choose|k: int| 0 <= k < more.len() && more[k] == item;
            assert(item == wanted_item(keys[k], t));
        }
        if exists|k: int| 0 <= k < keys.len() && item == wanted_item(#[trigger] keys[k], t) {
            let k = choose|k: int|
                0 <= k < keys.len() && item == wanted_item(#[trigger] keys[k], t);
            assert(more[k] == item);
        }
        assert(more.contains(item) <==> more.to_multiset().count(item) > 0);
    }
    assert forall|pos: u32| !keys.contains(pos) implies #[trigger] count_at(after, pos)
        == count_at(items, pos) by {
        let h = |item: RevWalkWorkItem<T>| item.pos == pos;
        assert forall|item: RevWalkWorkItem<T>| #[trigger]
            after.filter(h).count(item) == items.filter(h).count(item) by {
            assert(more.contains(item) <==> more.to_multiset().count(item) > 0);
            if more.contains(item) {
                let k = choose|k: int| 0 <= k < more.len() && more[k] == item;
                assert(keys[k] == item.pos);
            }
        }
        assert(after.filter(h) =~= items.filter(h));
    }
}

/// What is there when items for unwanted keys are put in.
pub proof fn lemma_unwanted_added<T>(items: Multiset<RevWalkWorkItem<T>>, keys: Seq<u32>)
    ensures
        forall|item: RevWalkWorkItem<T>| #[trigger]
            items.add(unwanted_items(keys).to_multiset()).contains(item) <==> items.contains(item)
                || exists|k: int|
                0 <= k < keys.len() && item == unwanted_item::<T>(#[trigger] keys[k]),
{
    broadcast use {
        vstd::multiset::group_multiset_axioms,
        vstd::seq_lib::group_to_multiset_ensures,
    };

    let more = unwanted_items::<T>(keys);
    let after = items.add(more.to_multiset());
    assert forall|item: RevWalkWorkItem<T>| #[trigger] after.contains(item) <==> items.contains(
        item,
    ) || exists|k: int| 0 <= k < keys.len() && item == unwanted_item::<T>(#[trigger] keys[k]) by {
        if more.contains(item) {
            let k = choose|k: int| 0 <= k < more.len() && more[k] == item;
            assert(item == unwanted_item::<T>(keys[k]));
        }
        if exists|k: int| 0 <= k < keys.len() && item == unwanted_item::<T>(#[trigger] keys[k]) {
            let k = choose|k: int|
                0 <= k < keys.len() && item == unwanted_item::<T>(#[trigger] keys[k]);
            assert(more[k] == item);
        }
        assert(more.contains(item) <==> more.to_multiset().count(item) > 0);
    }
}

/// What is left when the items with a key are taken out.
pub proof fn lemma_without_key<T>(items: Multiset<RevWalkWorkItem<T>>, pos: u32)
    ensures
        forall|item: RevWalkWorkItem<T>| #[trigger]
            without_key(items, pos).contains(item) <==> items.contains(item) && item.pos != pos,
{
    broadcast use vstd::multiset::group_multiset_axioms;

}

/// The wanted and unwanted keys of a queue in which a function that always gives
/// the same tag was applied to the tags.
pub proof fn lemma_same_tag<T, U, F: Fn(T) -> U>(
    f: F,
    items: Multiset<RevWalkWorkItem<T>>,
    mapped: Multiset<RevWalkWorkItem<U>>,
    u: U,
)
    requires
        is_mapped_queue(f, items, mapped),
        forall|t: T, v: U| #[trigger] call_ensures(f, (t,), v) ==> v == u,
    ensures
        forall|pos: u32, v: U| #[trigger]
            mapped.contains(wanted_item(pos, v)) <==> v == u && exists|t: T| #[trigger]
                items.contains(wanted_item(pos, t)),
        forall|pos: u32| #[trigger]
            mapped.contains(unwanted_item(pos)) <==> items.contains(unwanted_item(pos)),
{
    broadcast use vstd::seq_lib::group_to_multiset_ensures;

    let (a, b) = choose|a: Seq<RevWalkWorkItem<T>>, b: Seq<RevWalkWorkItem<U>>| #[trigger]
        are_mapped(f, a, b) && a.to_multiset() == items && b.to_multiset() == mapped;
    assert forall|item: RevWalkWorkItem<T>| #[trigger] items.contains(item) <==> a.contains(
        item,
    ) by {
        assert(a.contains(item) <==> a.to_multiset().count(item) > 0);
    }
    assert forall|item: RevWalkWorkItem<U>| #[trigger] mapped.contains(item) <==> b.contains(
        item,
    ) by {
        assert(b.contains(item) <==> b.to_multiset().count(item) > 0);
    }
    assert forall|pos: u32, v: U| #[trigger]
        mapped.contains(wanted_item(pos, v)) <==> v == u && exists|t: T| #[trigger]
            items.contains(wanted_item(pos, t)) by {
        if mapped.contains(wanted_item(pos, v)) {
            let i = choose|i: int| 0 <= i < b.len() && b[i] == wanted_item(pos, v);
            match a[i].state {
                RevWalkWorkItemState::Wanted(t) => {
                    assert(a[i] == wanted_item(pos, t));
                    assert(items.contains(wanted_item(pos, t)));
                },
                RevWalkWorkItemState::Unwanted => {},
            }
        }
        if v == u && exists|t: T| #[trigger] items.contains(wanted_item(pos, t)) {
            let t = choose|t: T| #[trigger] items.contains(wanted_item(pos, t));
            let i = choose|i: int| 0 <= i < a.len() && a[i] == wanted_item(pos, t);
            assert(is_mapped(f, a[i], b[i]));
            assert(b[i] == wanted_item(pos, u));
        }
    }
    assert forall|pos: u32| #[trigger]
        mapped.contains(unwanted_item(pos)) <==> items.contains(unwanted_item(pos)) by {
        if mapped.contains(unwanted_item(pos)) {
            let i = choose|i: int| 0 <= i < b.len() && b[i] == unwanted_item::<U>(pos);
            assert(a[i] == unwanted_item::<T>(pos));
        }
        if items.contains(unwanted_item(pos)) {
            let i = choose|i: int| 0 <= i < a.len() && a[i] == unwanted_item::<T>(pos);
            assert(b[i] == unwanted_item::<U>(pos));
        }
    }
}

/// Nothing is in an empty queue.
pub proof fn lemma_no_items<T>(items: Multiset<RevWalkWorkItem<T>>)
    requires
        items.len() == 0,
    ensures
        forall|item: RevWalkWorkItem<T>| !#[trigger] items.contains(item),
{
    broadcast use vstd::multiset::group_multiset_axioms;

    assert forall|item: RevWalkWorkItem<T>| !#[trigger] items.contains(item) by {
        if items.contains(item) {
            assert(items.remove(item).insert(item) =~= items);
        }
    }
}

/// With fewer unwanted items than items, one is wanted.
proof fn lemma_some_wanted<T>(items: Multiset<RevWalkWorkItem<T>>)
    requires
        count_unwanted(items) < items.len(),
    ensures
        exists|item: RevWalkWorkItem<T>| #[trigger] items.contains(item) && item.state is Wanted,
    decreases items.len(),
{
    broadcast use vstd::multiset::group_multiset_axioms;

    let item = items.choose();
    let rest = items.remove(item);
    assert(items.contains(item));
    if item.state is Unwanted {
        assert(rest.insert(item) =~= items);
        lemma_counts(rest, item, 0);
        lemma_some_wanted(rest);
        let other = choose|other: RevWalkWorkItem<T>| #[trigger]
            rest.contains(other) && other.state is Wanted;
        assert(items.contains(other));
    }
}

} // verus!
