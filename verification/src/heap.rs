//! A priority queue.

use vstd::multiset::Multiset;
use vstd::prelude::*;
use vstd::seq_lib::{
    to_multiset_build, to_multiset_contains, to_multiset_len, to_multiset_remove,
    to_multiset_update,
};

verus! {

/// An item of a priority queue, ordered by its rank.
pub trait HeapItem: Copy {
    /// The rank.
    spec fn rank(&self) -> int;

    /// Whether the rank is less than that of the other item.
    fn ranks_below(&self, other: &Self) -> (result: bool)
        ensures
            result == (self.rank() < other.rank()),
    ;
}

/// A priority queue, from which an item of the greatest rank is taken first.
pub struct MaxHeap<T> {
    // Each item is at place i, and its children are at 2 * i + 1 and 2 * i + 2.
    items: Vec<T>,
}

/// Whether the item at place `j` does not rank above its parent.
spec fn ordered_at<T: HeapItem>(s: Seq<T>, j: int) -> bool {
    s[j].rank() <= s[(j - 1) / 2].rank()
}

/// Whether no item but the first ranks above its parent.
spec fn heap_ordered<T: HeapItem>(s: Seq<T>) -> bool {
    forall|j: int| 0 < j < s.len() ==> #[trigger] ordered_at(s, j)
}

/// Whether the child at place `j` of the item at place `i` does not rank above
/// the parent of that item.
spec fn bridged_at<T: HeapItem>(s: Seq<T>, i: int, j: int) -> bool {
    i > 0 && (j - 1) / 2 == i ==> s[j].rank() <= s[(i - 1) / 2].rank()
}

/// Whether items are ordered but for the one at place `i`, which may rank above
/// its parent.
spec fn ordered_below<T: HeapItem>(s: Seq<T>, i: int) -> bool {
    &&& forall|j: int| 0 < j < s.len() && j != i ==> #[trigger] ordered_at(s, j)
    &&& forall|j: int| 0 < j < s.len() ==> #[trigger] bridged_at(s, i, j)
}

/// Whether items are ordered but for the one at place `i`, which may rank below
/// its children.
spec fn ordered_above<T: HeapItem>(s: Seq<T>, i: int) -> bool {
    &&& forall|j: int| 0 < j < s.len() && (j - 1) / 2 != i ==> #[trigger] ordered_at(s, j)
    &&& forall|j: int| 0 < j < s.len() ==> #[trigger] bridged_at(s, i, j)
}

/// In an ordered sequence the first item has the greatest rank.
proof fn lemma_first_greatest<T: HeapItem>(s: Seq<T>, j: int)
    requires
        heap_ordered(s),
        0 <= j < s.len(),
    ensures
        s[j].rank() <= s[0].rank(),
    decreases j,
{
    if j > 0 {
        assert(ordered_at(s, j));
        lemma_first_greatest(s, (j - 1) / 2);
    }
}

/// Exchanging two items keeps what a sequence holds.
proof fn lemma_exchange<T>(s: Seq<T>, i: int, j: int)
    requires
        0 <= i < s.len(),
        0 <= j < s.len(),
        i != j,
    ensures
        s.update(i, s[j]).update(j, s[i]).to_multiset() == s.to_multiset(),
{
    broadcast use vstd::multiset::group_multiset_axioms;

    let t = s.update(i, s[j]);
    to_multiset_update(s, i, s[j]);
    to_multiset_update(t, j, s[i]);
    to_multiset_contains(s, s[i]);
    assert(t.update(j, s[i]).to_multiset() =~= s.to_multiset());
}

impl<T: HeapItem> View for MaxHeap<T> {
    type V = Multiset<T>;

    closed spec fn view(&self) -> Multiset<T> {
        self.items@.to_multiset()
    }
}

impl<T: HeapItem> Clone for MaxHeap<T> {
    fn clone(&self) -> (heap: Self)
        ensures
            heap@ == self@,
            heap.wf() == self.wf(),
    {
        let mut items: Vec<T> = Vec::new();
        let mut i: usize = 0;
        while i < self.items.len()
            invariant
                i <= self.items@.len(),
                items@ == self.items@.take(i as int),
            decreases self.items@.len() - i,
        {
            items.push(self.items[i]);
            i += 1;
            assert(items@ =~= self.items@.take(i as int));
        }
        assert(items@ =~= self.items@);
        MaxHeap { items }
    }
}

impl<T: HeapItem> MaxHeap<T> {
    /// Whether the items are in the right order.
    pub closed spec fn wf(&self) -> bool {
        heap_ordered(self.items@)
    }

    /// An empty queue.
    pub fn new() -> (heap: Self)
        ensures
            heap.wf(),
            heap@ == Multiset::<T>::empty(),
    {
        let heap = MaxHeap { items: Vec::new() };
        proof {
            to_multiset_len(heap.items@);
            assert(heap@ =~= Multiset::<T>::empty()) by {
                broadcast use vstd::multiset::group_multiset_axioms;

                assert forall|t: T| heap@.count(t) == 0 by {
                    to_multiset_contains(heap.items@, t);
                }
            }
        }
        heap
    }

    /// The number of items.
    pub fn len(&self) -> (len: usize)
        ensures
            len == self@.len(),
    {
        proof {
            to_multiset_len(self.items@);
        }
        self.items.len()
    }

    /// The number of items fits in a machine word.
    pub proof fn lemma_len(&self)
        ensures
            self@.len() <= usize::MAX,
    {
        to_multiset_len(self.items@);
        assert(self.items.len() <= usize::MAX);
    }

    /// An item of the greatest rank, which stays in the queue.
    pub fn peek(&self) -> (item: Option<T>)
        requires
            self.wf(),
        ensures
            match item {
                Some(item) => {
                    &&& self@.contains(item)
                    &&& forall|other: T| #[trigger]
                        self@.contains(other) ==> other.rank() <= item.rank()
                },
                None => self@.len() == 0,
            },
    {
        proof {
            to_multiset_len(self.items@);
            self.lemma_first();
        }
        if self.items.len() == 0 {
            None
        } else {
            Some(self.items[0])
        }
    }

    /// The first item is in the queue and has the greatest rank.
    proof fn lemma_first(&self)
        requires
            self.wf(),
        ensures
            self.items@.len() > 0 ==> {
                &&& self@.contains(self.items@[0])
                &&& forall|other: T| #[trigger]
                    self@.contains(other) ==> other.rank() <= self.items@[0].rank()
            },
    {
        let s = self.items@;
        if s.len() > 0 {
            to_multiset_contains(s, s[0]);
            assert forall|other: T| #[trigger] self@.contains(other) implies other.rank()
                <= s[0].rank() by {
                to_multiset_contains(s, other);
                let j = choose|j: int| 0 <= j < s.len() && s[j] == other;
                lemma_first_greatest(s, j);
            }
        }
    }

    /// Adds an item.
    pub fn push(&mut self, item: T)
        requires
            old(self).wf(),
        ensures
            final(self).wf(),
            final(self)@ == old(self)@.insert(item),
    {
        let ghost before = self.items@;
        proof {
            to_multiset_build(before, item);
        }
        let mut i: usize = self.items.len();
        self.items.push(item);
        proof {
            let s = self.items@;
            assert forall|j: int| 0 < j < s.len() && j != i implies #[trigger] ordered_at(s, j) by {
                assert(ordered_at(before, j));
            }
        }
        while i > 0
            invariant
                i < self.items@.len(),
                ordered_below(self.items@, i as int),
                self.items@.to_multiset() == before.to_multiset().insert(item),
            ensures
                heap_ordered(self.items@),
                self.items@.to_multiset() == before.to_multiset().insert(item),
            decreases i,
        {
            let parent: usize = (i - 1) / 2;
            let ghost s = self.items@;
            if !self.items[parent].ranks_below(&self.items[i]) {
                assert(ordered_at(s, i as int));
                break;
            }
            self.exchange(parent, i);
            proof {
                let t = self.items@;
                let (c, p) = (i as int, parent as int);
                assert forall|j: int| 0 < j < t.len() && j != p implies #[trigger] ordered_at(
                    t,
                    j,
                ) by {
                    assert(bridged_at(s, c, j));
                    assert(j != c ==> ordered_at(s, j));
                }
                assert forall|j: int| 0 < j < t.len() implies #[trigger] bridged_at(t, p, j) by {
                    assert(p > 0 ==> ordered_at(s, p));
                    assert(j != c ==> ordered_at(s, j));
                }
            }
            i = parent;
        }
    }

    /// Takes an item of the greatest rank out.
    pub fn pop(&mut self) -> (item: Option<T>)
        requires
            old(self).wf(),
        ensures
            final(self).wf(),
            match item {
                Some(item) => {
                    &&& old(self)@.contains(item)
                    &&& forall|other: T| #[trigger]
                        old(self)@.contains(other) ==> other.rank() <= item.rank()
                    &&& final(self)@ == old(self)@.remove(item)
                },
                None => old(self)@.len() == 0 && final(self)@ == old(self)@,
            },
    {
        let ghost before = self.items@;
        proof {
            to_multiset_len(before);
            self.lemma_first();
        }
        if self.items.len() == 0 {
            return None;
        }
        let item = self.items.swap_remove(0);
        proof {
            lemma_swap_remove(before);
            let s = self.items@;
            assert forall|j: int| 0 < j < s.len() && (j - 1) / 2 != 0 implies #[trigger] ordered_at(
                s,
                j,
            ) by {
                assert(ordered_at(before, j));
            }
        }
        let len: usize = self.items.len();
        let mut i: usize = 0;
        while len > 0 && i <= (len - 1) / 2 && 2 * i + 1 < len
            invariant
                len == self.items@.len(),
                len > 0 ==> i < len,
                ordered_above(self.items@, i as int),
                self.items@.to_multiset() == before.to_multiset().remove(item),
            ensures
                heap_ordered(self.items@),
                self.items@.to_multiset() == before.to_multiset().remove(item),
            decreases len - i,
        {
            let ghost s = self.items@;
            let left: usize = 2 * i + 1;
            let right: usize = left + 1;
            let child: usize = if right < len && self.items[left].ranks_below(&self.items[right]) {
                right
            } else {
                left
            };
            if !self.items[i].ranks_below(&self.items[child]) {
                proof {
                    assert forall|j: int| 0 < j < s.len() implies #[trigger] ordered_at(s, j) by {
                        if (j - 1) / 2 == i {
                            assert(j == left || j == right);
                        }
                    }
                }
                break;
            }
            self.exchange(i, child);
            proof {
                let t = self.items@;
                let (p, c) = (i as int, child as int);
                assert forall|j: int| 0 < j < t.len() && (j - 1) / 2 != c implies #[trigger] ordered_at(
                    t,
                    j,
                ) by {
                    assert(bridged_at(s, p, c));
                    if (j - 1) / 2 == p {
                        assert(j == left || j == right);
                    } else {
                        assert(ordered_at(s, j));
                    }
                }
                assert forall|j: int| 0 < j < t.len() implies #[trigger] bridged_at(t, c, j) by {
                    if (j - 1) / 2 == c {
                        assert(ordered_at(s, j));
                    }
                }
            }
            i = child;
        }
        Some(item)
    }

    /// Exchanges two items.
    fn exchange(&mut self, i: usize, j: usize)
        requires
            i < old(self).items@.len(),
            j < old(self).items@.len(),
            i != j,
        ensures
            final(self).items@ == old(self).items@.update(
                i as int,
                old(self).items@[j as int],
            ).update(j as int, old(self).items@[i as int]),
            final(self).items@.to_multiset() == old(self).items@.to_multiset(),
    {
        proof {
            lemma_exchange(self.items@, i as int, j as int);
        }
        let item = self.items[i];
        let other = self.items[j];
        self.items[i] = other;
        self.items[j] = item;
    }
}

/// Taking the first item out and putting the last in its place.
proof fn lemma_swap_remove<T>(s: Seq<T>)
    requires
        s.len() > 0,
    ensures
        s.update(0, s.last()).drop_last().to_multiset() == s.to_multiset().remove(s[0]),
{
    broadcast use vstd::multiset::group_multiset_axioms;

    let t = s.update(0, s.last());
    let last = s.len() - 1;
    to_multiset_update(s, 0, s.last());
    to_multiset_remove(t, last);
    assert(t.drop_last() =~= t.remove(last));
    to_multiset_contains(s, s[0]);
    assert(t.drop_last().to_multiset() =~= s.to_multiset().remove(s[0]));
}

} // verus!
