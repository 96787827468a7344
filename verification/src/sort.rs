//! Sorting positions.

use crate::heap::{HeapItem, MaxHeap};
use vstd::multiset::Multiset;
use vstd::prelude::*;
use vstd::seq_lib::{to_multiset_build, to_multiset_contains, to_multiset_len, to_multiset_remove};

verus! {

impl HeapItem for u32 {
    open spec fn rank(&self) -> int {
        *self as int
    }

    fn ranks_below(&self, other: &Self) -> (result: bool) {
        *self < *other
    }
}

/// Whether a sequence is sorted.
pub open spec fn is_sorted(s: Seq<u32>) -> bool {
    forall|i: int, j: int| #![trigger s[i], s[j]] 0 <= i < j < s.len() ==> s[i] <= s[j]
}

/// Returns the items in ascending order.
pub fn sorted(items: &[u32]) -> (result: Vec<u32>)
    ensures
        is_sorted(result@),
        result@.to_multiset() == items@.to_multiset(),
{
    let mut heap: MaxHeap<u32> = MaxHeap::new();
    let mut i: usize = 0;
    assert(items@.take(0).to_multiset() =~= Multiset::<u32>::empty()) by {
        lemma_empty_multiset(items@.take(0));
    }
    while i < items.len()
        invariant
            i <= items@.len(),
            items.len() == items@.len(),
            heap.wf(),
            heap@ == items@.take(i as int).to_multiset(),
        decreases items@.len() - i,
    {
        proof {
            to_multiset_build(items@.take(i as int), items@[i as int]);
            assert(items@.take(i + 1) =~= items@.take(i as int).push(items@[i as int]));
        }
        heap.push(items[i]);
        i += 1;
    }
    assert(items@.take(i as int) =~= items@);
    let mut down: Vec<u32> = Vec::new();
    proof {
        lemma_empty_multiset(down@);
        assert(heap@.add(down@.to_multiset()) =~= items@.to_multiset());
    }
    loop
        invariant
            heap.wf(),
            heap@.add(down@.to_multiset()) == items@.to_multiset(),
            is_sorted(down@.reverse()),
            forall|k: int, x: u32|
                #![trigger down@[k], heap@.contains(x)]
                0 <= k < down@.len() && heap@.contains(x) ==> x <= down@[k],
        ensures
            down@.to_multiset() == items@.to_multiset(),
            is_sorted(down@.reverse()),
        decreases heap@.len(),
    {
        let ghost before = heap@;
        let ghost taken = down@;
        match heap.pop() {
            Some(x) => {
                down.push(x);
                proof {
                    broadcast use vstd::multiset::group_multiset_axioms;

                    to_multiset_build(taken, x);
                    assert(before.remove(x).insert(x) =~= before);
                    assert(heap@.add(down@.to_multiset()) =~= before.add(taken.to_multiset()));
                    let (s, t) = (taken.reverse(), down@.reverse());
                    assert forall|i: int, j: int|
                        #![trigger t[i], t[j]]
                        0 <= i < j < t.len() implies t[i] <= t[j] by {
                        assert(t[j] == s[j - 1]);
                        if i > 0 {
                            assert(t[i] == s[i - 1]);
                        } else {
                            assert(s[j - 1] == taken[taken.len() - j]);
                            assert(before.contains(x));
                        }
                    }
                    assert forall|k: int, y: u32|
                        #![trigger down@[k], heap@.contains(y)]
                        0 <= k < down@.len() && heap@.contains(y) implies y <= down@[k] by {
                        assert(before.contains(y));
                        if k < taken.len() {
                            assert(down@[k] == taken[k]);
                        } else {
                            assert(y.rank() <= x.rank());
                        }
                    }
                }
            },
            None => {
                proof {
                    broadcast use vstd::multiset::group_multiset_axioms;

                    assert(heap@ =~= Multiset::<u32>::empty()) by {
                        assert forall|y: u32| heap@.count(y) == 0 by {
                            if heap@.contains(y) {
                                assert(heap@.remove(y).insert(y) =~= heap@);
                            }
                        }
                    }
                    assert(heap@.add(down@.to_multiset()) =~= down@.to_multiset());
                }
                break;
            },
        }
    }
    let mut result: Vec<u32> = Vec::new();
    let mut k: usize = down.len();
    while k > 0
        invariant
            k <= down@.len(),
            result@ == down@.reverse().take(down@.len() - k),
        decreases k,
    {
        k -= 1;
        result.push(down[k]);
        assert(result@ =~= down@.reverse().take(down@.len() - k));
    }
    proof {
        assert(result@ =~= down@.reverse());
        down@.lemma_reverse_to_multiset();
    }
    result
}

/// Returns the items in ascending order, each once.
pub fn sorted_distinct(items: &[u32]) -> (result: Vec<u32>)
    ensures
        forall|i: int, j: int|
            #![trigger result@[i], result@[j]]
            0 <= i < j < result@.len() ==> result@[i] < result@[j],
        forall|x: u32| #[trigger] result@.contains(x) <==> items@.contains(x),
{
    let all = sorted(items);
    proof {
        lemma_same_items(all@, items@);
    }
    let mut result: Vec<u32> = Vec::new();
    let mut i: usize = 0;
    while i < all.len()
        invariant
            i <= all@.len(),
            is_sorted(all@),
            forall|k: int, j: int|
                #![trigger result@[k], result@[j]]
                0 <= k < j < result@.len() ==> result@[k] < result@[j],
            forall|k: int|
                0 <= k < result@.len() ==> exists|j: int|
                    0 <= j < i && #[trigger] all@[j] == #[trigger] result@[k],
            forall|j: int| 0 <= j < i ==> result@.contains(#[trigger] all@[j]),
            i > 0 ==> result@.len() > 0 && result@.last() == all@[i - 1],
            i == 0 ==> result@.len() == 0,
        decreases all@.len() - i,
    {
        let ghost before = result@;
        if i == 0 || all[i - 1] != all[i] {
            result.push(all[i]);
            proof {
                assert forall|k: int, j: int|
                    #![trigger result@[k], result@[j]]
                    0 <= k < j < result@.len() implies result@[k] < result@[j] by {
                    if j == before.len() {
                        let m = choose|m: int|
                            0 <= m < i && #[trigger] all@[m] == #[trigger] before[k];
                        assert(all@[m] <= all@[i - 1]);
                        assert(all@[i - 1] <= all@[i as int]);
                    }
                }
                assert forall|k: int| 0 <= k < result@.len() implies exists|j: int|
                    0 <= j < i + 1 && #[trigger] all@[j] == #[trigger] result@[k] by {
                    if k < before.len() {
                        let m = choose|m: int|
                            0 <= m < i && #[trigger] all@[m] == #[trigger] before[k];
                        assert(all@[m] == result@[k]);
                    } else {
                        assert(all@[i as int] == result@[k]);
                    }
                }
                assert forall|j: int| 0 <= j < i + 1 implies result@.contains(
                    #[trigger] all@[j],
                ) by {
                    if j < i {
                        assert(before.contains(all@[j]));
                        let k = choose|k: int| 0 <= k < before.len() && before[k] == all@[j];
                        assert(result@[k] == all@[j]);
                    } else {
                        assert(result@[before.len() as int] == all@[j]);
                    }
                }
            }
        } else {
            proof {
                assert(before[before.len() - 1] == all@[i as int]);
            }
        }
        i += 1;
    }
    proof {
        assert forall|x: u32| #[trigger] result@.contains(x) <==> items@.contains(x) by {
            if result@.contains(x) {
                let k = choose|k: int| 0 <= k < result@.len() && result@[k] == x;
                let j = choose|j: int|
                    0 <= j < i && #[trigger] all@[j] == #[trigger] result@[k];
                assert(all@.contains(x));
            }
            if all@.contains(x) {
                let j = choose|j: int| 0 <= j < all@.len() && all@[j] == x;
                assert(result@.contains(all@[j]));
            }
        }
    }
    result
}

/// An empty sequence holds nothing.
proof fn lemma_empty_multiset(s: Seq<u32>)
    requires
        s.len() == 0,
    ensures
        s.to_multiset() == Multiset::<u32>::empty(),
{
    broadcast use vstd::multiset::group_multiset_axioms;

    assert forall|x: u32| s.to_multiset().count(x) == 0 by {
        to_multiset_contains(s, x);
    }
    assert(s.to_multiset() =~= Multiset::<u32>::empty());
}

/// Sequences that hold the same items have the same items.
pub proof fn lemma_same_items(a: Seq<u32>, b: Seq<u32>)
    requires
        a.to_multiset() == b.to_multiset(),
    ensures
        a.len() == b.len(),
        forall|x: u32| #[trigger] a.contains(x) <==> b.contains(x),
{
    to_multiset_len(a);
    to_multiset_len(b);
    assert forall|x: u32| #[trigger] a.contains(x) <==> b.contains(x) by {
        to_multiset_contains(a, x);
        to_multiset_contains(b, x);
    }
}

/// Sequences that hold the same items hold the same values of a function of
/// these.
pub proof fn lemma_same_images<T>(a: Seq<u32>, b: Seq<u32>, f: spec_fn(u32) -> T)
    requires
        a.to_multiset() == b.to_multiset(),
    ensures
        a.map_values(f).to_multiset() == b.map_values(f).to_multiset(),
    decreases a.len(),
{
    broadcast use vstd::multiset::group_multiset_axioms;

    lemma_same_items(a, b);
    if a.len() == 0 {
        assert(a.map_values(f) =~= b.map_values(f));
    } else {
        let x = a.last();
        assert(a.contains(x));
        let i = choose|i: int| 0 <= i < b.len() && b[i] == x;
        let a1 = a.drop_last();
        let b1 = b.remove(i);
        to_multiset_remove(b, i);
        assert(a =~= a1.push(x));
        to_multiset_build(a1, x);
        assert(a1.to_multiset().insert(x).remove(x) =~= a1.to_multiset());
        lemma_same_images(a1, b1, f);
        assert(a.map_values(f) =~= a1.map_values(f).push(f(x)));
        to_multiset_build(a1.map_values(f), f(x));
        assert(b.map_values(f).remove(i) =~= b1.map_values(f));
        to_multiset_remove(b.map_values(f), i);
        to_multiset_contains(b.map_values(f), f(x));
        assert(b.map_values(f)[i] == f(x));
        assert(b.map_values(f).to_multiset() =~= b1.map_values(f).to_multiset().insert(f(x)));
    }
}

} // verus!
