//! Positions of commits in an index.

use smallvec::SmallVec;
use vstd::prelude::*;

verus! {

/// The position of a commit in an index. Positions count from 0, and a commit
/// comes after its parents.
#[derive(Debug, PartialEq, Eq, PartialOrd, Ord, Clone, Copy, Hash, Structural)]
pub struct IndexPosition(pub u32);

/// A vector of positions, which keeps up to four of them in place.
#[verifier::external_body]
pub struct SmallIndexPositionsVec {
    items: SmallVec<[u32; 4]>,
}

/// What a `SmallVec` of positions holds, in order.
pub uninterp spec fn small_vec_items(v: SmallIndexPositionsVec) -> Seq<u32>;

impl View for SmallIndexPositionsVec {
    type V = Seq<u32>;

    open spec fn view(&self) -> Seq<u32> {
        small_vec_items(*self)
    }
}

impl SmallIndexPositionsVec {
    /// Calls `SmallVec::new`, which makes an empty vector.
    #[verifier::external_body]
    pub(crate) fn new() -> (result: Self)
        ensures
            small_vec_items(result) == Seq::<u32>::empty(),
    {
        SmallIndexPositionsVec { items: SmallVec::new() }
    }

    /// Calls `SmallVec::push`, which appends an item.
    #[verifier::external_body]
    pub(crate) fn push(&mut self, pos: IndexPosition)
        ensures
            small_vec_items(*final(self)) == small_vec_items(*old(self)).push(pos.0),
    {
        self.items.push(pos.0)
    }

    /// Calls `SmallVec::len`, which gives the number of items.
    #[verifier::external_body]
    pub(crate) fn len(&self) -> (len: usize)
        ensures
            len == small_vec_items(*self).len(),
    {
        self.items.len()
    }

    /// Indexes a `SmallVec`, which gives the item at a place inside it.
    #[verifier::external_body]
    pub(crate) fn get(&self, i: usize) -> (pos: IndexPosition)
        requires
            i < small_vec_items(*self).len(),
        ensures
            pos.0 == small_vec_items(*self)[i as int],
    {
        IndexPosition(self.items[i])
    }

    /// The positions, in order.
    pub fn to_vec(&self) -> (result: Vec<IndexPosition>)
        ensures
            result@ == self@.map_values(|pos: u32| IndexPosition(pos)),
    {
        let mut result: Vec<IndexPosition> = Vec::new();
        let mut i: usize = 0;
        while i < self.len()
            invariant
                i <= self@.len(),
                result@ == self@.take(i as int).map_values(|pos: u32| IndexPosition(pos)),
            decreases self@.len() - i,
        {
            result.push(self.get(i));
            i += 1;
            assert(result@ =~= self@.take(i as int).map_values(|pos: u32| IndexPosition(pos)));
        }
        assert(self@.take(i as int) =~= self@);
        result
    }
}

impl Clone for SmallIndexPositionsVec {
    /// Calls `SmallVec::clone`, which copies the items.
    #[verifier::external_body]
    fn clone(&self) -> (result: Self)
        ensures
            small_vec_items(result) == small_vec_items(*self),
    {
        SmallIndexPositionsVec { items: self.items.clone() }
    }
}

} // verus!
