//! What merging the commits of an index in files into another index adds, and
//! whether they can be merged.

use crate::composite::CompositeIndex;
use crate::entry::IndexEntry;
use crate::model::{
    has_commit, ids_distinct, is_at, lemma_has_prefix, lemma_with_range, lemma_with_range_present,
    lemma_with_range_split, parents_at_hand, with_range, Entry,
};
use crate::mutable::MutableIndexSegment;
use crate::positions::IndexPosition;
use crate::readonly::{commits_of, has_file, lemma_has_file, levels_of, ReadonlyIndexSegment};
use crate::segment::IndexSegment;
use std::sync::Arc;
use vstd::prelude::*;

verus! {

/// The file of another stack that is taken to be a file of the own stack, because
/// it has the same name. Files that differ are passed over from the top, the one
/// with more commits first.
pub open spec fn shared_base(
    own: Option<Arc<ReadonlyIndexSegment>>,
    other: Option<Arc<ReadonlyIndexSegment>>,
) -> Option<Arc<ReadonlyIndexSegment>>
    decreases levels_of(own) + levels_of(other),
{
    match (own, other) {
        (Some(ours), Some(theirs)) => {
            proof {
                ours.lemma_entries();
                theirs.lemma_entries();
            }
            if ours.name_text() == theirs.name_text() {
                other
            } else if ours.entries().len() < theirs.entries().len() {
                shared_base(own, theirs.parent())
            } else {
                shared_base(ours.parent(), other)
            }
        },
        _ => None,
    }
}

/// Whether files of the same name in two stacks hold the same commits. The
/// name of a file is the hash of what it holds, so this is so unless hashes
/// collide.
pub open spec fn names_agree(
    a: Option<Arc<ReadonlyIndexSegment>>,
    b: Option<Arc<ReadonlyIndexSegment>>,
) -> bool {
    forall|name: Seq<char>, g: Seq<Entry>, h: Seq<Entry>|
        #![trigger has_file(a, name, g), has_file(b, name, h)]
        has_file(a, name, g) && has_file(b, name, h) ==> g == h
}

/// Whether a file is one of a stack.
pub open spec fn in_stack(
    stack: Option<Arc<ReadonlyIndexSegment>>,
    file: Arc<ReadonlyIndexSegment>,
) -> bool
    decreases levels_of(stack),
{
    match stack {
        Some(top) => {
            proof {
                top.lemma_entries();
            }
            top == file || in_stack(top.parent(), file)
        },
        None => false,
    }
}

/// Where names agree, the commits of a shared file are the first ones of the own
/// stack.
proof fn lemma_shared_base(
    own: Option<Arc<ReadonlyIndexSegment>>,
    other: Option<Arc<ReadonlyIndexSegment>>,
)
    requires
        names_agree(own, other),
    ensures
        commits_of(shared_base(own, other)).is_prefix_of(commits_of(own)),
        commits_of(shared_base(own, other)).is_prefix_of(commits_of(other)),
    decreases levels_of(own) + levels_of(other),
{
    match (own, other) {
        (Some(ours), Some(theirs)) => {
            lemma_has_file(ours);
            lemma_has_file(theirs);
            ours.lemma_entries();
            theirs.lemma_entries();
            if ours.name_text() == theirs.name_text() {
                assert(has_file(own, ours.name_text(), ours.entries()));
                assert(has_file(other, ours.name_text(), theirs.entries()));
            } else if ours.entries().len() < theirs.entries().len() {
                lemma_shared_base(own, theirs.parent());
                assert(commits_of(theirs.parent()).is_prefix_of(theirs.entries()));
            } else {
                lemma_shared_base(ours.parent(), other);
                assert(commits_of(ours.parent()).is_prefix_of(ours.entries()));
            }
        },
        _ => {},
    }
}

/// The commits of a file of a stack are the first ones of the stack.
proof fn lemma_in_stack(stack: Option<Arc<ReadonlyIndexSegment>>, file: Arc<ReadonlyIndexSegment>)
    requires
        in_stack(stack, file),
    ensures
        file.entries().is_prefix_of(commits_of(stack)),
    decreases levels_of(stack),
{
    match stack {
        Some(top) => {
            top.lemma_entries();
            if top != file {
                lemma_in_stack(top.parent(), file);
                assert(commits_of(top.parent()).is_prefix_of(top.entries()));
            }
        },
        None => {},
    }
}

/// The shared file of two stacks.
fn find_shared_base(
    own: &Arc<ReadonlyIndexSegment>,
    other: &Arc<ReadonlyIndexSegment>,
) -> (base: Option<Arc<ReadonlyIndexSegment>>)
    requires
        own.valid(),
        other.valid(),
    ensures
        base == shared_base(Some(*own), Some(*other)),
        base matches Some(file) ==> file.valid(),
        commits_of(base).len() <= other.entries().len(),
    decreases own.levels() + other.levels(),
{
    proof {
        own.lemma_valid();
        own.lemma_entries();
        other.lemma_valid();
        other.lemma_entries();
        reveal_with_fuel(shared_base, 2);
    }
    if own.has_name_of(other) {
        return Some(other.clone());
    }
    if own.as_composite().num_commits() < other.as_composite().num_commits() {
        match other.segment_parent_file() {
            Some(parent) => find_shared_base(own, parent),
            None => None,
        }
    } else {
        match own.segment_parent_file() {
            Some(parent) => find_shared_base(parent, other),
            None => None,
        }
    }
}

/// A commit that is not among those to be added is there after that if it was
/// there before.
proof fn lemma_not_added(g: Seq<Entry>, other: Seq<Entry>, from: int, to: int, i: int)
    requires
        ids_distinct(other),
        0 <= from <= to <= i < other.len(),
    ensures
        has_commit(with_range(g, other, from, to), other[i].commit_id) == has_commit(
            g,
            other[i].commit_id,
        ),
    decreases to - from,
{
    if from < to {
        lemma_not_added(g, other, from, to - 1, i);
        let before = with_range(g, other, from, to - 1);
        let after = with_range(g, other, from, to);
        let id = other[i].commit_id;
        assert(other[to - 1].commit_id != id);
        if has_commit(before, id) {
            let k = choose|k: int| is_at(before, id, k);
            assert(is_at(after, id, k));
        }
        if has_commit(after, id) {
            let k = choose|k: int| is_at(after, id, k);
            assert(is_at(before, id, k));
        }
    }
}

/// Whether those parents of the commit at place `i` that come before place `from`
/// are in another graph.
spec fn lower_parents_there(g: Seq<Entry>, other: Seq<Entry>, from: int, i: int) -> bool {
    forall|k: int|
        0 <= k < other[i].parents.len() && #[trigger] other[i].parents[k] < from ==> has_commit(
            g,
            other[other[i].parents[k] as int].commit_id,
        )
}

/// Tells whether those parents of a commit of an index that come before a position
/// are in another index.
fn has_lower_parents(
    index: &CompositeIndex<'_>,
    other: &CompositeIndex<'_>,
    entry: &IndexEntry<'_>,
    from: u32,
) -> (result: bool)
    requires
        index.valid(),
        other.valid(),
        entry.is_in(other.entries()),
    ensures
        result == lower_parents_there(
            index.entries(),
            other.entries(),
            from as int,
            entry.place() as int,
        ),
{
    let ghost h = other.entries();
    let ghost i = entry.place() as int;
    proof {
        other.lemma_valid();
        assert(entry.model() == h[i]);
    }
    let positions = entry.parent_positions();
    let mut k: usize = 0;
    while k < positions.len()
        invariant
            k <= positions@.len(),
            positions@ == h[i].parents,
            h == other.entries(),
            i == entry.place(),
            0 <= i < h.len(),
            forall|j: int| 0 <= j < h[i].parents.len() ==> #[trigger] h[i].parents[j] < i,
            index.valid(),
            other.valid(),
            forall|j: int|
                0 <= j < k && #[trigger] h[i].parents[j] < from ==> has_commit(
                    index.entries(),
                    h[h[i].parents[j] as int].commit_id,
                ),
        decreases positions@.len() - k,
    {
        let pos = positions.get(k);
        assert(h[i].parents[k as int] == pos.0);
        if pos.0 < from {
            let parent = other.entry_by_pos(pos);
            assert(parent.model() == h[pos.0 as int]);
            if !index.has_id(&parent.commit_id()) {
                return false;
            }
        }
        k += 1;
    }
    true
}

impl MutableIndexSegment {
    /// The number of commits of an index in files that are taken to be there.
    pub open spec fn num_shared(&self, other: Arc<ReadonlyIndexSegment>) -> int {
        commits_of(shared_base(self.parent(), Some(other))).len() as int
    }

    /// The commits after those of an index in files were added.
    pub open spec fn merged(&self, other: Arc<ReadonlyIndexSegment>) -> Seq<Entry> {
        let h = other.entries();
        with_range(self.entries(), h, self.num_shared(other), h.len() as int)
    }

    /// Whether the commits of an index in files can be added: the parents of those
    /// that are new are there, and there are not too many commits then.
    pub open spec fn fits_merge(&self, other: Arc<ReadonlyIndexSegment>) -> bool {
        &&& parents_at_hand(self.entries(), other.entries(), self.num_shared(other))
        &&& self.merged(other).len() <= u32::MAX
    }

    /// Whether the commits of an index in files can be merged in.
    pub fn can_merge(&self, other: &Arc<ReadonlyIndexSegment>) -> (result: bool)
        requires
            self.valid(),
            other.valid(),
        ensures
            result == self.fits_merge(*other),
    {
        let ghost g = self.entries();
        let ghost h = other.entries();
        assert(self.parent() matches Some(parent) ==> parent.valid()) by {
            self.lemma_valid();
        }
        assert(ids_distinct(h)) by {
            other.lemma_valid();
        }
        let base: Option<Arc<ReadonlyIndexSegment>> = match self.segment_parent_file() {
            Some(parent) => find_shared_base(parent, other),
            None => None,
        };
        let from: u32 = match &base {
            Some(file) => file.as_composite().num_commits(),
            None => 0,
        };
        assert(from == self.num_shared(*other));
        let own_index = self.as_composite();
        let other_index = other.as_composite();
        let end: u32 = other_index.num_commits();
        let mut count: u64 = own_index.num_commits() as u64;
        let mut pos: u32 = from;
        while pos < end
            invariant
                from <= pos <= end,
                end == h.len(),
                ids_distinct(h),
                own_index.valid(),
                own_index.entries() == g,
                other_index.valid(),
                other_index.entries() == h,
                g == self.entries(),
                h == other.entries(),
                from == self.num_shared(*other),
                count == with_range(g, h, from as int, pos as int).len(),
                count <= u32::MAX + pos,
                forall|i: int|
                    from <= i < pos && !has_commit(g, (#[trigger] h[i]).commit_id)
                        ==> lower_parents_there(g, h, from as int, i),
            decreases end - pos,
        {
            let entry = other_index.entry_by_pos(IndexPosition(pos));
            assert(entry.model() == h[pos as int]);
            proof {
                lemma_not_added(g, h, from as int, pos as int, pos as int);
            }
            if !own_index.has_id(&entry.commit_id()) {
                if !has_lower_parents(&own_index, &other_index, &entry, from) {
                    proof {
                        let k = choose|k: int|
                            0 <= k < h[pos as int].parents.len()
                                && #[trigger] h[pos as int].parents[k] < from && !has_commit(
                                g,
                                h[h[pos as int].parents[k] as int].commit_id,
                            );
                        assert(!parents_at_hand(g, h, from as int));
                    }
                    return false;
                }
                count += 1;
            }
            pos += 1;
        }
        proof {
            assert forall|i: int, k: int|
                #![trigger h[i].parents[k]]
                from <= i < h.len() && 0 <= k < h[i].parents.len() && !has_commit(
                    g,
                    h[i].commit_id,
                ) && h[i].parents[k] < from implies has_commit(
                g,
                h[h[i].parents[k] as int].commit_id,
            ) by {
                assert(lower_parents_there(g, h, from as int, i));
            }
        }
        count <= u32::MAX as u64
    }

    /// Where names agree, merging adds all commits that are not there yet.
    pub proof fn law_merged(&self, other: Arc<ReadonlyIndexSegment>)
        requires
            names_agree(self.parent(), Some(other)),
        ensures
            self.merged(other) == with_range(
                self.entries(),
                other.entries(),
                0,
                other.entries().len() as int,
            ),
            parents_at_hand(self.entries(), other.entries(), self.num_shared(other)),
    {
        let (g, h) = (self.entries(), other.entries());
        let m = self.num_shared(other);
        let bottom = commits_of(shared_base(self.parent(), Some(other)));
        lemma_shared_base(self.parent(), Some(other));
        self.lemma_entries();
        assert(bottom.is_prefix_of(g));
        assert forall|i: int| 0 <= i < m implies has_commit(g, (#[trigger] h[i]).commit_id) by {
            assert(bottom[i] == h[i]);
            assert(is_at(g, h[i].commit_id, i));
        }
        lemma_with_range_present(g, h, 0, m);
        lemma_with_range_split(g, h, 0, m, h.len() as int);
    }

    /// Once the commits of an index in files were merged in, and whatever was added
    /// after that, merging it again changes nothing.
    pub proof fn law_merge_again(
        &self,
        other: Arc<ReadonlyIndexSegment>,
        later: MutableIndexSegment,
    )
        requires
            self.valid(),
            other.valid(),
            self.fits_merge(other),
            later.valid(),
            later.parent() == self.parent(),
            self.merged(other).is_prefix_of(later.entries()),
        ensures
            later.fits_merge(other),
            later.merged(other) == later.entries(),
    {
        let (g, h) = (self.entries(), other.entries());
        let m = self.num_shared(other);
        self.lemma_valid();
        other.lemma_valid();
        later.lemma_valid();
        lemma_shared_size(self.parent(), Some(other));
        lemma_with_range(g, h, m, h.len() as int);
        assert forall|i: int| m <= i < h.len() implies has_commit(
            later.entries(),
            (#[trigger] h[i]).commit_id,
        ) by {
            lemma_has_prefix(self.merged(other), later.entries(), h[i].commit_id);
        }
        lemma_with_range_present(later.entries(), h, m, h.len() as int);
    }

    /// Merging a file that the index is on top of changes nothing.
    pub proof fn law_merge_own(&self, file: Arc<ReadonlyIndexSegment>)
        requires
            self.valid(),
            in_stack(self.parent(), file),
        ensures
            self.fits_merge(file),
            self.merged(file) == self.entries(),
    {
        let (g, h) = (self.entries(), file.entries());
        let m = self.num_shared(file);
        self.lemma_valid();
        self.lemma_entries();
        lemma_in_stack(self.parent(), file);
        assert(h.is_prefix_of(g));
        assert forall|i: int| 0 <= i < h.len() implies has_commit(
            g,
            (#[trigger] h[i]).commit_id,
        ) by {
            assert(is_at(g, h[i].commit_id, i));
        }
        lemma_with_range_present(g, h, m, h.len() as int);
    }
}

/// A shared file has no more commits than the other stack.
proof fn lemma_shared_size(
    own: Option<Arc<ReadonlyIndexSegment>>,
    other: Option<Arc<ReadonlyIndexSegment>>,
)
    ensures
        commits_of(shared_base(own, other)).len() <= commits_of(other).len(),
    decreases levels_of(own) + levels_of(other),
{
    match (own, other) {
        (Some(ours), Some(theirs)) => {
            ours.lemma_entries();
            theirs.lemma_entries();
            if ours.name_text() == theirs.name_text() {
            } else if ours.entries().len() < theirs.entries().len() {
                lemma_shared_size(own, theirs.parent());
            } else {
                lemma_shared_size(ours.parent(), other);
            }
        },
        _ => {},
    }
}

} // verus!
