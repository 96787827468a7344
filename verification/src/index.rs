//! The commit index: one that is in files, and one that commits can be added to.

use crate::ancestry::common_ancestor_set;
use crate::composite::{is_shortest_unique_len, CompositeIndex};
use crate::format::index_file;
use crate::hex_digits::hex_text;
use crate::ids::{id_bytes, resolves, ChangeId, Commit, CommitId, HexPrefix, PrefixResolution};
use crate::merging::names_agree;
use crate::model::{
    commit_ids, has_all, has_commit, parent_links, place_of, with_commit, with_range, Entry,
};
use crate::mutable::MutableIndexSegment;
use crate::paths::reaches;
use crate::queries::{are_head_ids, place_set};
use crate::readonly::{file_levels, is_halving, squash_base, IndexLoadError, ReadonlyIndexSegment};
use crate::save::{blake2b512, name_bytes, name_sized, SaveAction};
use crate::segment::IndexSegment;
use std::sync::Arc;
use vstd::prelude::*;

verus! {

/// A commit index that is in files.
pub struct DefaultReadonlyIndex(Arc<ReadonlyIndexSegment>);

impl Clone for DefaultReadonlyIndex {
    fn clone(&self) -> (index: Self)
        ensures
            index.file() == self.file(),
    {
        DefaultReadonlyIndex(self.0.clone())
    }
}

impl DefaultReadonlyIndex {
    /// The file on top.
    pub closed spec fn file(&self) -> Arc<ReadonlyIndexSegment> {
        self.0
    }

    /// The commits, in order of their positions.
    pub open spec fn entries(&self) -> Seq<Entry> {
        self.file().entries()
    }

    /// Whether the files hold what an index writes.
    pub open spec fn valid(&self) -> bool {
        self.file().valid()
    }

    /// The index in a file and its ancestor files.
    pub fn new(file: Arc<ReadonlyIndexSegment>) -> (index: Self)
        ensures
            index.file() == file,
    {
        DefaultReadonlyIndex(file)
    }

    pub fn as_composite(&self) -> (index: CompositeIndex<'_>)
        ensures
            index.entries() == self.entries(),
            index.valid() == self.valid(),
            index.segment_levels() == file_levels(Some(self.file())),
    {
        self.0.as_composite()
    }

    /// An index with the same commits that commits can be added to.
    pub fn start_modification(&self) -> (index: DefaultMutableIndex)
        requires
            self.valid(),
        ensures
            index.valid(),
            index.entries() == self.entries(),
            index.segment().parent() == Some(self.file()),
            index.segment().local() == Seq::<Entry>::empty(),
            index.segment().commit_id_len() == self.file().commit_id_len(),
            index.segment().change_id_len() == self.file().change_id_len(),
    {
        proof {
            self.0.lemma_valid();
        }
        DefaultMutableIndex(MutableIndexSegment::incremental(self.0.clone()))
    }

    /// Returns the minimum number of hexadecimal digits that tell the given id
    /// from all other ids.
    pub fn shortest_unique_commit_id_prefix_len(&self, commit_id: &CommitId) -> (len: usize)
        requires
            self.valid(),
            2 * commit_id@.len() <= usize::MAX,
        ensures
            is_shortest_unique_len(self.entries(), commit_id@, len as int),
    {
        self.as_composite().shortest_unique_commit_id_prefix_len(commit_id)
    }

    /// Finds the commit whose id starts with the given prefix.
    pub fn resolve_prefix(&self, prefix: &HexPrefix) -> (resolution: PrefixResolution)
        requires
            self.valid(),
            prefix.wf(),
        ensures
            resolves(commit_ids(self.entries()), prefix@, resolution@),
    {
        self.as_composite().resolve_prefix(prefix)
    }

    /// Whether a commit with the given id is there.
    pub fn has_id(&self, commit_id: &CommitId) -> (result: bool)
        requires
            self.valid(),
        ensures
            result == has_commit(self.entries(), commit_id@),
    {
        self.as_composite().has_id(commit_id)
    }

    /// Whether a commit is an ancestor of another one, or the same.
    pub fn is_ancestor(&self, ancestor_id: &CommitId, descendant_id: &CommitId) -> (result: bool)
        requires
            self.valid(),
            has_commit(self.entries(), ancestor_id@),
            has_commit(self.entries(), descendant_id@),
        ensures
            result == reaches(
                parent_links(self.entries()),
                place_of(self.entries(), descendant_id@) as u32,
                place_of(self.entries(), ancestor_id@) as u32,
            ),
    {
        self.as_composite().is_ancestor(ancestor_id, descendant_id)
    }

    /// The common ancestors of two sets of commits that are not ancestors of
    /// other common ancestors, in the order of their positions.
    pub fn common_ancestors(&self, set1: &[CommitId], set2: &[CommitId]) -> (ids: Vec<CommitId>)
        requires
            self.valid(),
            has_all(self.entries(), id_bytes(set1@)),
            has_all(self.entries(), id_bytes(set2@)),
        ensures
            are_head_ids(
                self.entries(),
                common_ancestor_set(
                    self.entries(),
                    place_set(self.entries(), id_bytes(set1@)),
                    place_set(self.entries(), id_bytes(set2@)),
                ),
                id_bytes(ids@),
            ),
    {
        self.as_composite().common_ancestors(set1, set2)
    }

    /// Those of the given commits that are not ancestors of others of them, in
    /// the order of their positions.
    pub fn heads(&self, candidates: &[CommitId]) -> (ids: Vec<CommitId>)
        requires
            self.valid(),
            has_all(self.entries(), id_bytes(candidates@)),
        ensures
            are_head_ids(
                self.entries(),
                place_set(self.entries(), id_bytes(candidates@)),
                id_bytes(ids@),
            ),
    {
        self.as_composite().heads(candidates)
    }

    /// The given commits, with parents before their children.
    pub fn topo_order(&self, input: &[CommitId]) -> (ids: Vec<CommitId>)
        requires
            self.valid(),
            has_all(self.entries(), id_bytes(input@)),
        ensures
            id_bytes(ids@).to_multiset() == id_bytes(input@).to_multiset(),
            forall|i: int, j: int|
                #![trigger ids@[i], ids@[j]]
                0 <= i < j < ids@.len() ==> place_of(self.entries(), ids@[i]@) <= place_of(
                    self.entries(),
                    ids@[j]@,
                ),
    {
        self.as_composite().topo_order(input)
    }
}

/// In-memory mutable records for the on-disk commit index backend.
pub struct DefaultMutableIndex(MutableIndexSegment);

impl DefaultMutableIndex {
    /// The commits in memory, on top of a file.
    pub closed spec fn segment(&self) -> MutableIndexSegment {
        self.0
    }

    /// The commits, in order of their positions.
    pub open spec fn entries(&self) -> Seq<Entry> {
        self.segment().entries()
    }

    /// Whether the index holds a valid graph with the right lookup tables.
    pub open spec fn valid(&self) -> bool {
        self.segment().valid()
    }

    /// An index without commits.
    pub fn full(commit_id_length: usize, change_id_length: usize) -> (index: Self)
        ensures
            index.valid(),
            index.entries() == Seq::<Entry>::empty(),
            index.segment().parent() is None,
            index.segment().local() == Seq::<Entry>::empty(),
            index.segment().commit_id_len() == commit_id_length,
            index.segment().change_id_len() == change_id_length,
    {
        DefaultMutableIndex(MutableIndexSegment::full(commit_id_length, change_id_length))
    }

    pub fn as_composite(&self) -> (index: CompositeIndex<'_>)
        ensures
            index.entries() == self.entries(),
            index.valid() == self.valid(),
            index.segment_levels() == file_levels(self.segment().parent()).push(
                (self.segment().local().len() as int, None),
            ),
    {
        self.0.as_composite()
    }

    /// Adds a commit, unless it is there already.
    pub fn add_commit_data(
        &mut self,
        commit_id: CommitId,
        change_id: ChangeId,
        parent_ids: &[CommitId],
    )
        requires
            old(self).valid(),
            !has_commit(old(self).entries(), commit_id@) ==> {
                &&& has_all(old(self).entries(), id_bytes(parent_ids@))
                &&& old(self).entries().len() < u32::MAX
                &&& parent_ids@.len() <= u32::MAX
            },
        ensures
            final(self).valid(),
            final(self).entries() == with_commit(
                old(self).entries(),
                commit_id@,
                change_id@,
                id_bytes(parent_ids@),
            ),
            final(self).segment().parent() == old(self).segment().parent(),
            final(self).segment().commit_id_len() == old(self).segment().commit_id_len(),
            final(self).segment().change_id_len() == old(self).segment().change_id_len(),
    {
        self.0.add_commit_data(commit_id, change_id, parent_ids);
    }

    /// Adds a commit, unless it is there already.
    pub fn add_commit(&mut self, commit: &Commit)
        requires
            old(self).valid(),
            !has_commit(old(self).entries(), commit.id@) ==> {
                &&& has_all(old(self).entries(), id_bytes(commit.parent_ids@))
                &&& old(self).entries().len() < u32::MAX
                &&& commit.parent_ids@.len() <= u32::MAX
            },
        ensures
            final(self).valid(),
            final(self).entries() == with_commit(
                old(self).entries(),
                commit.id@,
                commit.change_id@,
                id_bytes(commit.parent_ids@),
            ),
            final(self).segment().parent() == old(self).segment().parent(),
            final(self).segment().commit_id_len() == old(self).segment().commit_id_len(),
            final(self).segment().change_id_len() == old(self).segment().change_id_len(),
    {
        self.0.add_commit(commit);
    }

    /// Whether the commits of another index can be merged in.
    pub fn can_merge(&self, other: &DefaultReadonlyIndex) -> (result: bool)
        requires
            self.valid(),
            other.valid(),
        ensures
            result == self.segment().fits_merge(other.file()),
    {
        self.0.can_merge(&other.0)
    }

    /// Adds the commits of another index that are not there yet, in their order.
    pub fn merge_in(&mut self, other: &DefaultReadonlyIndex)
        requires
            old(self).valid(),
            other.valid(),
            old(self).segment().fits_merge(other.file()),
        ensures
            final(self).valid(),
            final(self).entries() == old(self).segment().merged(other.file()),
            names_agree(old(self).segment().parent(), Some(other.file())) ==> final(self).entries()
                == with_range(
                old(self).entries(),
                other.entries(),
                0,
                other.entries().len() as int,
            ),
            final(self).segment().parent() == old(self).segment().parent(),
            final(self).segment().commit_id_len() == old(self).segment().commit_id_len(),
            final(self).segment().change_id_len() == old(self).segment().change_id_len(),
    {
        self.0.merge_in(other.0.clone());
    }

    /// Whether the index can be saved.
    pub fn can_save(&self) -> (result: bool)
        requires
            self.valid(),
        ensures
            result == self.segment().fits_file(),
    {
        self.0.can_save()
    }

    /// Saves the index: squashes it with its ancestor files, and makes a file of
    /// what then is in memory. An index without new commits stays in the parent
    /// file.
    pub fn save(self) -> (result: Result<SaveAction, IndexLoadError>)
        requires
            self.valid(),
            self.segment().fits_file(),
        ensures
            match result {
                Ok(SaveAction::Keep(file)) => self.segment().local().len() == 0
                    && self.segment().parent() == Some(file),
                Ok(SaveAction::Write(file)) => {
                    let base = squash_base(
                        self.segment().local().len() as int,
                        self.segment().parent(),
                    );
                    &&& self.segment().needs_file()
                    &&& file.segment.valid()
                    &&& file.segment.entries() == self.entries()
                    &&& file.segment.parent() == base
                    &&& file.segment.commit_id_len() == self.segment().commit_id_len()
                    &&& file.segment.change_id_len() == self.segment().change_id_len()
                    &&& file.segment.name_text() == file.name@
                    &&& name_sized(Some(file.segment))
                    &&& is_halving(self.segment().parent()) ==> is_halving(Some(file.segment))
                    &&& file.name@ == hex_text(blake2b512(file.content@))
                    &&& file.name@.len() == 128
                    &&& file.content@ == index_file(
                        name_bytes(base),
                        file.segment.local(),
                        file.segment.table(),
                    )
                },
                Err(_) => false,
            },
    {
        self.0.save()
    }

    /// Returns the minimum number of hexadecimal digits that tell the given id
    /// from all other ids.
    pub fn shortest_unique_commit_id_prefix_len(&self, commit_id: &CommitId) -> (len: usize)
        requires
            self.valid(),
            2 * commit_id@.len() <= usize::MAX,
        ensures
            is_shortest_unique_len(self.entries(), commit_id@, len as int),
    {
        self.as_composite().shortest_unique_commit_id_prefix_len(commit_id)
    }

    /// Finds the commit whose id starts with the given prefix.
    pub fn resolve_prefix(&self, prefix: &HexPrefix) -> (resolution: PrefixResolution)
        requires
            self.valid(),
            prefix.wf(),
        ensures
            resolves(commit_ids(self.entries()), prefix@, resolution@),
    {
        self.as_composite().resolve_prefix(prefix)
    }

    /// Whether a commit with the given id is there.
    pub fn has_id(&self, commit_id: &CommitId) -> (result: bool)
        requires
            self.valid(),
        ensures
            result == has_commit(self.entries(), commit_id@),
    {
        self.as_composite().has_id(commit_id)
    }

    /// Whether a commit is an ancestor of another one, or the same.
    pub fn is_ancestor(&self, ancestor_id: &CommitId, descendant_id: &CommitId) -> (result: bool)
        requires
            self.valid(),
            has_commit(self.entries(), ancestor_id@),
            has_commit(self.entries(), descendant_id@),
        ensures
            result == reaches(
                parent_links(self.entries()),
                place_of(self.entries(), descendant_id@) as u32,
                place_of(self.entries(), ancestor_id@) as u32,
            ),
    {
        self.as_composite().is_ancestor(ancestor_id, descendant_id)
    }

    /// The common ancestors of two sets of commits that are not ancestors of
    /// other common ancestors, in the order of their positions.
    pub fn common_ancestors(&self, set1: &[CommitId], set2: &[CommitId]) -> (ids: Vec<CommitId>)
        requires
            self.valid(),
            has_all(self.entries(), id_bytes(set1@)),
            has_all(self.entries(), id_bytes(set2@)),
        ensures
            are_head_ids(
                self.entries(),
                common_ancestor_set(
                    self.entries(),
                    place_set(self.entries(), id_bytes(set1@)),
                    place_set(self.entries(), id_bytes(set2@)),
                ),
                id_bytes(ids@),
            ),
    {
        self.as_composite().common_ancestors(set1, set2)
    }

    /// Those of the given commits that are not ancestors of others of them, in
    /// the order of their positions.
    pub fn heads(&self, candidates: &[CommitId]) -> (ids: Vec<CommitId>)
        requires
            self.valid(),
            has_all(self.entries(), id_bytes(candidates@)),
        ensures
            are_head_ids(
                self.entries(),
                place_set(self.entries(), id_bytes(candidates@)),
                id_bytes(ids@),
            ),
    {
        self.as_composite().heads(candidates)
    }

    /// The given commits, with parents before their children.
    pub fn topo_order(&self, input: &[CommitId]) -> (ids: Vec<CommitId>)
        requires
            self.valid(),
            has_all(self.entries(), id_bytes(input@)),
        ensures
            id_bytes(ids@).to_multiset() == id_bytes(input@).to_multiset(),
            forall|i: int, j: int|
                #![trigger ids@[i], ids@[j]]
                0 <= i < j < ids@.len() ==> place_of(self.entries(), ids@[i]@) <= place_of(
                    self.entries(),
                    ids@[j]@,
                ),
    {
        self.as_composite().topo_order(input)
    }
}

} // verus!
