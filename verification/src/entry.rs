//! Commits of an index, each together with the segment that holds it.

use crate::composite::CompositeIndex;
use crate::format::is_lookup_table;
use crate::ids::{id_bytes, ChangeId, CommitId, HexPrefix, PrefixResolution};
use crate::model::{ids_at, valid_graph, Entry};
use crate::mutable::MutableIndexSegment;
use crate::positions::{IndexPosition, SmallIndexPositionsVec};
use crate::readonly::ReadonlyIndexSegment;
use crate::segment::IndexSegment;
use std::sync::Arc;
use vstd::prelude::*;

verus! {

/// A segment of either kind.
#[derive(Clone, Copy)]
pub enum SegmentRef<'a> {
    Readonly(&'a ReadonlyIndexSegment),
    Mutable(&'a MutableIndexSegment),
}

impl<'a> IndexSegment for SegmentRef<'a> {
    open spec fn parent(&self) -> Option<Arc<ReadonlyIndexSegment>> {
        match *self {
            SegmentRef::Readonly(segment) => segment.parent(),
            SegmentRef::Mutable(segment) => segment.parent(),
        }
    }

    open spec fn base(&self) -> int {
        match *self {
            SegmentRef::Readonly(segment) => segment.base(),
            SegmentRef::Mutable(segment) => segment.base(),
        }
    }

    open spec fn local(&self) -> Seq<Entry> {
        match *self {
            SegmentRef::Readonly(segment) => segment.local(),
            SegmentRef::Mutable(segment) => segment.local(),
        }
    }

    open spec fn table(&self) -> Seq<(Seq<u8>, u32)> {
        match *self {
            SegmentRef::Readonly(segment) => segment.table(),
            SegmentRef::Mutable(segment) => segment.table(),
        }
    }

    open spec fn file_name(&self) -> Option<Seq<char>> {
        match *self {
            SegmentRef::Readonly(segment) => segment.file_name(),
            SegmentRef::Mutable(segment) => segment.file_name(),
        }
    }

    open spec fn readable(&self) -> bool {
        match *self {
            SegmentRef::Readonly(segment) => segment.readable(),
            SegmentRef::Mutable(segment) => segment.readable(),
        }
    }

    open spec fn parents_readable(&self, local_pos: int) -> bool {
        match *self {
            SegmentRef::Readonly(segment) => segment.parents_readable(local_pos),
            SegmentRef::Mutable(segment) => segment.parents_readable(local_pos),
        }
    }

    fn segment_num_parent_commits(&self) -> (number: u32) {
        match self {
            SegmentRef::Readonly(segment) => segment.segment_num_parent_commits(),
            SegmentRef::Mutable(segment) => segment.segment_num_parent_commits(),
        }
    }

    fn segment_num_commits(&self) -> (number: u32) {
        match self {
            SegmentRef::Readonly(segment) => segment.segment_num_commits(),
            SegmentRef::Mutable(segment) => segment.segment_num_commits(),
        }
    }

    fn segment_parent_file(&self) -> (parent: Option<&Arc<ReadonlyIndexSegment>>) {
        match self {
            SegmentRef::Readonly(segment) => segment.segment_parent_file(),
            SegmentRef::Mutable(segment) => segment.segment_parent_file(),
        }
    }

    fn segment_name(&self) -> (name: Option<String>) {
        match self {
            SegmentRef::Readonly(segment) => segment.segment_name(),
            SegmentRef::Mutable(segment) => segment.segment_name(),
        }
    }

    fn segment_commit_id_to_pos(&self, commit_id: &CommitId) -> (pos: Option<IndexPosition>) {
        match self {
            SegmentRef::Readonly(segment) => segment.segment_commit_id_to_pos(commit_id),
            SegmentRef::Mutable(segment) => segment.segment_commit_id_to_pos(commit_id),
        }
    }

    fn segment_commit_id_to_neighbor_positions(&self, commit_id: &CommitId) -> (neighbors: (
        Option<IndexPosition>,
        Option<IndexPosition>,
    )) {
        match self {
            SegmentRef::Readonly(segment) => segment.segment_commit_id_to_neighbor_positions(
                commit_id,
            ),
            SegmentRef::Mutable(segment) => segment.segment_commit_id_to_neighbor_positions(
                commit_id,
            ),
        }
    }

    fn segment_resolve_prefix(&self, prefix: &HexPrefix) -> (resolution: PrefixResolution) {
        match self {
            SegmentRef::Readonly(segment) => segment.segment_resolve_prefix(prefix),
            SegmentRef::Mutable(segment) => segment.segment_resolve_prefix(prefix),
        }
    }

    fn segment_generation_number(&self, local_pos: u32) -> (generation: u32) {
        match self {
            SegmentRef::Readonly(segment) => segment.segment_generation_number(local_pos),
            SegmentRef::Mutable(segment) => segment.segment_generation_number(local_pos),
        }
    }

    fn segment_commit_id(&self, local_pos: u32) -> (id: CommitId) {
        match self {
            SegmentRef::Readonly(segment) => segment.segment_commit_id(local_pos),
            SegmentRef::Mutable(segment) => segment.segment_commit_id(local_pos),
        }
    }

    fn segment_change_id(&self, local_pos: u32) -> (id: ChangeId) {
        match self {
            SegmentRef::Readonly(segment) => segment.segment_change_id(local_pos),
            SegmentRef::Mutable(segment) => segment.segment_change_id(local_pos),
        }
    }

    fn segment_num_parents(&self, local_pos: u32) -> (number: u32) {
        match self {
            SegmentRef::Readonly(segment) => segment.segment_num_parents(local_pos),
            SegmentRef::Mutable(segment) => segment.segment_num_parents(local_pos),
        }
    }

    fn segment_parent_positions(&self, local_pos: u32) -> (positions: SmallIndexPositionsVec) {
        match self {
            SegmentRef::Readonly(segment) => segment.segment_parent_positions(local_pos),
            SegmentRef::Mutable(segment) => segment.segment_parent_positions(local_pos),
        }
    }
}

impl<'a> SegmentRef<'a> {
    /// The commits of the segment and of its ancestor files.
    pub open spec fn entries(&self) -> Seq<Entry> {
        match *self {
            SegmentRef::Readonly(segment) => segment.entries(),
            SegmentRef::Mutable(segment) => segment.entries(),
        }
    }

    /// Whether the segment and its ancestor files hold what an index writes.
    pub open spec fn valid(&self) -> bool {
        match *self {
            SegmentRef::Readonly(segment) => segment.valid(),
            SegmentRef::Mutable(segment) => segment.valid(),
        }
    }

    /// The number of segments in the stack.
    pub open spec fn levels(&self) -> nat {
        match self.parent() {
            Some(parent) => parent.levels() + 1,
            None => 1,
        }
    }

    /// What is known of a valid segment.
    pub proof fn lemma_valid(&self)
        requires
            self.valid(),
        ensures
            self.readable(),
            self.base() >= 0,
            valid_graph(self.entries()),
            is_lookup_table(self.table(), self.local(), self.base()),
            forall|i: int| 0 <= i < self.local().len() ==> #[trigger] self.parents_readable(i),
            self.entries().len() == self.base() + self.local().len(),
            forall|i: int|
                0 <= i < self.local().len() ==> #[trigger] self.local()[i]
                    == self.entries()[self.base() + i],
            match self.parent() {
                Some(parent) => {
                    &&& parent.valid()
                    &&& self.base() == parent.entries().len()
                    &&& parent.entries().is_prefix_of(self.entries())
                    &&& SegmentRef::Readonly(&*parent).levels() == parent.levels()
                },
                None => self.base() == 0,
            },
    {
        match *self {
            SegmentRef::Readonly(segment) => {
                segment.lemma_valid();
                segment.lemma_readable();
                segment.lemma_entries();
            },
            SegmentRef::Mutable(segment) => {
                segment.lemma_valid();
                segment.lemma_readable();
                segment.lemma_entries();
            },
        }
        match self.parent() {
            Some(parent) => {
                parent.lemma_entries();
            },
            None => {},
        }
    }

    /// The parent file.
    pub fn parent_file(self) -> (parent: Option<&'a Arc<ReadonlyIndexSegment>>)
        ensures
            match parent {
                Some(file) => self.parent() == Some(*file),
                None => self.parent() is None,
            },
    {
        match self {
            SegmentRef::Readonly(segment) => segment.segment_parent_file(),
            SegmentRef::Mutable(segment) => segment.segment_parent_file(),
        }
    }
}

/// A commit of an index.
#[derive(Clone, Copy)]
pub struct IndexEntry<'a> {
    source: SegmentRef<'a>,
    pos: IndexPosition,
    // Position within the source segment
    local_pos: u32,
}

impl PartialEq for IndexEntry<'_> {
    fn eq(&self, other: &Self) -> (result: bool) {
        self.pos.0 == other.pos.0
    }
}

impl vstd::std_specs::cmp::PartialEqSpecImpl for IndexEntry<'_> {
    open spec fn obeys_eq_spec() -> bool {
        true
    }

    open spec fn eq_spec(&self, other: &Self) -> bool {
        self.place() == other.place()
    }
}

impl Eq for IndexEntry<'_> {

}

impl<'a> IndexEntry<'a> {
    /// Whether the entry stands for a commit of a valid index.
    pub closed spec fn wf(&self) -> bool {
        &&& self.source.valid()
        &&& self.local_pos < self.source.local().len()
        &&& self.pos.0 == self.source.base() + self.local_pos
    }

    /// The position.
    pub closed spec fn place(&self) -> u32 {
        self.pos.0
    }

    /// The position within the segment that holds the commit.
    pub closed spec fn local_place(&self) -> u32 {
        self.local_pos
    }

    /// The commits of the segment that holds the commit and of its ancestor
    /// files: the first commits of the index.
    pub closed spec fn index_part(&self) -> Seq<Entry> {
        self.source.entries()
    }

    /// Whether the entry stands for the commit at its position of an index
    /// with the commits `g`.
    pub open spec fn is_in(&self, g: Seq<Entry>) -> bool {
        &&& self.wf()
        &&& self.place() < self.index_part().len()
        &&& self.index_part().is_prefix_of(g)
    }

    /// The commit that the entry stands for.
    pub open spec fn model(&self) -> Entry {
        self.index_part()[self.place() as int]
    }

    /// What is known of a commit of a valid index.
    pub proof fn lemma_wf(&self)
        requires
            self.wf(),
        ensures
            valid_graph(self.index_part()),
            self.place() < self.index_part().len(),
            self.is_in(self.index_part()),
    {
        self.source.lemma_valid();
    }

    /// The entry for a commit of a segment.
    pub fn new(source: SegmentRef<'a>, pos: IndexPosition) -> (entry: IndexEntry<'a>)
        requires
            source.valid(),
            source.base() <= pos.0 < source.entries().len(),
        ensures
            entry.wf(),
            entry.place() == pos.0,
            entry.local_place() == pos.0 - source.base(),
            entry.index_part() == source.entries(),
    {
        proof {
            source.lemma_valid();
        }
        let local_pos: u32 = pos.0 - source.segment_num_parent_commits();
        IndexEntry { source, pos, local_pos }
    }

    pub fn position(&self) -> (pos: IndexPosition)
        ensures
            pos.0 == self.place(),
    {
        self.pos
    }

    /// The position within the segment that holds the commit.
    pub fn local_position(&self) -> (pos: u32)
        ensures
            pos == self.local_place(),
    {
        self.local_pos
    }

    pub fn generation_number(&self) -> (generation: u32)
        requires
            self.wf(),
        ensures
            generation == self.model().generation,
    {
        proof {
            self.source.lemma_valid();
        }
        self.source.segment_generation_number(self.local_pos)
    }

    pub fn commit_id(&self) -> (id: CommitId)
        requires
            self.wf(),
        ensures
            id@ == self.model().commit_id,
    {
        proof {
            self.source.lemma_valid();
        }
        self.source.segment_commit_id(self.local_pos)
    }

    pub fn change_id(&self) -> (id: ChangeId)
        requires
            self.wf(),
        ensures
            id@ == self.model().change_id,
    {
        proof {
            self.source.lemma_valid();
        }
        self.source.segment_change_id(self.local_pos)
    }

    pub fn num_parents(&self) -> (number: u32)
        requires
            self.wf(),
        ensures
            number == self.model().parents.len(),
    {
        proof {
            self.source.lemma_valid();
        }
        self.source.segment_num_parents(self.local_pos)
    }

    pub fn parent_positions(&self) -> (positions: SmallIndexPositionsVec)
        requires
            self.wf(),
        ensures
            positions@ == self.model().parents,
    {
        proof {
            self.source.lemma_valid();
        }
        self.source.segment_parent_positions(self.local_pos)
    }

    /// The parents, in order.
    pub fn parents(&self) -> (parents: Vec<IndexEntry<'a>>)
        requires
            self.wf(),
        ensures
            parents@.len() == self.model().parents.len(),
            forall|k: int|
                0 <= k < parents@.len() ==> {
                    &&& (#[trigger] parents@[k]).is_in(self.index_part())
                    &&& parents@[k].place() == self.model().parents[k]
                },
    {
        proof {
            self.lemma_wf();
        }
        let composite = CompositeIndex::of_segment(self.source);
        let positions = self.parent_positions();
        let mut parents: Vec<IndexEntry<'a>> = Vec::new();
        let mut i: usize = 0;
        while i < positions.len()
            invariant
                i <= positions@.len(),
                positions@ == self.model().parents,
                self.is_in(self.index_part()),
                valid_graph(self.index_part()),
                composite.valid(),
                composite.entries() == self.index_part(),
                parents@.len() == i,
                forall|k: int|
                    0 <= k < parents@.len() ==> {
                        &&& (#[trigger] parents@[k]).is_in(self.index_part())
                        &&& parents@[k].place() == self.model().parents[k]
                    },
            decreases positions@.len() - i,
        {
            assert(self.index_part()[self.place() as int].parents[i as int] < self.place());
            parents.push(composite.entry_by_pos(positions.get(i)));
            i += 1;
        }
        parents
    }

    /// The parents have the same ids in the whole index.
    pub proof fn lemma_parent_ids(&self, g: Seq<Entry>)
        requires
            self.is_in(g),
        ensures
            self.model() == g[self.place() as int],
            ids_at(self.index_part(), self.model().parents) == ids_at(g, self.model().parents),
    {
        self.lemma_wf();
        let parents = self.model().parents;
        let part = self.index_part();
        assert forall|k: int| 0 <= k < parents.len() implies #[trigger] ids_at(part, parents)[k]
            == ids_at(g, parents)[k] by {
            assert(part[self.place() as int].parents[k] < self.place());
        }
        assert(ids_at(part, parents) =~= ids_at(g, parents));
    }

    /// The ids of the parents, in order.
    pub fn parent_ids(&self) -> (ids: Vec<CommitId>)
        requires
            self.wf(),
        ensures
            id_bytes(ids@) == ids_at(self.index_part(), self.model().parents),
    {
        let ghost expected = ids_at(self.index_part(), self.model().parents);
        let parents = self.parents();
        let mut ids: Vec<CommitId> = Vec::new();
        let mut i: usize = 0;
        while i < parents.len()
            invariant
                i <= parents@.len(),
                parents@.len() == expected.len(),
                expected == ids_at(self.index_part(), self.model().parents),
                forall|k: int|
                    0 <= k < parents@.len() ==> {
                        &&& (#[trigger] parents@[k]).is_in(self.index_part())
                        &&& parents@[k].place() == self.model().parents[k]
                    },
                id_bytes(ids@) == expected.take(i as int),
            decreases parents@.len() - i,
        {
            let id = parents[i].commit_id();
            assert(id@ == expected[i as int]);
            let ghost before = ids@;
            ids.push(id);
            assert(id_bytes(ids@) =~= id_bytes(before).push(id@));
            assert(expected.take(i + 1) =~= expected.take(i as int).push(id@));
            i += 1;
        }
        assert(expected.take(i as int) =~= expected);
        ids
    }
}

/// A commit of an index, ordered by position.
#[derive(Clone, Copy)]
pub struct IndexEntryByPosition<'a>(pub IndexEntry<'a>);

impl PartialEq for IndexEntryByPosition<'_> {
    fn eq(&self, other: &Self) -> (result: bool) {
        self.0.pos.0 == other.0.pos.0
    }
}

impl vstd::std_specs::cmp::PartialEqSpecImpl for IndexEntryByPosition<'_> {
    open spec fn obeys_eq_spec() -> bool {
        true
    }

    open spec fn eq_spec(&self, other: &Self) -> bool {
        self.0.place() == other.0.place()
    }
}

impl Eq for IndexEntryByPosition<'_> {

}

impl PartialOrd for IndexEntryByPosition<'_> {
    fn partial_cmp(&self, other: &Self) -> (result: Option<core::cmp::Ordering>) {
        if self.0.pos.0 < other.0.pos.0 {
            Some(core::cmp::Ordering::Less)
        } else if self.0.pos.0 == other.0.pos.0 {
            Some(core::cmp::Ordering::Equal)
        } else {
            Some(core::cmp::Ordering::Greater)
        }
    }
}

impl vstd::std_specs::cmp::PartialOrdSpecImpl for IndexEntryByPosition<'_> {
    open spec fn obeys_partial_cmp_spec() -> bool {
        true
    }

    open spec fn partial_cmp_spec(&self, other: &Self) -> Option<core::cmp::Ordering> {
        if self.0.place() < other.0.place() {
            Some(core::cmp::Ordering::Less)
        } else if self.0.place() == other.0.place() {
            Some(core::cmp::Ordering::Equal)
        } else {
            Some(core::cmp::Ordering::Greater)
        }
    }
}

} // verus!
