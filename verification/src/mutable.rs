//! The commits of an index that are not in a file yet.

use crate::byte_order::{append_bytes, bytes_eq, bytes_lt, lex_lt, lex_lt_transitive};
use crate::composite::CompositeIndex;
use crate::entry::{IndexEntry, SegmentRef};
use crate::format::{
    extra_parents, first_parent, graph_bytes, graph_entry_bytes, header_bytes, ids_sized,
    index_file, is_lookup_table, lookup_bytes, overflow_table, positions_bytes, table_sorted,
    u32_bytes, write_positions, write_u32,
};
use crate::ids::{id_bytes, ChangeId, Commit, CommitId, HexPrefix, PrefixResolution};
use crate::merging::{names_agree, shared_base};
use crate::model::{
    generation_above, has_all, has_commit, ids_at, is_at, lemma_generation_bound,
    lemma_next_addable, lemma_parents_at_hand, lemma_place, lemma_with_commit,
    lemma_with_next_range, lemma_with_range_same, parents_at_hand, places_of, valid_graph,
    with_commit, with_range, Entry,
};
use crate::positions::{IndexPosition, SmallIndexPositionsVec};
use crate::readonly::{commits_of, file_levels, levels_of, squash_base, ReadonlyIndexSegment};
use crate::segment::{
    lemma_lookup, lemma_neighbors, lemma_resolution, lemma_table_insert, splits_at, IndexSegment,
};
use std::sync::Arc;
use vstd::prelude::*;
use vstd::string::StringSliceAdditionalSpecFns;
use vstd::utf8::encode_utf8;

verus! {

struct MutableGraphEntry {
    commit_id: CommitId,
    change_id: ChangeId,
    generation_number: u32,
    parent_positions: SmallIndexPositionsVec,
}

impl MutableGraphEntry {
    spec fn model(self) -> Entry {
        Entry {
            commit_id: self.commit_id@,
            change_id: self.change_id@,
            generation: self.generation_number,
            parents: self.parent_positions@,
        }
    }
}

struct LookupItem {
    commit_id: CommitId,
    pos: IndexPosition,
}

impl LookupItem {
    spec fn model(self) -> (Seq<u8>, u32) {
        (self.commit_id@, self.pos.0)
    }
}

/// The number of commits up to the file at place `i` of a stack, which is given
/// from the top; for `i` past the stack, the number of commits below it.
spec fn height(files: Seq<Arc<ReadonlyIndexSegment>>, bottom: Seq<Entry>, i: int) -> int {
    if i < files.len() {
        files[i].entries().len() as int
    } else {
        bottom.len() as int
    }
}

/// Whether valid files, given from the top, hold the commits `h` but for those
/// of `bottom`, which lie below them.
spec fn is_stack(
    files: Seq<Arc<ReadonlyIndexSegment>>,
    h: Seq<Entry>,
    bottom: Seq<Entry>,
) -> bool {
    &&& bottom.is_prefix_of(h)
    &&& height(files, bottom, 0) == h.len()
    &&& forall|i: int|
        0 <= i < files.len() ==> {
            &&& (#[trigger] files[i]).valid()
            &&& files[i].entries().is_prefix_of(h)
            &&& files[i].base() == height(files, bottom, i + 1)
        }
}

/// A file goes below a stack above its commits, and then its parent file's
/// commits lie below.
proof fn lemma_stack_push(
    files: Seq<Arc<ReadonlyIndexSegment>>,
    h: Seq<Entry>,
    file: Arc<ReadonlyIndexSegment>,
)
    requires
        is_stack(files, h, file.entries()),
        file.valid(),
    ensures
        is_stack(files.push(file), h, commits_of(file.parent())),
{
    file.lemma_valid();
    file.lemma_readable();
    file.lemma_entries();
    let more = files.push(file);
    let bottom = commits_of(file.parent());
    assert forall|i: int| 0 <= i < more.len() implies {
        &&& (#[trigger] more[i]).valid()
        &&& more[i].entries().is_prefix_of(h)
        &&& more[i].base() == height(more, bottom, i + 1)
    } by {
        if i < files.len() {
            assert(files[i].valid());
        }
    }
}

/// What lies below a stack is no more than all.
proof fn lemma_stack_prefix(
    files: Seq<Arc<ReadonlyIndexSegment>>,
    h: Seq<Entry>,
    bottom: Seq<Entry>,
)
    requires
        is_stack(files, h, bottom),
    ensures
        bottom.len() <= h.len(),
        forall|i: int| 0 <= i < bottom.len() ==> bottom[i] == h[i],
        height(files, bottom, files.len() as int) == bottom.len(),
{
}

/// Whether the commits of `h` from a place on can be added to `g`, one after the
/// other.
#[verifier::opaque]
spec fn is_addable(g: Seq<Entry>, h: Seq<Entry>, from: int) -> bool {
    &&& valid_graph(g)
    &&& valid_graph(h)
    &&& parents_at_hand(g, h, from)
    &&& with_range(g, h, from, h.len() as int).len() <= u32::MAX
}

/// What adding the next commit calls for, and what it gives.
proof fn lemma_next_added(
    g: Seq<Entry>,
    h: Seq<Entry>,
    from: int,
    i: int,
    entry: IndexEntry<'_>,
    parent_ids: Seq<CommitId>,
)
    requires
        is_addable(g, h, from),
        0 <= from <= i < h.len(),
        entry.is_in(h),
        entry.place() == i,
        id_bytes(parent_ids) == ids_at(entry.index_part(), entry.model().parents),
    ensures
        ({
            let now = with_range(g, h, from, i);
            let e = entry.model();
            &&& !has_commit(now, e.commit_id) ==> {
                &&& has_all(now, id_bytes(parent_ids))
                &&& now.len() < u32::MAX
                &&& parent_ids.len() <= u32::MAX
            }
            &&& with_commit(now, e.commit_id, e.change_id, id_bytes(parent_ids)) == with_range(
                g,
                h,
                from,
                i + 1,
            )
        }),
{
    reveal(is_addable);
    lemma_next_addable(g, h, from, i);
    entry.lemma_parent_ids(h);
    assert(id_bytes(parent_ids).len() == parent_ids.len());
}

/// The same file again.
fn clone_file(file: &Option<Arc<ReadonlyIndexSegment>>) -> (result: Option<
    Arc<ReadonlyIndexSegment>,
>)
    ensures
        result == *file,
{
    match file {
        Some(segment) => Some(segment.clone()),
        None => None,
    }
}

/// The parent file of a file.
fn clone_parent(file: &Arc<ReadonlyIndexSegment>) -> (parent: Option<Arc<ReadonlyIndexSegment>>)
    ensures
        parent == file.parent(),
{
    match file.segment_parent_file() {
        Some(parent) => Some(parent.clone()),
        None => None,
    }
}

/// Joining byte strings one after the other, or the later ones first.
proof fn lemma_join(
    header: Seq<u8>,
    a: Seq<u8>,
    b: Seq<u8>,
    c: Seq<u8>,
    d: Seq<u8>,
    e: Seq<u8>,
)
    ensures
        header + a + b + c + d + e == header + (a + b + c + d + e),
{
    assert(header + a + b + c + d + e =~= header + (a + b + c + d + e));
}

/// Commits in memory, above those of a parent file.
pub struct MutableIndexSegment {
    parent_file: Option<Arc<ReadonlyIndexSegment>>,
    num_parent_commits: u32,
    commit_id_length: usize,
    change_id_length: usize,
    graph: Vec<MutableGraphEntry>,
    // Sorted by commit id
    lookup: Vec<LookupItem>,
}

impl IndexSegment for MutableIndexSegment {
    closed spec fn parent(&self) -> Option<Arc<ReadonlyIndexSegment>> {
        self.parent_file
    }

    closed spec fn base(&self) -> int {
        self.num_parent_commits as int
    }

    closed spec fn local(&self) -> Seq<Entry> {
        self.graph@.map_values(|entry: MutableGraphEntry| entry.model())
    }

    closed spec fn table(&self) -> Seq<(Seq<u8>, u32)> {
        self.lookup@.map_values(|item: LookupItem| item.model())
    }

    closed spec fn file_name(&self) -> Option<Seq<char>> {
        None
    }

    closed spec fn readable(&self) -> bool {
        match self.parent_file {
            Some(parent) => {
                &&& parent.readable()
                &&& parent.commit_id_len() == self.commit_id_length
                &&& parent.change_id_len() == self.change_id_length
                &&& self.num_parent_commits == parent.entries().len()
            },
            None => self.num_parent_commits == 0,
        }
    }

    closed spec fn parents_readable(&self, local_pos: int) -> bool {
        true
    }

    fn segment_num_parent_commits(&self) -> (number: u32) {
        self.num_parent_commits
    }

    fn segment_num_commits(&self) -> (number: u32) {
        self.graph.len() as u32
    }

    fn segment_parent_file(&self) -> (parent: Option<&Arc<ReadonlyIndexSegment>>) {
        self.parent_file.as_ref()
    }

    fn segment_name(&self) -> (name: Option<String>) {
        None
    }

    fn segment_commit_id_to_pos(&self, commit_id: &CommitId) -> (pos: Option<IndexPosition>) {
        let l: usize = self.lower_bound(commit_id.as_bytes());
        proof {
            lemma_lookup(self.table(), self.local(), self.base(), commit_id@, l as int);
        }
        if l < self.lookup.len() && bytes_eq(
            self.lookup[l].commit_id.as_bytes(),
            commit_id.as_bytes(),
        ) {
            Some(self.lookup[l].pos)
        } else {
            None
        }
    }

    fn segment_commit_id_to_neighbor_positions(&self, commit_id: &CommitId) -> (neighbors: (
        Option<IndexPosition>,
        Option<IndexPosition>,
    )) {
        let l: usize = self.lower_bound(commit_id.as_bytes());
        let prev_pos: Option<IndexPosition> = if l > 0 {
            Some(self.lookup[l - 1].pos)
        } else {
            None
        };
        let n: usize = if l < self.lookup.len() && bytes_eq(
            self.lookup[l].commit_id.as_bytes(),
            commit_id.as_bytes(),
        ) {
            l + 1
        } else {
            l
        };
        let next_pos: Option<IndexPosition> = if n < self.lookup.len() {
            Some(self.lookup[n].pos)
        } else {
            None
        };
        proof {
            lemma_neighbors(
                self.table(),
                self.local(),
                self.base(),
                commit_id@,
                l as int,
                prev_pos,
                next_pos,
            );
        }
        (prev_pos, next_pos)
    }

    fn segment_resolve_prefix(&self, prefix: &HexPrefix) -> (resolution: PrefixResolution) {
        let l: usize = self.lower_bound(prefix.min_prefix_bytes());
        let first = l < self.lookup.len() && prefix.matches(&self.lookup[l].commit_id);
        let second = first && l + 1 < self.lookup.len() && prefix.matches(
            &self.lookup[l + 1].commit_id,
        );
        let resolution = if !first {
            PrefixResolution::NoMatch
        } else if !second {
            PrefixResolution::SingleMatch(self.lookup[l].commit_id.clone())
        } else {
            PrefixResolution::AmbiguousMatch
        };
        proof {
            lemma_resolution(
                self.table(),
                self.local(),
                self.base(),
                prefix,
                l as int,
                resolution@,
            );
        }
        resolution
    }

    fn segment_generation_number(&self, local_pos: u32) -> (generation: u32) {
        self.graph[local_pos as usize].generation_number
    }

    fn segment_commit_id(&self, local_pos: u32) -> (id: CommitId) {
        self.graph[local_pos as usize].commit_id.clone()
    }

    fn segment_change_id(&self, local_pos: u32) -> (id: ChangeId) {
        self.graph[local_pos as usize].change_id.clone()
    }

    fn segment_num_parents(&self, local_pos: u32) -> (number: u32) {
        self.graph[local_pos as usize].parent_positions.len() as u32
    }

    fn segment_parent_positions(&self, local_pos: u32) -> (positions: SmallIndexPositionsVec) {
        self.graph[local_pos as usize].parent_positions.clone()
    }
}

/// A commit that was found by its id is where the id has its place, and a commit can
/// come after it.
proof fn lemma_parent_found(
    index: CompositeIndex<'_>,
    ids: Seq<Seq<u8>>,
    i: int,
    parent: IndexEntry<'_>,
)
    requires
        index.valid(),
        0 <= i < ids.len(),
        parent.is_in(index.entries()),
        parent.model().commit_id == ids[i],
    ensures
        places_of(index.entries(), ids)[i] == parent.place(),
        index.entries()[parent.place() as int] == parent.model(),
        parent.model().generation < u32::MAX,
{
    index.lemma_valid();
    lemma_place(index.entries(), parent.place() as int);
    lemma_generation_bound(index.entries(), parent.place() as int);
}

/// The generation number above one more parent.
proof fn lemma_generation_step(g: Seq<Entry>, parents: Seq<u32>, i: int)
    requires
        0 <= i < parents.len(),
    ensures
        generation_above(g, parents.take(i + 1)) == ({
            let before = generation_above(g, parents.take(i));
            let above = g[parents[i] as int].generation + 1;
            if before < above {
                above
            } else {
                before
            }
        }),
{
    assert(parents.take(i + 1).drop_last() =~= parents.take(i));
    assert(parents.take(i + 1).last() == parents[i]);
}

impl MutableIndexSegment {
    /// All commits, those of the parent file and its ancestors first.
    pub closed spec fn entries(&self) -> Seq<Entry> {
        match self.parent_file {
            Some(parent) => parent.entries() + self.local(),
            None => self.local(),
        }
    }

    /// Whether the segment holds a valid graph and the right lookup table,
    /// above a valid parent file.
    pub closed spec fn valid(&self) -> bool {
        &&& self.readable()
        &&& valid_graph(self.entries())
        &&& is_lookup_table(self.table(), self.local(), self.base())
        &&& match self.parent_file {
            Some(parent) => parent.valid(),
            None => true,
        }
    }

    /// The length of commit ids.
    pub closed spec fn commit_id_len(&self) -> int {
        self.commit_id_length as int
    }

    /// The length of change ids.
    pub closed spec fn change_id_len(&self) -> int {
        self.change_id_length as int
    }

    /// The commits in memory come after those of the files.
    pub proof fn lemma_entries(&self)
        ensures
            self.file_name() is None,
            forall|i: int| #[trigger] self.parents_readable(i),
            match self.parent() {
                Some(parent) => self.entries() == parent.entries() + self.local(),
                None => self.entries() == self.local(),
            },
    {
    }

    /// What a readable segment shares with its parent file.
    pub proof fn lemma_readable(&self)
        requires
            self.readable(),
        ensures
            self.base() >= 0,
            self.entries().len() == self.base() + self.local().len(),
            match self.parent() {
                Some(parent) => {
                    &&& parent.readable()
                    &&& parent.commit_id_len() == self.commit_id_len()
                    &&& parent.change_id_len() == self.change_id_len()
                    &&& self.base() == parent.entries().len()
                },
                None => self.base() == 0,
            },
    {
    }

    /// What is known of a valid segment.
    pub proof fn lemma_valid(&self)
        requires
            self.valid(),
        ensures
            self.readable(),
            valid_graph(self.entries()),
            is_lookup_table(self.table(), self.local(), self.base()),
            self.parent() matches Some(parent) ==> parent.valid(),
    {
    }

    /// If the ids in memory have the right lengths, all ids have.
    pub proof fn lemma_ids_sized(&self)
        requires
            self.readable(),
            ids_sized(self.local(), self.commit_id_len(), self.change_id_len()),
        ensures
            ids_sized(self.entries(), self.commit_id_len(), self.change_id_len()),
    {
        match self.parent_file {
            Some(parent) => {
                parent.lemma_ids_sized();
            },
            None => {},
        }
    }

    /// A segment without commits and without a parent file.
    pub fn full(commit_id_length: usize, change_id_length: usize) -> (segment: Self)
        ensures
            segment.valid(),
            segment.parent() is None,
            segment.local() == Seq::<Entry>::empty(),
            segment.entries() == Seq::<Entry>::empty(),
            segment.commit_id_len() == commit_id_length,
            segment.change_id_len() == change_id_length,
    {
        let segment = Self {
            parent_file: None,
            num_parent_commits: 0,
            commit_id_length,
            change_id_length,
            graph: Vec::new(),
            lookup: Vec::new(),
        };
        assert(segment.local() =~= Seq::<Entry>::empty());
        segment
    }

    /// A segment without commits above a parent file.
    pub fn incremental(parent_file: Arc<ReadonlyIndexSegment>) -> (segment: Self)
        requires
            parent_file.readable(),
            parent_file.entries().len() <= u32::MAX,
        ensures
            segment.readable(),
            parent_file.valid() ==> segment.valid(),
            segment.parent() == Some(parent_file),
            segment.local() == Seq::<Entry>::empty(),
            segment.entries() == parent_file.entries(),
            segment.commit_id_len() == parent_file.commit_id_len(),
            segment.change_id_len() == parent_file.change_id_len(),
    {
        proof {
            parent_file.lemma_readable();
        }
        let num_parent_commits: u32 = parent_file.segment_num_parent_commits()
            + parent_file.segment_num_commits();
        let commit_id_length: usize = parent_file.commit_id_length();
        let change_id_length: usize = parent_file.change_id_length();
        let segment = Self {
            parent_file: Some(parent_file),
            num_parent_commits,
            commit_id_length,
            change_id_length,
            graph: Vec::new(),
            lookup: Vec::new(),
        };
        proof {
            assert(segment.local() =~= Seq::<Entry>::empty());
            assert(segment.entries() =~= parent_file.entries());
            if parent_file.valid() {
                parent_file.lemma_valid();
            }
        }
        segment
    }

    /// The length of commit ids.
    pub fn commit_id_length(&self) -> (length: usize)
        ensures
            length == self.commit_id_len(),
    {
        self.commit_id_length
    }

    /// The length of change ids.
    pub fn change_id_length(&self) -> (length: usize)
        ensures
            length == self.change_id_len(),
    {
        self.change_id_length
    }

    /// Whether the ids in memory have the right lengths.
    pub fn has_sized_ids(&self) -> (result: bool)
        ensures
            result == ids_sized(self.local(), self.commit_id_len(), self.change_id_len()),
    {
        let mut i: usize = 0;
        while i < self.graph.len()
            invariant
                i <= self.graph@.len(),
                ids_sized(
                    self.local().take(i as int),
                    self.commit_id_len(),
                    self.change_id_len(),
                ),
            decreases self.graph@.len() - i,
        {
            let entry = &self.graph[i];
            assert(self.local()[i as int] == entry.model());
            if entry.commit_id.as_bytes().len() != self.commit_id_length
                || entry.change_id.as_bytes().len() != self.change_id_length {
                return false;
            }
            assert(self.local().take(i + 1) =~= self.local().take(i as int).push(entry.model()));
            i += 1;
        }
        assert(self.local().take(i as int) =~= self.local());
        true
    }

    pub fn as_composite(&self) -> (index: CompositeIndex<'_>)
        ensures
            index.entries() == self.entries(),
            index.valid() == self.valid(),
            index.segment_levels() == file_levels(self.parent()).push(
                (self.local().len() as int, None),
            ),
    {
        CompositeIndex::of_mutable(self)
    }

    /// Adds a commit, unless it is there already.
    pub fn add_commit_data(
        &mut self,
        commit_id: CommitId,
        change_id: ChangeId,
        parent_ids: &[CommitId],
    )
        requires
            old(self).valid(),
            !has_commit(old(self).entries(), commit_id@) ==> {
                &&& has_all(old(self).entries(), id_bytes(parent_ids@))
                &&& old(self).entries().len() < u32::MAX
                &&& parent_ids@.len() <= u32::MAX
            },
        ensures
            final(self).valid(),
            final(self).entries() == with_commit(
                old(self).entries(),
                commit_id@,
                change_id@,
                id_bytes(parent_ids@),
            ),
            final(self).parent() == old(self).parent(),
            final(self).commit_id_len() == old(self).commit_id_len(),
            final(self).change_id_len() == old(self).change_id_len(),
    {
        if self.as_composite().has_id(&commit_id) {
            return;
        }
        let (generation_number, parent_positions) = self.resolve_parents(parent_ids);
        let ghost ids = id_bytes(parent_ids@);
        let l: usize = {
            proof {
                self.lemma_valid();
            }
            self.lower_bound(commit_id.as_bytes())
        };
        let ghost before = *self;
        let ghost e = Entry {
            commit_id: commit_id@,
            change_id: change_id@,
            generation: generation_number,
            parents: parent_positions@,
        };
        proof {
            assert(self.entries().push(e) == with_commit(
                self.entries(),
                commit_id@,
                change_id@,
                ids,
            ));
            self.lemma_insertion(e, ids, l as int);
        }
        assert(self.graph@.len() == self.graph.len());
        let pos = IndexPosition(self.graph.len() as u32 + self.num_parent_commits);
        self.lookup.insert(l, LookupItem { commit_id: commit_id.clone(), pos });
        self.graph.push(
            MutableGraphEntry { commit_id, change_id, generation_number, parent_positions },
        );
        proof {
            assert(self.local() =~= before.local().push(e));
            assert(self.entries() =~= before.entries().push(e));
            assert(self.table() =~= before.table().insert(l as int, (commit_id@, pos.0)));
        }
    }

    /// Adds a commit, unless it is there already.
    pub fn add_commit(&mut self, commit: &Commit)
        requires
            old(self).valid(),
            !has_commit(old(self).entries(), commit.id@) ==> {
                &&& has_all(old(self).entries(), id_bytes(commit.parent_ids@))
                &&& old(self).entries().len() < u32::MAX
                &&& commit.parent_ids@.len() <= u32::MAX
            },
        ensures
            final(self).valid(),
            final(self).entries() == with_commit(
                old(self).entries(),
                commit.id@,
                commit.change_id@,
                id_bytes(commit.parent_ids@),
            ),
            final(self).parent() == old(self).parent(),
            final(self).commit_id_len() == old(self).commit_id_len(),
            final(self).change_id_len() == old(self).change_id_len(),
    {
        self.add_commit_data(
            commit.id.clone(),
            commit.change_id.clone(),
            commit.parent_ids.as_slice(),
        );
    }

    /// Adds the commits of another segment, without those of its ancestor
    /// files, in their order.
    pub fn add_commits_from(&mut self, other_segment: SegmentRef<'_>)
        requires
            old(self).valid(),
            other_segment.valid(),
            parents_at_hand(
                old(self).entries(),
                other_segment.entries(),
                other_segment.base(),
            ),
            with_range(
                old(self).entries(),
                other_segment.entries(),
                other_segment.base(),
                other_segment.entries().len() as int,
            ).len() <= u32::MAX,
        ensures
            final(self).valid(),
            final(self).entries() == with_range(
                old(self).entries(),
                other_segment.entries(),
                other_segment.base(),
                other_segment.entries().len() as int,
            ),
            final(self).parent() == old(self).parent(),
            final(self).commit_id_len() == old(self).commit_id_len(),
            final(self).change_id_len() == old(self).change_id_len(),
    {
        let ghost before = *self;
        let ghost g = self.entries();
        let ghost h = other_segment.entries();
        let other = CompositeIndex::of_segment(other_segment);
        proof {
            other_segment.lemma_valid();
            assert(is_addable(g, h, other_segment.base())) by {
                reveal(is_addable);
                self.lemma_valid();
            }
        }
        let base: u32 = other_segment.segment_num_parent_commits();
        let end: u32 = other.num_commits();
        let mut pos: u32 = base;
        while pos < end
            invariant
                base <= pos <= end,
                end == h.len(),
                base == other_segment.base(),
                self.valid(),
                self.entries() == with_range(g, h, base as int, pos as int),
                self.parent() == before.parent(),
                self.commit_id_len() == before.commit_id_len(),
                self.change_id_len() == before.change_id_len(),
                other.valid(),
                other.entries() == h,
                is_addable(g, h, base as int),
            decreases end - pos,
        {
            let entry = other.entry_by_pos(IndexPosition(pos));
            let parent_ids = entry.parent_ids();
            proof {
                lemma_next_added(g, h, base as int, pos as int, entry, parent_ids@);
            }
            self.add_commit_data(entry.commit_id(), entry.change_id(), parent_ids.as_slice());
            pos += 1;
        }
    }

    /// Adds the commits of another index that are not there yet, in their
    /// order.
    pub fn merge_in(&mut self, other: Arc<ReadonlyIndexSegment>)
        requires
            old(self).valid(),
            other.valid(),
            old(self).fits_merge(other),
        ensures
            final(self).valid(),
            final(self).entries() == old(self).merged(other),
            names_agree(old(self).parent(), Some(other)) ==> final(self).entries() == with_range(
                old(self).entries(),
                other.entries(),
                0,
                other.entries().len() as int,
            ),
            final(self).parent() == old(self).parent(),
            final(self).commit_id_len() == old(self).commit_id_len(),
            final(self).change_id_len() == old(self).change_id_len(),
    {
        let ghost h = other.entries();
        let ghost own = self.parent_file;
        let ghost whole = Some(other);
        proof {
            self.lemma_valid();
            other.lemma_valid();
            if names_agree(self.parent(), Some(other)) {
                self.law_merged(other);
            }
        }
        let mut maybe_own_ancestor: Option<Arc<ReadonlyIndexSegment>> = clone_file(
            &self.parent_file,
        );
        let mut maybe_other_ancestor: Option<Arc<ReadonlyIndexSegment>> = Some(other);
        let mut files_to_add: Vec<Arc<ReadonlyIndexSegment>> = Vec::new();
        loop
            invariant
                maybe_own_ancestor matches Some(file) ==> file.valid(),
                maybe_other_ancestor matches Some(file) ==> file.valid(),
                shared_base(own, whole) == shared_base(maybe_own_ancestor, maybe_other_ancestor),
                is_stack(files_to_add@, h, commits_of(maybe_other_ancestor)),
            ensures
                shared_base(own, whole) == maybe_other_ancestor,
                is_stack(files_to_add@, h, commits_of(maybe_other_ancestor)),
            decreases levels_of(maybe_own_ancestor) + levels_of(maybe_other_ancestor),
        {
            let other_ancestor = match &maybe_other_ancestor {
                Some(file) => file.clone(),
                None => {
                    break;
                },
            };
            proof {
                other_ancestor.lemma_valid();
                other_ancestor.lemma_entries();
            }
            let own_ancestor = match &maybe_own_ancestor {
                Some(file) => file.clone(),
                None => {
                    proof {
                        lemma_stack_push(files_to_add@, h, other_ancestor);
                    }
                    maybe_other_ancestor = clone_parent(&other_ancestor);
                    files_to_add.push(other_ancestor);
                    continue;
                },
            };
            proof {
                own_ancestor.lemma_valid();
                own_ancestor.lemma_entries();
            }
            if own_ancestor.has_name_of(&other_ancestor) {
                break;
            }
            if own_ancestor.as_composite().num_commits()
                < other_ancestor.as_composite().num_commits() {
                proof {
                    lemma_stack_push(files_to_add@, h, other_ancestor);
                }
                maybe_other_ancestor = clone_parent(&other_ancestor);
                files_to_add.push(other_ancestor);
            } else {
                maybe_own_ancestor = clone_parent(&own_ancestor);
            }
        }
        let ghost bottom = commits_of(maybe_other_ancestor);
        self.add_files(files_to_add.as_slice(), Ghost(h), Ghost(bottom));
    }

    /// Adds the commits of a stack of files that lie above the given bottom.
    fn add_files(
        &mut self,
        files: &[Arc<ReadonlyIndexSegment>],
        Ghost(h): Ghost<Seq<Entry>>,
        Ghost(bottom): Ghost<Seq<Entry>>,
    )
        requires
            old(self).valid(),
            valid_graph(h),
            is_stack(files@, h, bottom),
            parents_at_hand(old(self).entries(), h, bottom.len() as int),
            with_range(old(self).entries(), h, bottom.len() as int, h.len() as int).len()
                <= u32::MAX,
        ensures
            final(self).valid(),
            final(self).entries() == with_range(
                old(self).entries(),
                h,
                bottom.len() as int,
                h.len() as int,
            ),
            final(self).parent() == old(self).parent(),
            final(self).commit_id_len() == old(self).commit_id_len(),
            final(self).change_id_len() == old(self).change_id_len(),
    {
        let ghost before = *self;
        let ghost g = self.entries();
        let ghost m = bottom.len() as int;
        let mut i: usize = files.len();
        proof {
            self.lemma_valid();
            lemma_stack_prefix(files@, h, bottom);
        }
        while i > 0
            invariant
                i <= files@.len(),
                files@.len() == files.len(),
                m == bottom.len(),
                is_stack(files@, h, bottom),
                valid_graph(g),
                valid_graph(h),
                parents_at_hand(g, h, m),
                with_range(g, h, m, h.len() as int).len() <= u32::MAX,
                m <= height(files@, bottom, i as int) <= h.len(),
                self.valid(),
                self.entries() == with_range(g, h, m, height(files@, bottom, i as int)),
                self.parent() == before.parent(),
                self.commit_id_len() == before.commit_id_len(),
                self.change_id_len() == before.change_id_len(),
            decreases i,
        {
            let ghost from = height(files@, bottom, i as int);
            i -= 1;
            let file: &ReadonlyIndexSegment = &*files[i];
            proof {
                assert(files@[i as int].valid());
                file.lemma_valid();
                file.lemma_readable();
                lemma_with_next_range(g, file.entries(), h, m, from);
            }
            self.add_commits_from(SegmentRef::Readonly(file));
        }
    }

    /// The name of the parent file, as bytes.
    pub open spec fn parent_name_bytes(&self) -> Option<Seq<u8>> {
        match self.parent() {
            Some(parent) => Some(encode_utf8(parent.name_text())),
            None => None,
        }
    }

    /// The bytes of an index file with the commits of the segment.
    pub fn serialize(self) -> (file: Vec<u8>)
        requires
            self.valid(),
            ids_sized(self.local(), self.commit_id_len(), self.change_id_len()),
        ensures
            file@ == index_file(self.parent_name_bytes(), self.local(), self.table()),
    {
        let mut buf: Vec<u8> = Vec::new();
        match &self.parent_file {
            Some(parent_file) => {
                let name: &[u8] = parent_file.name().as_bytes();
                write_u32(&mut buf, name.len() as u32);
                append_bytes(&mut buf, name);
            },
            None => {
                write_u32(&mut buf, 0);
            },
        }
        proof {
            assert(buf@ == header_bytes(self.parent_name_bytes())) by {
                let empty = Seq::<u8>::empty();
                assert forall|bytes: Seq<u8>| #[trigger] (empty + bytes) == bytes by {
                    assert(empty + bytes =~= bytes);
                }
            }
        }
        let ghost header = buf@;
        let (graph, parent_overflow) = self.serialize_graph();
        write_u32(&mut buf, self.graph.len() as u32);
        write_u32(&mut buf, parent_overflow.len() as u32);
        append_bytes(&mut buf, graph.as_slice());
        self.write_lookup(&mut buf);
        write_positions(&mut buf, parent_overflow.as_slice());
        proof {
            lemma_join(
                header,
                u32_bytes(self.local().len() as u32),
                u32_bytes(parent_overflow@.len() as u32),
                graph_bytes(self.local()),
                lookup_bytes(self.table()),
                positions_bytes(parent_overflow@),
            );
        }
        buf
    }

    /// Appends the lookup table.
    fn write_lookup(&self, buf: &mut Vec<u8>)
        ensures
            final(buf)@ == old(buf)@ + lookup_bytes(self.table()),
    {
        let mut i: usize = 0;
        assert(self.table().take(0) =~= Seq::empty());
        while i < self.lookup.len()
            invariant
                i <= self.lookup@.len(),
                buf@ == old(buf)@ + lookup_bytes(self.table().take(i as int)),
            decreases self.lookup@.len() - i,
        {
            append_bytes(buf, self.lookup[i].commit_id.as_bytes());
            write_u32(buf, self.lookup[i].pos.0);
            proof {
                let now = self.table().take(i + 1);
                assert(now.drop_last() =~= self.table().take(i as int));
                assert(now.last() == self.lookup@[i as int].model());
                assert(buf@ =~= old(buf)@ + lookup_bytes(now));
            }
            i += 1;
        }
        assert(self.table().take(i as int) =~= self.table());
    }

    /// The graph table, and the overflow table for its entries.
    fn serialize_graph(&self) -> (tables: (Vec<u8>, Vec<u32>))
        requires
            ids_sized(self.local(), self.commit_id_len(), self.change_id_len()),
        ensures
            tables.0@ == graph_bytes(self.local()),
            tables.1@ == overflow_table(self.local()),
    {
        let mut buf: Vec<u8> = Vec::new();
        let mut parent_overflow: Vec<u32> = Vec::new();
        let mut i: usize = 0;
        assert(self.local().take(0) =~= Seq::<Entry>::empty());
        while i < self.graph.len()
            invariant
                i <= self.graph@.len(),
                buf@ == graph_bytes(self.local().take(i as int)),
                parent_overflow@ == overflow_table(self.local().take(i as int)),
            decreases self.graph@.len() - i,
        {
            let entry = &self.graph[i];
            let ghost e = entry.model();
            let ghost written = buf@;
            let ghost kept = parent_overflow@;
            let flags: u32 = 0;
            write_u32(&mut buf, flags);
            write_u32(&mut buf, entry.generation_number);
            write_u32(&mut buf, entry.parent_positions.len() as u32);
            let mut parent1_pos: u32 = 0;
            let parent_overflow_pos: u32 = parent_overflow.len() as u32;
            let mut k: usize = 0;
            while k < entry.parent_positions.len()
                invariant
                    k <= e.parents.len(),
                    e == entry.model(),
                    k > 0 ==> parent1_pos == first_parent(e),
                    k == 0 ==> parent1_pos == 0,
                    parent_overflow@ == kept + (if k == 0 {
                        Seq::empty()
                    } else {
                        e.parents.subrange(1, k as int)
                    }),
                decreases e.parents.len() - k,
            {
                let parent_pos: u32 = entry.parent_positions.get(k).0;
                if k == 0 {
                    parent1_pos = parent_pos;
                    assert(parent_overflow@ =~= kept + e.parents.subrange(1, 1));
                } else {
                    parent_overflow.push(parent_pos);
                    assert(parent_overflow@ =~= kept + e.parents.subrange(1, k + 1));
                }
                k += 1;
            }
            write_u32(&mut buf, parent1_pos);
            write_u32(&mut buf, parent_overflow_pos);
            append_bytes(&mut buf, entry.change_id.as_bytes());
            append_bytes(&mut buf, entry.commit_id.as_bytes());
            proof {
                let now = self.local().take(i + 1);
                assert(now.drop_last() =~= self.local().take(i as int));
                assert(now.last() == e);
                assert(parent_overflow@ =~= kept + extra_parents(e));
                assert(buf@ =~= written + graph_entry_bytes(e, kept.len() as u32));
            }
            i += 1;
        }
        assert(self.local().take(i as int) =~= self.local());
        (buf, parent_overflow)
    }

    /// If the segment has more than half the commits of its parent file, returns
    /// a segment with the commits from both. This is done recursively,
    /// so the stack of index files has O(log n) files.
    pub fn maybe_squash_with_ancestors(self) -> (squashed: MutableIndexSegment)
        requires
            self.valid(),
        ensures
            squashed.valid(),
            squashed.entries() == self.entries(),
            squashed.commit_id_len() == self.commit_id_len(),
            squashed.change_id_len() == self.change_id_len(),
            squashed.parent() == squash_base(self.local().len() as int, self.parent()),
            squashed.parent() matches Some(file) ==> 2 * squashed.local().len()
                <= file.local().len(),
    {
        let ghost all = self.entries();
        let ghost below = commits_of(self.parent_file);
        proof {
            self.lemma_valid();
            self.lemma_readable();
            self.lemma_entries();
            assert(below.is_prefix_of(all));
        }
        let mut num_new_commits: u64 = self.segment_num_commits() as u64;
        let mut files_to_squash: Vec<Arc<ReadonlyIndexSegment>> = Vec::new();
        let mut maybe_parent_file: Option<Arc<ReadonlyIndexSegment>> = clone_file(
            &self.parent_file,
        );
        let mut squashed: MutableIndexSegment;
        loop
            invariant
                all.len() <= u32::MAX,
                num_new_commits == all.len() - commits_of(maybe_parent_file).len(),
                below.is_prefix_of(all),
                maybe_parent_file matches Some(file) ==> {
                    &&& file.valid()
                    &&& file.commit_id_len() == self.commit_id_len()
                    &&& file.change_id_len() == self.change_id_len()
                },
                is_stack(files_to_squash@, below, commits_of(maybe_parent_file)),
                files_to_squash@.len() == 0 ==> maybe_parent_file == self.parent(),
                squash_base(self.local().len() as int, self.parent()) == squash_base(
                    num_new_commits as int,
                    maybe_parent_file,
                ),
            ensures
                squashed.valid(),
                squashed.parent() == maybe_parent_file,
                squashed.entries() == commits_of(maybe_parent_file),
                squashed.commit_id_len() == self.commit_id_len(),
                squashed.change_id_len() == self.change_id_len(),
                num_new_commits == all.len() - commits_of(maybe_parent_file).len(),
                is_stack(files_to_squash@, below, commits_of(maybe_parent_file)),
                files_to_squash@.len() == 0 ==> maybe_parent_file == self.parent(),
                squash_base(self.local().len() as int, self.parent()) == maybe_parent_file,
                maybe_parent_file matches Some(file) ==> 2 * num_new_commits <= file.local().len(),
            decreases levels_of(maybe_parent_file),
        {
            match &maybe_parent_file {
                Some(file) => {
                    let parent_file = file.clone();
                    proof {
                        parent_file.lemma_valid();
                        parent_file.lemma_readable();
                        parent_file.lemma_entries();
                    }
                    let num_file_commits: u64 = parent_file.segment_num_commits() as u64;
                    if 2 * num_new_commits <= num_file_commits {
                        squashed = MutableIndexSegment::incremental(parent_file);
                        break;
                    }
                    proof {
                        lemma_stack_push(files_to_squash@, below, parent_file);
                    }
                    num_new_commits += num_file_commits;
                    maybe_parent_file = clone_parent(&parent_file);
                    files_to_squash.push(parent_file);
                },
                None => {
                    squashed = MutableIndexSegment::full(
                        self.commit_id_length,
                        self.change_id_length,
                    );
                    break;
                },
            }
        }
        let ghost bottom = commits_of(maybe_parent_file);
        if files_to_squash.len() == 0 {
            return self;
        }
        proof {
            let m = bottom.len() as int;
            lemma_stack_prefix(files_to_squash@, below, bottom);
            match self.parent() {
                Some(parent) => {
                    parent.lemma_valid();
                },
                None => {},
            }
            assert(valid_graph(below));
            assert(bottom =~= below.take(m));
            lemma_with_range_same(below, m, below.len() as int);
            assert(below.take(below.len() as int) =~= below);
            lemma_parents_at_hand(below, m);
        }
        squashed.add_files(files_to_squash.as_slice(), Ghost(below), Ghost(bottom));
        proof {
            assert(below =~= all.take(below.len() as int));
            lemma_with_range_same(all, below.len() as int, all.len() as int);
            assert(all.take(all.len() as int) =~= all);
            lemma_parents_at_hand(all, below.len() as int);
        }
        squashed.add_commits_from(SegmentRef::Mutable(&self));
        proof {
            squashed.lemma_valid();
            squashed.lemma_readable();
        }
        squashed
    }

    /// The generation number of a commit with the given parents, and their
    /// positions.
    fn resolve_parents(&self, parent_ids: &[CommitId]) -> (parents: (u32, SmallIndexPositionsVec))
        requires
            self.valid(),
            has_all(self.entries(), id_bytes(parent_ids@)),
        ensures
            parents.1@ == places_of(self.entries(), id_bytes(parent_ids@)),
            parents.0 == generation_above(self.entries(), parents.1@),
    {
        let index = self.as_composite();
        let ghost g = self.entries();
        let ghost ids = id_bytes(parent_ids@);
        let ghost places = places_of(g, ids);
        let mut generation_number: u32 = 0;
        let mut parent_positions = SmallIndexPositionsVec::new();
        let mut i: usize = 0;
        assert(places.take(0) =~= Seq::<u32>::empty());
        while i < parent_ids.len()
            invariant
                i <= parent_ids@.len(),
                parent_ids@.len() == parent_ids.len(),
                index.valid(),
                g == index.entries(),
                ids == id_bytes(parent_ids@),
                places == places_of(g, ids),
                has_all(g, ids),
                parent_positions@ == places.take(i as int),
                generation_number == generation_above(g, places.take(i as int)),
            decreases parent_ids@.len() - i,
        {
            assert(ids[i as int] == parent_ids@[i as int]@);
            assert(has_commit(g, ids[i as int]));
            let parent = index.entry_by_id(&parent_ids[i]).expect("parent commit is not indexed");
            proof {
                parent.lemma_wf();
                lemma_parent_found(index, ids, i as int, parent);
                lemma_generation_step(g, places, i as int);
            }
            let above: u32 = parent.generation_number() + 1;
            if generation_number < above {
                generation_number = above;
            }
            parent_positions.push(parent.position());
            i += 1;
            assert(parent_positions@ =~= places.take(i as int));
        }
        assert(places.take(i as int) =~= places);
        (generation_number, parent_positions)
    }

    /// What holds once a commit was added.
    proof fn lemma_insertion(&self, e: Entry, parent_ids: Seq<Seq<u8>>, l: int)
        requires
            self.valid(),
            !has_commit(self.entries(), e.commit_id),
            has_all(self.entries(), parent_ids),
            parent_ids.len() <= u32::MAX,
            self.entries().len() < u32::MAX,
            self.entries().push(e) == with_commit(
                self.entries(),
                e.commit_id,
                e.change_id,
                parent_ids,
            ),
            splits_at(self.table(), e.commit_id, l),
        ensures
            self.base() + self.local().len() == self.entries().len(),
            valid_graph(self.entries().push(e)),
            is_lookup_table(
                self.table().insert(l, (e.commit_id, self.entries().len() as u32)),
                self.local().push(e),
                self.base(),
            ),
    {
        self.lemma_valid();
        self.lemma_readable();
        self.lemma_entries();
        lemma_with_commit(self.entries(), e.commit_id, e.change_id, parent_ids);
        if has_commit(self.local(), e.commit_id) {
            let j = choose|j: int| is_at(self.local(), e.commit_id, j);
            assert(is_at(self.entries(), e.commit_id, self.base() + j));
        }
        lemma_table_insert(self.table(), self.local(), self.base(), e, l);
    }

    /// The number of ids in the lookup table that are before the given bytes.
    fn lower_bound(&self, bytes: &[u8]) -> (l: usize)
        requires
            table_sorted(self.table()),
        ensures
            splits_at(self.table(), bytes@, l as int),
    {
        let ghost table = self.table();
        let mut low: usize = 0;
        let mut high: usize = self.lookup.len();
        while low < high
            invariant
                low <= high <= self.lookup.len(),
                table == self.table(),
                table.len() == self.lookup.len(),
                table_sorted(table),
                forall|i: int| 0 <= i < low ==> lex_lt((#[trigger] table[i]).0, bytes@),
                forall|i: int| high <= i < table.len() ==> !lex_lt((#[trigger] table[i]).0, bytes@),
            decreases high - low,
        {
            let mid: usize = low + (high - low) / 2;
            assert(table[mid as int].0 == self.lookup@[mid as int].commit_id@);
            if bytes_lt(self.lookup[mid].commit_id.as_bytes(), bytes) {
                proof {
                    assert forall|i: int| 0 <= i < mid + 1 implies lex_lt(
                        (#[trigger] table[i]).0,
                        bytes@,
                    ) by {
                        if i < mid {
                            lex_lt_transitive(table[i].0, table[mid as int].0, bytes@);
                        }
                    }
                }
                low = mid + 1;
            } else {
                proof {
                    assert forall|i: int| mid <= i < table.len() implies !lex_lt(
                        (#[trigger] table[i]).0,
                        bytes@,
                    ) by {
                        if mid < i && lex_lt(table[i].0, bytes@) {
                            lex_lt_transitive(table[mid as int].0, table[i].0, bytes@);
                        }
                    }
                }
                high = mid;
            }
        }
        low
    }
}

} // verus!
