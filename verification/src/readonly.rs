//! The commits of an index file.

use crate::byte_order::{
    bytes_eq, bytes_lt, bytes_to_vec, lex_lt, lex_lt_irreflexive, lex_lt_transitive, lex_not_lt,
};
use crate::composite::CompositeIndex;
use crate::format::{
    chunk, decode_graph, decode_item, decode_table, entry_count, file_entries, file_graph,
    file_lookup, file_overflow, file_parents_inside, file_table, graph_entry_size, graph_size,
    has_counts, has_header, ids_sized, is_lookup_table, lemma_chunk_inside, lookup_entry_size,
    lookup_size, name_length, overflow_inside, parent_name_bytes, read_u32_at, table_sorted, tables,
    tables_sized, u32_at, CommitGraphEntry, CommitLookupEntry,
};
use crate::ids::{prefix_matches, ChangeId, CommitId, HexPrefix, PrefixResolution};
use crate::model::{valid_graph, Entry};
use crate::positions::{IndexPosition, SmallIndexPositionsVec};
use crate::segment::{lemma_lookup, lemma_neighbors, lemma_resolution, splits_at, IndexSegment};
use std::sync::Arc;
use vstd::prelude::*;
use vstd::slice::slice_subrange;
use vstd::string::StringSliceAdditionalSpecFns;
use vstd::utf8::{encode_utf8, valid_utf8};

verus! {

/// Why an index file cannot be loaded.
#[derive(Debug)]
pub enum IndexLoadError {
    /// The file with the given name does not have the size that it calls for.
    IndexCorrupt(String),
    /// The file ends inside its header.
    UnexpectedEof,
    /// The name of the parent file is not text.
    InvalidParentName,
}

/// The commits of an index file, above those of its parent file.
pub struct ReadonlyIndexSegment {
    parent_file: Option<Arc<ReadonlyIndexSegment>>,
    num_parent_commits: u32,
    name: String,
    commit_id_length: usize,
    change_id_length: usize,
    commit_graph_entry_size: usize,
    commit_lookup_entry_size: usize,
    // Number of commits not counting the parent file
    num_local_commits: u32,
    graph: Vec<u8>,
    lookup: Vec<u8>,
    overflow_parent: Vec<u8>,
}

/// Calls `String::from_utf8`, which accepts the UTF-8 encoding of a text and
/// gives the text, and nothing else.
#[verifier::external_body]
fn string_from_utf8(bytes: Vec<u8>) -> (result: Option<String>)
    ensures
        match result {
            Some(text) => valid_utf8(bytes@) && encode_utf8(text@) == bytes@,
            None => !valid_utf8(bytes@),
        },
{
    String::from_utf8(bytes).ok()
}

/// The name of the parent file of an index file, `None` if it has no parent
/// file.
pub fn parent_file_name(file: &[u8]) -> (result: Result<Option<String>, IndexLoadError>)
    ensures
        match result {
            Ok(Some(name)) => has_header(file@) && name_length(file@) > 0 && encode_utf8(name@)
                == parent_name_bytes(file@),
            Ok(None) => has_header(file@) && name_length(file@) == 0,
            Err(IndexLoadError::UnexpectedEof) => !has_header(file@),
            Err(IndexLoadError::InvalidParentName) => has_header(file@) && name_length(file@) > 0
                && !valid_utf8(parent_name_bytes(file@)),
            Err(IndexLoadError::IndexCorrupt(_)) => false,
        },
{
    if file.len() < 4 {
        return Err(IndexLoadError::UnexpectedEof);
    }
    let length: u32 = read_u32_at(file, 0);
    if length == 0 {
        return Ok(None);
    }
    if file.len() - 4 < length as usize {
        return Err(IndexLoadError::UnexpectedEof);
    }
    let bytes = bytes_to_vec(slice_subrange(file, 4, 4 + length as usize));
    match string_from_utf8(bytes) {
        Some(name) => Ok(Some(name)),
        None => Err(IndexLoadError::InvalidParentName),
    }
}

/// The sizes of the graph table and the lookup table with the given number of
/// entries.
fn table_sizes(num_commits: u32, commit_id_length: usize, change_id_length: usize) -> (sizes: (
    u128,
    u128,
))
    requires
        20 + commit_id_length + change_id_length <= usize::MAX,
    ensures
        sizes.0 == num_commits * graph_entry_size(commit_id_length as int, change_id_length as int),
        sizes.1 == num_commits * lookup_entry_size(commit_id_length as int),
        sizes.0 + sizes.1 + 4 * u32::MAX <= u128::MAX,
{
    let commit_graph_entry_size: usize = CommitGraphEntry::size(commit_id_length, change_id_length);
    let commit_lookup_entry_size: usize = CommitLookupEntry::size(commit_id_length);
    proof {
        let n = num_commits as int;
        assert(n * commit_graph_entry_size <= u32::MAX * u64::MAX && n * commit_lookup_entry_size
            <= u32::MAX * u64::MAX && 0 <= n * commit_graph_entry_size && 0 <= n
            * commit_lookup_entry_size) by (nonlinear_arith)
            requires
                0 <= n <= u32::MAX,
                0 <= commit_graph_entry_size <= u64::MAX,
                0 <= commit_lookup_entry_size <= u64::MAX,
        ;
    }
    (
        num_commits as u128 * commit_graph_entry_size as u128,
        num_commits as u128 * commit_lookup_entry_size as u128,
    )
}

/// The number of entries that an index file gives, `None` if it does not have the
/// size that it calls for.
pub(crate) fn read_entry_count(
    file: &[u8],
    commit_id_length: usize,
    change_id_length: usize,
) -> (count: Option<u32>)
    requires
        20 + commit_id_length + change_id_length <= usize::MAX,
    ensures
        ({
            let (c, h) = (commit_id_length as int, change_id_length as int);
            match count {
                Some(count) => {
                    &&& has_counts(file@)
                    &&& tables_sized(file@, c, h)
                    &&& count == entry_count(file@)
                },
                None => !(has_counts(file@) && tables_sized(file@, c, h)),
            }
        }),
{
    if file.len() < 4 {
        return None;
    }
    let name_len: usize = read_u32_at(file, 0) as usize;
    if file.len() - 4 < name_len {
        return None;
    }
    let start: usize = 4 + name_len;
    if file.len() - start < 8 {
        return None;
    }
    let num_commits: u32 = read_u32_at(file, start);
    let num_overflow: u32 = read_u32_at(file, start + 4);
    let (graph_size, lookup_size): (u128, u128) = table_sizes(
        num_commits,
        commit_id_length,
        change_id_length,
    );
    if (file.len() - start - 8) as u128 == graph_size + lookup_size + num_overflow as u128 * 4 {
        Some(num_commits)
    } else {
        None
    }
}

/// Whether loading an index file with the given content, parent file and name gives
/// the result.
pub open spec fn is_load_result(
    file: Seq<u8>,
    parent_file: Option<Arc<ReadonlyIndexSegment>>,
    name: Seq<char>,
    commit_id_length: int,
    change_id_length: int,
    result: Result<Arc<ReadonlyIndexSegment>, IndexLoadError>,
) -> bool {
    let (c, h) = (commit_id_length, change_id_length);
    match result {
        Ok(segment) => {
            &&& has_counts(file)
            &&& tables_sized(file, c, h)
            &&& segment.readable()
            &&& segment.parent() == parent_file
            &&& segment.base() == commits_of(parent_file).len()
            &&& segment.name_text() == name
            &&& segment.commit_id_len() == c
            &&& segment.change_id_len() == h
            &&& segment.local() == file_entries(file, c, h)
            &&& segment.table() == file_table(file, c, h)
            &&& forall|i: int| #[trigger]
                segment.parents_readable(i) == file_parents_inside(file, c, h, i)
        },
        Err(IndexLoadError::IndexCorrupt(corrupt)) => {
            &&& has_counts(file)
            &&& !tables_sized(file, c, h)
            &&& corrupt@ == name
        },
        Err(IndexLoadError::UnexpectedEof) => !has_counts(file),
        Err(IndexLoadError::InvalidParentName) => false,
    }
}

/// The commits of a file and its ancestors; none without a file.
pub open spec fn commits_of(file: Option<Arc<ReadonlyIndexSegment>>) -> Seq<Entry> {
    match file {
        Some(segment) => segment.entries(),
        None => Seq::empty(),
    }
}

/// The number of files in a stack.
pub open spec fn levels_of(file: Option<Arc<ReadonlyIndexSegment>>) -> nat {
    match file {
        Some(segment) => segment.levels(),
        None => 0,
    }
}

/// The number of commits of its own and the name of each file of a stack, from
/// the bottom.
pub open spec fn file_levels(file: Option<Arc<ReadonlyIndexSegment>>) -> Seq<
    (int, Option<Seq<char>>),
>
    decreases levels_of(file),
{
    match file {
        Some(segment) => file_levels(segment.parent()).push(
            (segment.local().len() as int, Some(segment.name_text())),
        ),
        None => Seq::empty(),
    }
}

/// The file of a stack that `num_new` commits are put on top of: the first one,
/// from the top, that has at least twice as many commits of its own as are put
/// on top of it, where the commits of the files above it are counted as new.
pub open spec fn squash_base(num_new: int, file: Option<Arc<ReadonlyIndexSegment>>) -> Option<
    Arc<ReadonlyIndexSegment>,
>
    decreases levels_of(file),
{
    match file {
        Some(segment) => if 2 * num_new <= segment.local().len() {
            file
        } else {
            squash_base(num_new + segment.local().len(), segment.parent())
        },
        None => None,
    }
}

/// Whether each file of a stack has at least twice as many commits of its own as
/// the file on top of it.
pub open spec fn is_halving(file: Option<Arc<ReadonlyIndexSegment>>) -> bool
    decreases levels_of(file),
{
    match file {
        Some(segment) => {
            &&& segment.parent() matches Some(parent) ==> 2 * segment.local().len()
                <= parent.local().len()
            &&& is_halving(segment.parent())
        },
        None => true,
    }
}

/// Whether a stack has a file with the given name and, with its ancestors, the
/// given commits.
pub open spec fn has_file(
    file: Option<Arc<ReadonlyIndexSegment>>,
    name: Seq<char>,
    g: Seq<Entry>,
) -> bool {
    match file {
        Some(segment) => segment.has_file(name, g),
        None => false,
    }
}

/// The files of a stack are its top file and the files below that.
pub proof fn lemma_has_file(file: Arc<ReadonlyIndexSegment>)
    ensures
        has_file(Some(file), file.name_text(), file.entries()),
        forall|name: Seq<char>, g: Seq<Entry>|
            #![trigger has_file(file.parent(), name, g)]
            #![trigger has_file(Some(file), name, g)]
            has_file(Some(file), name, g) <==> {
                ||| name == file.name_text() && g == file.entries()
                ||| has_file(file.parent(), name, g)
            },
{
}

/// What new commits are put on top of is a lower part of the stack.
pub proof fn lemma_halving_base(num_new: int, file: Option<Arc<ReadonlyIndexSegment>>)
    requires
        is_halving(file),
    ensures
        is_halving(squash_base(num_new, file)),
    decreases levels_of(file),
{
    match file {
        Some(segment) => {
            lemma_halving_base(num_new + segment.local().len(), segment.parent());
        },
        None => {},
    }
}

impl IndexSegment for ReadonlyIndexSegment {
    closed spec fn parent(&self) -> Option<Arc<ReadonlyIndexSegment>> {
        self.parent_file
    }

    closed spec fn base(&self) -> int {
        self.num_parent_commits as int
    }

    closed spec fn local(&self) -> Seq<Entry> {
        decode_graph(
            self.graph@,
            self.overflow_parent@,
            self.num_local_commits as nat,
            self.commit_id_length as int,
            self.change_id_length as int,
        )
    }

    closed spec fn table(&self) -> Seq<(Seq<u8>, u32)> {
        decode_table(self.lookup@, self.num_local_commits as nat, self.commit_id_length as int)
    }

    closed spec fn file_name(&self) -> Option<Seq<char>> {
        Some(self.name@)
    }

    closed spec fn readable(&self) -> bool {
        self.tables_readable()
    }

    closed spec fn parents_readable(&self, local_pos: int) -> bool {
        overflow_inside(
            chunk(self.graph@, self.commit_graph_entry_size as int, local_pos),
            self.overflow_parent@.len() as int,
        )
    }

    fn segment_num_parent_commits(&self) -> (number: u32) {
        self.num_parent_commits
    }

    fn segment_num_commits(&self) -> (number: u32) {
        self.num_local_commits
    }

    fn segment_parent_file(&self) -> (parent: Option<&Arc<ReadonlyIndexSegment>>) {
        self.parent_file.as_ref()
    }

    fn segment_name(&self) -> (name: Option<String>) {
        Some(self.name.clone())
    }

    fn segment_commit_id_to_pos(&self, commit_id: &CommitId) -> (pos: Option<IndexPosition>) {
        let lookup_pos: u32 = match self.commit_id_byte_prefix_to_lookup_pos(commit_id) {
            Some(lookup_pos) => lookup_pos,
            None => {
                proof {
                    lemma_lookup(self.table(), self.local(), self.base(), commit_id@, 0);
                }
                return None;
            },
        };
        let entry = self.lookup_entry(lookup_pos);
        proof {
            let l = self.split_place(commit_id@, lookup_pos);
            lemma_lookup(self.table(), self.local(), self.base(), commit_id@, l);
        }
        if bytes_eq(entry.commit_id_bytes(), commit_id.as_bytes()) {
            proof {
                lex_lt_irreflexive(commit_id@);
            }
            Some(IndexPosition(entry.pos()))
        } else {
            None
        }
    }

    fn segment_commit_id_to_neighbor_positions(&self, commit_id: &CommitId) -> (neighbors: (
        Option<IndexPosition>,
        Option<IndexPosition>,
    )) {
        let lookup_pos: u32 = match self.commit_id_byte_prefix_to_lookup_pos(commit_id) {
            Some(lookup_pos) => lookup_pos,
            None => {
                proof {
                    lemma_neighbors(
                        self.table(),
                        self.local(),
                        self.base(),
                        commit_id@,
                        0,
                        None,
                        None,
                    );
                }
                return (None, None);
            },
        };
        let entry = self.lookup_entry(lookup_pos);
        let ghost l = self.split_place(commit_id@, lookup_pos);
        let id_bytes = entry.commit_id_bytes();
        let (prev, next): (Option<u32>, Option<u32>) = if bytes_lt(id_bytes, commit_id.as_bytes()) {
            (Some(lookup_pos), None)
        } else {
            let prev: Option<u32> = if lookup_pos > 0 {
                Some((lookup_pos - 1) as u32)
            } else {
                None
            };
            if bytes_eq(id_bytes, commit_id.as_bytes()) {
                if lookup_pos + 1 < self.num_local_commits {
                    (prev, Some(lookup_pos + 1))
                } else {
                    (prev, None)
                }
            } else {
                (prev, Some(lookup_pos))
            }
        };
        let prev_pos: Option<IndexPosition> = match prev {
            Some(p) => Some(IndexPosition(self.lookup_entry(p).pos())),
            None => None,
        };
        let next_pos: Option<IndexPosition> = match next {
            Some(p) => Some(IndexPosition(self.lookup_entry(p).pos())),
            None => None,
        };
        proof {
            lemma_neighbors(
                self.table(),
                self.local(),
                self.base(),
                commit_id@,
                l,
                prev_pos,
                next_pos,
            );
        }
        (prev_pos, next_pos)
    }

    fn segment_resolve_prefix(&self, prefix: &HexPrefix) -> (resolution: PrefixResolution) {
        let min_bytes_prefix = CommitId::from_bytes(prefix.min_prefix_bytes());
        let lookup_pos: u32 = match self.commit_id_byte_prefix_to_lookup_pos(&min_bytes_prefix) {
            Some(lookup_pos) => lookup_pos,
            None => self.num_local_commits,
        };
        let ghost l = if self.num_local_commits == 0 {
            0
        } else {
            self.split_place(prefix.min_bytes(), lookup_pos)
        };
        let first: Option<CommitId> = self.lookup_match(lookup_pos, prefix);
        let ghost table = self.table();
        match first {
            Some(id) => {
                proof {
                    prefix.lemma_min_bytes(id@);
                    lex_not_lt(id@, prefix.min_bytes());
                    assert(l == lookup_pos);
                }
                match self.lookup_match(lookup_pos + 1, prefix) {
                    Some(_) => {
                        let resolution = PrefixResolution::AmbiguousMatch;
                        proof {
                            lemma_resolution(
                                table,
                                self.local(),
                                self.base(),
                                prefix,
                                l,
                                resolution@,
                            );
                        }
                        resolution
                    },
                    None => {
                        let resolution = PrefixResolution::SingleMatch(id);
                        proof {
                            lemma_resolution(
                                table,
                                self.local(),
                                self.base(),
                                prefix,
                                l,
                                resolution@,
                            );
                        }
                        resolution
                    },
                }
            },
            None => {
                let resolution = PrefixResolution::NoMatch;
                proof {
                    lemma_resolution(table, self.local(), self.base(), prefix, l, resolution@);
                }
                resolution
            },
        }
    }

    fn segment_generation_number(&self, local_pos: u32) -> (generation: u32) {
        self.graph_entry(local_pos).generation_number()
    }

    fn segment_commit_id(&self, local_pos: u32) -> (id: CommitId) {
        self.graph_entry(local_pos).commit_id()
    }

    fn segment_change_id(&self, local_pos: u32) -> (id: ChangeId) {
        self.graph_entry(local_pos).change_id()
    }

    fn segment_num_parents(&self, local_pos: u32) -> (number: u32) {
        self.graph_entry(local_pos).num_parents()
    }

    fn segment_parent_positions(&self, local_pos: u32) -> (positions: SmallIndexPositionsVec) {
        let graph_entry = self.graph_entry(local_pos);
        let num_parents: u32 = graph_entry.num_parents();
        let mut positions = SmallIndexPositionsVec::new();
        let ghost parents = self.local()[local_pos as int].parents;
        if num_parents >= 1 {
            positions.push(IndexPosition(graph_entry.parent1_pos()));
            assert(positions@ =~= parents.take(1));
        } else {
            assert(positions@ =~= parents);
        }
        if num_parents >= 2 {
            let parent_overflow_pos: u32 = graph_entry.parent2_overflow_pos();
            assert(self.overflow_parent.len() == self.overflow_parent@.len());
            let mut i: u32 = 1;
            while i < num_parents
                invariant
                    1 <= i <= num_parents,
                    self.readable(),
                    num_parents == parents.len(),
                    positions@ == parents.take(i as int),
                    4 * (parent_overflow_pos + num_parents - 1) <= self.overflow_parent@.len(),
                    self.overflow_parent@.len() <= 4 * u32::MAX,
                    forall|k: int|
                        1 <= k < num_parents ==> #[trigger] parents[k] == u32_at(
                            self.overflow_parent@,
                            4 * (parent_overflow_pos + k - 1),
                        ),
                decreases num_parents - i,
            {
                positions.push(self.overflow_parent(parent_overflow_pos + (i - 1)));
                i += 1;
                assert(positions@ =~= parents.take(i as int));
            }
        }
        assert(parents.take(parents.len() as int) =~= parents);
        positions
    }
}

impl ReadonlyIndexSegment {
    /// The tables have the sizes that the numbers of entries call for, and the
    /// numbers of commits of the files add up.
    closed spec fn tables_readable(&self) -> bool
        decreases self,
    {
        &&& self.commit_graph_entry_size == graph_entry_size(
            self.commit_id_length as int,
            self.change_id_length as int,
        )
        &&& self.commit_lookup_entry_size == lookup_entry_size(self.commit_id_length as int)
        &&& self.graph@.len() == self.num_local_commits * self.commit_graph_entry_size
        &&& self.lookup@.len() == self.num_local_commits * self.commit_lookup_entry_size
        &&& self.overflow_parent@.len() % 4 == 0
        &&& self.overflow_parent@.len() <= 4 * u32::MAX
        &&& match self.parent_file {
            Some(parent) => {
                &&& parent.tables_readable()
                &&& parent.commit_id_length == self.commit_id_length
                &&& parent.change_id_length == self.change_id_length
                &&& self.num_parent_commits == parent.num_parent_commits + parent.num_local_commits
            },
            None => self.num_parent_commits == 0,
        }
    }

    /// The commits of the file and its ancestors.
    pub closed spec fn entries(&self) -> Seq<Entry>
        decreases self,
    {
        match self.parent_file {
            Some(parent) => parent.entries() + self.local(),
            None => self.local(),
        }
    }

    /// Whether the file and its ancestors hold what an index writes: a valid
    /// graph, and in each file the right lookup table.
    pub closed spec fn valid(&self) -> bool
        decreases self,
    {
        &&& self.readable()
        &&& valid_graph(self.entries())
        &&& is_lookup_table(self.table(), self.local(), self.base())
        &&& forall|i: int| 0 <= i < self.local().len() ==> #[trigger] self.parents_readable(i)
        &&& match self.parent_file {
            Some(parent) => parent.valid(),
            None => true,
        }
    }

    /// The number of files in the stack of the file and its ancestors.
    pub closed spec fn levels(&self) -> nat
        decreases self,
    {
        match self.parent_file {
            Some(parent) => parent.levels() + 1,
            None => 1,
        }
    }

    /// The length of commit ids.
    pub closed spec fn commit_id_len(&self) -> int {
        self.commit_id_length as int
    }

    /// The length of change ids.
    pub closed spec fn change_id_len(&self) -> int {
        self.change_id_length as int
    }

    /// The name of the file.
    pub closed spec fn name_text(&self) -> Seq<char> {
        self.name@
    }

    /// Whether the file or one of its ancestors has the given name and, with
    /// its own ancestors, the given commits.
    pub closed spec fn has_file(&self, name: Seq<char>, g: Seq<Entry>) -> bool
        decreases self,
    {
        ||| self.name_text() == name && self.entries() == g
        ||| match self.parent_file {
            Some(parent) => parent.has_file(name, g),
            None => false,
        }
    }

    /// The commits of a file come after those of its ancestors.
    pub proof fn lemma_entries(&self)
        ensures
            self.file_name() == Some(self.name_text()),
            match self.parent() {
                Some(parent) => {
                    &&& self.entries() == parent.entries() + self.local()
                    &&& self.levels() == parent.levels() + 1
                },
                None => self.entries() == self.local() && self.levels() == 1,
            },
    {
    }

    /// What a readable file shares with its parent file.
    pub proof fn lemma_readable(&self)
        requires
            self.readable(),
        ensures
            self.base() >= 0,
            self.local().len() <= u32::MAX,
            self.table().len() == self.local().len(),
            self.entries().len() == self.base() + self.local().len(),
            match self.parent() {
                Some(parent) => {
                    &&& parent.readable()
                    &&& parent.commit_id_len() == self.commit_id_len()
                    &&& parent.change_id_len() == self.change_id_len()
                    &&& self.base() == parent.entries().len()
                },
                None => self.base() == 0,
            },
        decreases self,
    {
        match self.parent_file {
            Some(parent) => {
                parent.lemma_readable();
            },
            None => {},
        }
    }

    /// The ids in a file have the lengths that the file was read with.
    pub proof fn lemma_ids_sized(&self)
        requires
            self.readable(),
        ensures
            ids_sized(self.entries(), self.commit_id_len(), self.change_id_len()),
        decreases self,
    {
        let g = self.local();
        assert forall|i: int| 0 <= i < g.len() implies (#[trigger] g[i]).commit_id.len()
            == self.commit_id_len() && g[i].change_id.len() == self.change_id_len() by {
            lemma_chunk_inside(
                self.num_local_commits as int,
                self.commit_graph_entry_size as int,
                i,
            );
        }
        match self.parent_file {
            Some(parent) => {
                parent.lemma_ids_sized();
            },
            None => {},
        }
    }

    /// The number of parents of a commit in a file fits in 32 bits.
    pub proof fn lemma_parents_countable(&self)
        ensures
            forall|i: int|
                0 <= i < self.local().len() ==> (#[trigger] self.local()[i]).parents.len()
                    <= u32::MAX,
    {
    }

    /// What is known of a valid file.
    pub proof fn lemma_valid(&self)
        requires
            self.valid(),
        ensures
            self.readable(),
            valid_graph(self.entries()),
            is_lookup_table(self.table(), self.local(), self.base()),
            forall|i: int| 0 <= i < self.local().len() ==> #[trigger] self.parents_readable(i),
            self.parent() matches Some(parent) ==> parent.valid(),
    {
    }

    /// A file whose commits, with those of its valid parent file, are a valid
    /// graph, and whose tables fit, is valid.
    pub proof fn lemma_is_valid(&self)
        requires
            self.readable(),
            valid_graph(self.entries()),
            is_lookup_table(self.table(), self.local(), self.base()),
            forall|i: int| 0 <= i < self.local().len() ==> #[trigger] self.parents_readable(i),
            self.parent() matches Some(parent) ==> parent.valid(),
        ensures
            self.valid(),
    {
    }

    /// Loads an index file from its bytes. The parent file, if the file names
    /// one, must have been loaded before.
    ///
    /// Only the size of the file is checked, not what it holds.
    pub fn load_from(
        file: &[u8],
        parent_file: Option<Arc<ReadonlyIndexSegment>>,
        name: String,
        commit_id_length: usize,
        change_id_length: usize,
    ) -> (result: Result<Arc<ReadonlyIndexSegment>, IndexLoadError>)
        requires
            20 + commit_id_length + change_id_length <= usize::MAX,
            has_header(file@) ==> match parent_file {
                Some(parent) => {
                    &&& name_length(file@) > 0
                    &&& encode_utf8(parent.name_text()) == parent_name_bytes(file@)
                    &&& parent.readable()
                    &&& parent.entries().len() <= u32::MAX
                    &&& parent.commit_id_len() == commit_id_length
                    &&& parent.change_id_len() == change_id_length
                },
                None => name_length(file@) == 0,
            },
        ensures
            is_load_result(
                file@,
                parent_file,
                name@,
                commit_id_length as int,
                change_id_length as int,
                result,
            ),
    {
        let ghost c = commit_id_length as int;
        let ghost h = change_id_length as int;
        if file.len() < 4 {
            return Err(IndexLoadError::UnexpectedEof);
        }
        let parent_filename_len: usize = read_u32_at(file, 0) as usize;
        if file.len() - 4 < parent_filename_len {
            return Err(IndexLoadError::UnexpectedEof);
        }
        let num_parent_commits: u32 = match &parent_file {
            Some(parent) => {
                proof {
                    parent.lemma_readable();
                }
                parent.num_parent_commits + parent.num_local_commits
            },
            None => 0,
        };
        let start: usize = 4 + parent_filename_len;
        if file.len() - start < 8 {
            return Err(IndexLoadError::UnexpectedEof);
        }
        let num_commits: u32 = read_u32_at(file, start);
        let num_parent_overflow_entries: u32 = read_u32_at(file, start + 4);
        let data = slice_subrange(file, start + 8, file.len());
        assert(data@ =~= tables(file@));
        let commit_graph_entry_size: usize = CommitGraphEntry::size(
            commit_id_length,
            change_id_length,
        );
        let commit_lookup_entry_size: usize = CommitLookupEntry::size(commit_id_length);
        let (graph_size_wide, lookup_size_wide): (u128, u128) = table_sizes(
            num_commits,
            commit_id_length,
            change_id_length,
        );
        let parent_overflow_size: u128 = num_parent_overflow_entries as u128 * 4;
        let expected_size: u128 = graph_size_wide + lookup_size_wide + parent_overflow_size;
        if data.len() as u128 != expected_size {
            return Err(IndexLoadError::IndexCorrupt(name));
        }
        let graph_size: usize = graph_size_wide as usize;
        let lookup_size: usize = lookup_size_wide as usize;
        let graph = bytes_to_vec(slice_subrange(data, 0, graph_size));
        let lookup = bytes_to_vec(slice_subrange(data, graph_size, graph_size + lookup_size));
        let overflow_parent = bytes_to_vec(
            slice_subrange(data, graph_size + lookup_size, data.len()),
        );
        let segment = ReadonlyIndexSegment {
            parent_file,
            num_parent_commits,
            name,
            commit_id_length,
            change_id_length,
            commit_graph_entry_size,
            commit_lookup_entry_size,
            num_local_commits: num_commits,
            graph,
            lookup,
            overflow_parent,
        };
        proof {
            assert(segment.graph@ =~= file_graph(file@, c, h));
            assert(segment.lookup@ =~= file_lookup(file@, c, h));
            assert(segment.overflow_parent@ =~= file_overflow(file@, c, h));
            segment.lemma_readable();
        }
        Ok(Arc::new(segment))
    }

    /// The name of the file.
    pub fn name(&self) -> (name: &str)
        ensures
            name@ == self.name_text(),
    {
        self.name.as_str()
    }

    /// Whether the file has the same name as another one.
    pub fn has_name_of(&self, other: &ReadonlyIndexSegment) -> (result: bool)
        ensures
            result == (self.name_text() == other.name_text()),
    {
        self.name == other.name
    }

    pub fn as_composite(&self) -> (index: CompositeIndex<'_>)
        ensures
            index.entries() == self.entries(),
            index.valid() == self.valid(),
            index.segment_levels() == file_levels(self.parent()).push(
                (self.local().len() as int, Some(self.name_text())),
            ),
    {
        CompositeIndex::of_readonly(self)
    }

    /// The length of commit ids.
    pub fn commit_id_length(&self) -> (length: usize)
        ensures
            length == self.commit_id_len(),
    {
        self.commit_id_length
    }

    /// The length of change ids.
    pub fn change_id_length(&self) -> (length: usize)
        ensures
            length == self.change_id_len(),
    {
        self.change_id_length
    }

    fn graph_entry(&self, local_pos: u32) -> (entry: CommitGraphEntry<'_>)
        requires
            self.readable(),
            local_pos < self.local().len(),
        ensures
            entry.wf(),
            entry.commit_id_length == self.commit_id_length,
            entry.change_id_length == self.change_id_length,
            entry.data@ == chunk(
                self.graph@,
                self.commit_graph_entry_size as int,
                local_pos as int,
            ),
    {
        assert(self.graph.len() == self.graph@.len());
        proof {
            lemma_chunk_inside(
                self.num_local_commits as int,
                self.commit_graph_entry_size as int,
                local_pos as int,
            );
        }
        let offset: usize = local_pos as usize * self.commit_graph_entry_size;
        CommitGraphEntry {
            data: slice_subrange(
                self.graph.as_slice(),
                offset,
                offset + self.commit_graph_entry_size,
            ),
            commit_id_length: self.commit_id_length,
            change_id_length: self.change_id_length,
        }
    }

    fn lookup_entry(&self, lookup_pos: u32) -> (entry: CommitLookupEntry<'_>)
        requires
            self.readable(),
            lookup_pos < self.num_local_commits,
        ensures
            entry.wf(),
            entry.commit_id_length == self.commit_id_length,
            decode_item(entry.data@, self.commit_id_length as int) == self.table()[lookup_pos as int],
    {
        assert(self.lookup.len() == self.lookup@.len());
        proof {
            lemma_chunk_inside(
                self.num_local_commits as int,
                self.commit_lookup_entry_size as int,
                lookup_pos as int,
            );
        }
        let offset: usize = lookup_pos as usize * self.commit_lookup_entry_size;
        CommitLookupEntry {
            data: slice_subrange(
                self.lookup.as_slice(),
                offset,
                offset + self.commit_lookup_entry_size,
            ),
            commit_id_length: self.commit_id_length,
        }
    }

    /// Whether the parents of a commit can be read.
    pub fn has_readable_parents(&self, local_pos: u32) -> (result: bool)
        requires
            self.readable(),
            local_pos < self.local().len(),
        ensures
            result == self.parents_readable(local_pos as int),
    {
        let entry = self.graph_entry(local_pos);
        let num_parents: u32 = entry.num_parents();
        if num_parents < 2 {
            return true;
        }
        assert(self.overflow_parent.len() == self.overflow_parent@.len());
        let end: u64 = entry.parent2_overflow_pos() as u64 + (num_parents as u64 - 1);
        4 * end <= self.overflow_parent.len() as u64
    }

    /// The id and the position at a place of the lookup table.
    pub fn lookup_item(&self, lookup_pos: u32) -> (item: (CommitId, u32))
        requires
            self.readable(),
            lookup_pos < self.table().len(),
        ensures
            item.0@ == self.table()[lookup_pos as int].0,
            item.1 == self.table()[lookup_pos as int].1,
    {
        let entry = self.lookup_entry(lookup_pos);
        (entry.commit_id(), entry.pos())
    }

    fn overflow_parent(&self, overflow_pos: u32) -> (pos: IndexPosition)
        requires
            4 * overflow_pos + 4 <= self.overflow_parent@.len(),
        ensures
            pos.0 == u32_at(self.overflow_parent@, 4 * overflow_pos),
    {
        assert(self.overflow_parent.len() == self.overflow_parent@.len());
        let offset: usize = overflow_pos as usize * 4;
        IndexPosition(read_u32_at(self.overflow_parent.as_slice(), offset))
    }

    /// The id at a place of the lookup table, if the prefix matches it.
    fn lookup_match(&self, lookup_pos: u32, prefix: &HexPrefix) -> (id: Option<CommitId>)
        requires
            self.readable(),
            prefix.wf(),
        ensures
            match id {
                Some(id) => lookup_pos < self.table().len() && id@
                    == self.table()[lookup_pos as int].0 && prefix_matches(
                    prefix@,
                    id@,
                ),
                None => lookup_pos >= self.table().len() || !prefix_matches(
                    prefix@,
                    self.table()[lookup_pos as int].0,
                ),
            },
    {
        if lookup_pos >= self.num_local_commits {
            return None;
        }
        let id = self.lookup_entry(lookup_pos).commit_id();
        if prefix.matches(&id) {
            Some(id)
        } else {
            None
        }
    }

    /// Where a byte string splits the lookup table, from the place that
    /// `commit_id_byte_prefix_to_lookup_pos` found.
    spec fn split_place(&self, prefix: Seq<u8>, lookup_pos: u32) -> int {
        if lex_lt(self.table()[lookup_pos as int].0, prefix) {
            lookup_pos + 1
        } else {
            lookup_pos as int
        }
    }

    /// Finds the place of the first id in the lookup table that is not before
    /// the given bytes, or the last place if all ids are before them. Returns
    /// `None` if the file has no commits.
    fn commit_id_byte_prefix_to_lookup_pos(&self, prefix: &CommitId) -> (lookup_pos: Option<u32>)
        requires
            self.readable(),
        ensures
            lookup_pos is None <==> self.table().len() == 0,
            lookup_pos matches Some(l) ==> {
                &&& l < self.table().len()
                &&& table_sorted(self.table()) ==> {
                    &&& splits_at(self.table(), prefix@, self.split_place(prefix@, l))
                    &&& lex_lt(self.table()[l as int].0, prefix@) ==> l + 1 == self.table().len()
                }
            },
    {
        if self.num_local_commits == 0 {
            // Avoid overflow when subtracting 1 below
            return None;
        }
        let ghost table = self.table();
        let mut low: u32 = 0;
        let mut high: u32 = self.num_local_commits - 1;

        // binary search for the commit id
        while low < high
            invariant
                low <= high < self.num_local_commits,
                self.readable(),
                table == self.table(),
                table.len() == self.num_local_commits,
                table_sorted(table) ==> forall|i: int|
                    0 <= i < low ==> lex_lt((#[trigger] table[i]).0, prefix@),
                table_sorted(table) && high + 1 < table.len() ==> forall|i: int|
                    high <= i < table.len() ==> !lex_lt((#[trigger] table[i]).0, prefix@),
            decreases high - low,
        {
            let mid: u32 = low + (high - low) / 2;
            let entry = self.lookup_entry(mid);
            if bytes_lt(entry.commit_id_bytes(), prefix.as_bytes()) {
                proof {
                    if table_sorted(table) {
                        assert forall|i: int| 0 <= i < mid + 1 implies lex_lt(
                            (#[trigger] table[i]).0,
                            prefix@,
                        ) by {
                            if i < mid {
                                lex_lt_transitive(table[i].0, table[mid as int].0, prefix@);
                            }
                        }
                    }
                }
                low = mid + 1;
            } else {
                proof {
                    if table_sorted(table) {
                        assert forall|i: int| mid <= i < table.len() implies !lex_lt(
                            (#[trigger] table[i]).0,
                            prefix@,
                        ) by {
                            if mid < i && lex_lt(table[i].0, prefix@) {
                                lex_lt_transitive(table[mid as int].0, table[i].0, prefix@);
                            }
                        }
                    }
                }
                high = mid;
            }
        }
        proof {
            if table_sorted(table) {
                if !lex_lt(table[low as int].0, prefix@) {
                    assert forall|i: int| low <= i < table.len() implies !lex_lt(
                        (#[trigger] table[i]).0,
                        prefix@,
                    ) by {
                        if low < i && lex_lt(table[i].0, prefix@) {
                            lex_lt_transitive(table[low as int].0, table[i].0, prefix@);
                        }
                    }
                }
            }
        }
        Some(low)
    }
}

} // verus!
