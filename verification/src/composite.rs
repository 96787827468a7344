//! All commits of an index: those of a segment and of its ancestor files.

use crate::byte_order::{
    bytes_lt, lex_le, lex_lt, lex_lt_irreflexive, lex_lt_total, lex_lt_transitive, lex_not_lt,
};
use crate::entry::{IndexEntry, SegmentRef};
use crate::hex_digits::{
    common_hex_len, common_len, hex_digits, lemma_common_len, lemma_common_symmetric,
};
use crate::ids::{
    lemma_common_between, lemma_resolves_plus, resolves, CommitId, HexPrefix, PrefixResolution,
};
use crate::model::{commit_ids, has_commit, is_at, valid_graph, Entry};
use crate::mutable::MutableIndexSegment;
use crate::positions::IndexPosition;
use crate::readonly::{file_levels, ReadonlyIndexSegment};
use crate::segment::{is_next, is_position, is_previous, IndexSegment};
use vstd::prelude::*;

verus! {

/// The number of commits of its own and the name of each segment of a stack, from
/// the bottom.
pub open spec fn segment_levels(segment: SegmentRef<'_>) -> Seq<(int, Option<Seq<char>>)> {
    file_levels(segment.parent()).push((segment.local().len() as int, segment.file_name()))
}

/// An id, if there is one, as bytes.
pub open spec fn optional_bytes(id: Option<CommitId>) -> Option<Seq<u8>> {
    match id {
        Some(id) => Some(id@),
        None => None,
    }
}

/// Whether `r` is the greatest id before `id`.
pub open spec fn is_previous_id(g: Seq<Entry>, id: Seq<u8>, r: Option<Seq<u8>>) -> bool {
    match r {
        Some(prev) => {
            &&& has_commit(g, prev)
            &&& lex_lt(prev, id)
            &&& forall|i: int|
                0 <= i < g.len() && lex_lt((#[trigger] g[i]).commit_id, id) ==> lex_le(
                    g[i].commit_id,
                    prev,
                )
        },
        None => forall|i: int| 0 <= i < g.len() ==> !lex_lt((#[trigger] g[i]).commit_id, id),
    }
}

/// Whether `r` is the least id after `id`.
pub open spec fn is_next_id(g: Seq<Entry>, id: Seq<u8>, r: Option<Seq<u8>>) -> bool {
    match r {
        Some(next) => {
            &&& has_commit(g, next)
            &&& lex_lt(id, next)
            &&& forall|i: int|
                0 <= i < g.len() && lex_lt(id, (#[trigger] g[i]).commit_id) ==> lex_le(
                    next,
                    g[i].commit_id,
                )
        },
        None => forall|i: int| 0 <= i < g.len() ==> !lex_lt(id, (#[trigger] g[i]).commit_id),
    }
}

/// Whether `len` is the least number of digits of `id` that no other id starts
/// with.
pub open spec fn is_shortest_unique_len(g: Seq<Entry>, id: Seq<u8>, len: int) -> bool {
    let digits = hex_digits(id);
    &&& forall|i: int|
        0 <= i < g.len() && (#[trigger] g[i]).commit_id != id ==> common_len(
            digits,
            hex_digits(g[i].commit_id),
        ) < len
    &&& len == 0 || exists|i: int|
        0 <= i < g.len() && (#[trigger] g[i]).commit_id != id && common_len(
            digits,
            hex_digits(g[i].commit_id),
        ) + 1 == len
}

/// Neighbors by position are neighbors by id.
proof fn lemma_neighbor_ids(
    g: Seq<Entry>,
    base: int,
    id: Seq<u8>,
    prev: Option<IndexPosition>,
    next: Option<IndexPosition>,
)
    requires
        is_previous(g, base, id, prev),
        is_next(g, base, id, next),
    ensures
        is_previous_id(
            g,
            id,
            match prev {
                Some(pos) => Some(g[pos.0 - base].commit_id),
                None => None,
            },
        ),
        is_next_id(
            g,
            id,
            match next {
                Some(pos) => Some(g[pos.0 - base].commit_id),
                None => None,
            },
        ),
{
    if let Some(pos) = prev {
        assert(is_at(g, g[pos.0 - base].commit_id, pos.0 - base));
    }
    if let Some(pos) = next {
        assert(is_at(g, g[pos.0 - base].commit_id, pos.0 - base));
    }
}

/// What is in one of two sequences is in both joined.
proof fn lemma_has_joined(a: Seq<Entry>, b: Seq<Entry>, id: Seq<u8>)
    ensures
        has_commit(a + b, id) <==> has_commit(a, id) || has_commit(b, id),
{
    if has_commit(a, id) {
        let i = choose|i: int| is_at(a, id, i);
        assert(is_at(a + b, id, i));
    }
    if has_commit(b, id) {
        let i = choose|i: int| is_at(b, id, i);
        assert(is_at(a + b, id, a.len() + i));
    }
    if has_commit(a + b, id) {
        let i = choose|i: int| is_at(a + b, id, i);
        if i < a.len() {
            assert(is_at(a, id, i));
        } else {
            assert(is_at(b, id, i - a.len()));
        }
    }
}

/// The greatest id before another one among two sequences is the greater of the
/// two.
proof fn lemma_previous_joined(
    a: Seq<Entry>,
    b: Seq<Entry>,
    id: Seq<u8>,
    x: Option<Seq<u8>>,
    y: Option<Seq<u8>>,
    r: Option<Seq<u8>>,
)
    requires
        is_previous_id(a, id, x),
        is_previous_id(b, id, y),
        r == (match (x, y) {
            (Some(x), Some(y)) => if lex_lt(y, x) {
                Some(x)
            } else {
                Some(y)
            },
            (Some(x), None) => Some(x),
            (None, y) => y,
        }),
    ensures
        is_previous_id(a + b, id, r),
{
    let all = a + b;
    match r {
        Some(best) => {
            lemma_has_joined(a, b, best);
            if x is Some && y is Some {
                lex_not_lt(y.unwrap(), x.unwrap());
            }
            assert forall|i: int|
                0 <= i < all.len() && lex_lt((#[trigger] all[i]).commit_id, id) implies lex_le(
                all[i].commit_id,
                best,
            ) by {
                let z = all[i].commit_id;
                if i < a.len() {
                    assert(a[i] == all[i]);
                    let w = x.unwrap();
                    if z != w && w != best {
                        lex_lt_transitive(z, w, best);
                    }
                } else {
                    assert(b[i - a.len()] == all[i]);
                    let w = y.unwrap();
                    if z != w && w != best {
                        lex_lt_transitive(z, w, best);
                    }
                }
            }
        },
        None => {
            assert forall|i: int| 0 <= i < all.len() implies !lex_lt(
                (#[trigger] all[i]).commit_id,
                id,
            ) by {
                if i < a.len() {
                    assert(a[i] == all[i]);
                } else {
                    assert(b[i - a.len()] == all[i]);
                }
            }
        },
    }
}

/// The least id after another one among two sequences is the lesser of the two.
proof fn lemma_next_joined(
    a: Seq<Entry>,
    b: Seq<Entry>,
    id: Seq<u8>,
    x: Option<Seq<u8>>,
    y: Option<Seq<u8>>,
    r: Option<Seq<u8>>,
)
    requires
        is_next_id(a, id, x),
        is_next_id(b, id, y),
        r == (match (x, y) {
            (Some(x), Some(y)) => if lex_lt(x, y) {
                Some(x)
            } else {
                Some(y)
            },
            (Some(x), None) => Some(x),
            (None, y) => y,
        }),
    ensures
        is_next_id(a + b, id, r),
{
    let all = a + b;
    match r {
        Some(best) => {
            lemma_has_joined(a, b, best);
            if x is Some && y is Some {
                lex_not_lt(x.unwrap(), y.unwrap());
            }
            assert forall|i: int|
                0 <= i < all.len() && lex_lt(id, (#[trigger] all[i]).commit_id) implies lex_le(
                best,
                all[i].commit_id,
            ) by {
                let z = all[i].commit_id;
                if i < a.len() {
                    assert(a[i] == all[i]);
                    let w = x.unwrap();
                    if z != w && w != best {
                        lex_lt_transitive(best, w, z);
                    }
                } else {
                    assert(b[i - a.len()] == all[i]);
                    let w = y.unwrap();
                    if z != w && w != best {
                        lex_lt_transitive(best, w, z);
                    }
                }
            }
        },
        None => {
            assert forall|i: int| 0 <= i < all.len() implies !lex_lt(
                id,
                (#[trigger] all[i]).commit_id,
            ) by {
                if i < a.len() {
                    assert(a[i] == all[i]);
                } else {
                    assert(b[i - a.len()] == all[i]);
                }
            }
        },
    }
}

/// Among all other ids, the neighbors of an id have the most digits in common
/// with it.
proof fn lemma_shortest_unique(
    g: Seq<Entry>,
    id: Seq<u8>,
    prev: Option<Seq<u8>>,
    next: Option<Seq<u8>>,
)
    requires
        is_previous_id(g, id, prev),
        is_next_id(g, id, next),
    ensures
        ({
            let digits = hex_digits(id);
            let p: int = match prev {
                Some(x) => common_len(digits, hex_digits(x)) as int + 1,
                None => 0,
            };
            let n: int = match next {
                Some(x) => common_len(digits, hex_digits(x)) as int + 1,
                None => 0,
            };
            is_shortest_unique_len(
                g,
                id,
                if p < n {
                    n
                } else {
                    p
                },
            )
        }),
{
    let digits = hex_digits(id);
    let p: int = match prev {
        Some(x) => common_len(digits, hex_digits(x)) as int + 1,
        None => 0,
    };
    let n: int = match next {
        Some(x) => common_len(digits, hex_digits(x)) as int + 1,
        None => 0,
    };
    assert forall|i: int| 0 <= i < g.len() && (#[trigger] g[i]).commit_id != id implies {
        let c = common_len(digits, hex_digits(g[i].commit_id));
        c < p || c < n
    } by {
        let other = g[i].commit_id;
        lex_lt_total(other, id);
        lemma_common_symmetric(digits, hex_digits(other));
        if lex_lt(other, id) {
            let x = prev.unwrap();
            lemma_common_between(other, x, id);
            lemma_common_symmetric(digits, hex_digits(x));
        } else {
            let x = next.unwrap();
            lemma_common_between(id, x, other);
        }
    }
    lex_lt_irreflexive(id);
    if let Some(x) = prev {
        let i = choose|i: int| is_at(g, x, i);
        assert(g[i].commit_id != id);
    }
    if let Some(x) = next {
        let i = choose|i: int| is_at(g, x, i);
        assert(g[i].commit_id != id);
    }
}

/// The ids of the commits from a place on, where the first of them are those of
/// a segment.
proof fn lemma_ids_joined(g: Seq<Entry>, local: Seq<Entry>, base: int)
    requires
        valid_graph(g),
        0 <= base,
        base + local.len() <= g.len(),
        forall|i: int| 0 <= i < local.len() ==> g[base + i] == #[trigger] local[i],
    ensures
        commit_ids(g.skip(base)) == commit_ids(g.skip(base + local.len())).union(
            commit_ids(local),
        ),
        forall|id: Seq<u8>| #[trigger]
            commit_ids(g.skip(base + local.len())).contains(id) ==> !commit_ids(local).contains(
                id,
            ),
{
    let above = g.skip(base + local.len());
    assert(g.skip(base) =~= local + above);
    assert forall|id: Seq<u8>| commit_ids(g.skip(base)).contains(id) <==> commit_ids(
        above,
    ).contains(id) || commit_ids(local).contains(id) by {
        lemma_has_joined(local, above, id);
    }
    assert(commit_ids(g.skip(base)) =~= commit_ids(above).union(commit_ids(local)));
    assert forall|id: Seq<u8>| #[trigger] commit_ids(above).contains(id) implies !commit_ids(
        local,
    ).contains(id) by {
        if has_commit(local, id) {
            let i = choose|i: int| is_at(local, id, i);
            let j = choose|j: int| is_at(above, id, j);
            assert(g[base + i].commit_id != g[base + local.len() + j].commit_id);
        }
    }
}

/// All commits of an index.
#[derive(Clone, Copy)]
pub struct CompositeIndex<'a> {
    segment: SegmentRef<'a>,
}

impl<'a> CompositeIndex<'a> {
    /// The commits of the index, in order of their positions.
    pub closed spec fn entries(&self) -> Seq<Entry> {
        self.segment.entries()
    }

    /// Whether the index holds a valid graph with the right lookup tables.
    pub closed spec fn valid(&self) -> bool {
        self.segment.valid()
    }

    /// The number of commits of its own and the name of each segment, from the
    /// bottom.
    pub closed spec fn segment_levels(&self) -> Seq<(int, Option<Seq<char>>)> {
        segment_levels(self.segment)
    }

    /// The graph of a valid index is valid.
    pub proof fn lemma_valid(&self)
        requires
            self.valid(),
        ensures
            valid_graph(self.entries()),
    {
        self.segment.lemma_valid();
    }

    pub fn of_segment(segment: SegmentRef<'a>) -> (index: CompositeIndex<'a>)
        ensures
            index.entries() == segment.entries(),
            index.valid() == segment.valid(),
            index.segment_levels() == segment_levels(segment),
    {
        CompositeIndex { segment }
    }

    pub fn of_readonly(segment: &'a ReadonlyIndexSegment) -> (index: CompositeIndex<'a>)
        ensures
            index.entries() == segment.entries(),
            index.valid() == segment.valid(),
            index.segment_levels() == file_levels(segment.parent()).push(
                (segment.local().len() as int, Some(segment.name_text())),
            ),
    {
        proof {
            segment.lemma_entries();
        }
        CompositeIndex { segment: SegmentRef::Readonly(segment) }
    }

    pub fn of_mutable(segment: &'a MutableIndexSegment) -> (index: CompositeIndex<'a>)
        ensures
            index.entries() == segment.entries(),
            index.valid() == segment.valid(),
            index.segment_levels() == file_levels(segment.parent()).push(
                (segment.local().len() as int, None),
            ),
    {
        proof {
            segment.lemma_entries();
        }
        CompositeIndex { segment: SegmentRef::Mutable(segment) }
    }

    /// The number of commits.
    pub fn num_commits(&self) -> (number: u32)
        requires
            self.valid(),
        ensures
            number == self.entries().len(),
    {
        proof {
            self.segment.lemma_valid();
        }
        self.segment.segment_num_parent_commits() + self.segment.segment_num_commits()
    }

    /// The segment on top.
    pub fn top_segment(&self) -> (segment: SegmentRef<'a>)
        ensures
            segment.entries() == self.entries(),
            segment.valid() == self.valid(),
            segment_levels(segment) == self.segment_levels(),
    {
        self.segment
    }

    /// The commit at a position.
    pub fn entry_by_pos(&self, pos: IndexPosition) -> (entry: IndexEntry<'a>)
        requires
            self.valid(),
            pos.0 < self.entries().len(),
        ensures
            entry.is_in(self.entries()),
            entry.place() == pos.0,
    {
        let mut segment = self.segment;
        loop
            invariant
                segment.valid(),
                segment.entries().is_prefix_of(self.entries()),
                pos.0 < segment.entries().len(),
            decreases segment.levels(),
        {
            proof {
                segment.lemma_valid();
            }
            if pos.0 >= segment.segment_num_parent_commits() {
                return IndexEntry::new(segment, pos);
            }
            let file = segment.parent_file().unwrap();
            segment = SegmentRef::Readonly(&**file);
        }
    }

    /// The position of the commit with the given id.
    pub fn commit_id_to_pos(&self, commit_id: &CommitId) -> (pos: Option<IndexPosition>)
        requires
            self.valid(),
        ensures
            is_position(self.entries(), 0, commit_id@, pos),
    {
        let mut segment = self.segment;
        loop
            invariant
                segment.valid(),
                segment.entries().is_prefix_of(self.entries()),
                forall|i: int|
                    segment.entries().len() <= i < self.entries().len() ==> (
                    #[trigger] self.entries()[i]).commit_id != commit_id@,
            decreases segment.levels(),
        {
            proof {
                segment.lemma_valid();
            }
            let pos = segment.segment_commit_id_to_pos(commit_id);
            if pos.is_some() {
                proof {
                    let i = pos.unwrap().0 as int;
                    assert(segment.local()[i - segment.base()] == segment.entries()[i]);
                }
                return pos;
            }
            assert forall|i: int|
                segment.base() <= i < self.entries().len() implies (
            #[trigger] self.entries()[i]).commit_id != commit_id@ by {
                if i < segment.entries().len() {
                    let j = i - segment.base();
                    assert(segment.local()[j] == segment.entries()[segment.base() + j]);
                    assert(!is_at(segment.local(), commit_id@, j));
                }
            }
            match segment.parent_file() {
                Some(file) => {
                    segment = SegmentRef::Readonly(&**file);
                },
                None => {
                    return None;
                },
            }
        }
    }

    /// The commit with the given id.
    pub fn entry_by_id(&self, commit_id: &CommitId) -> (entry: Option<IndexEntry<'a>>)
        requires
            self.valid(),
        ensures
            match entry {
                Some(entry) => entry.is_in(self.entries()) && entry.model().commit_id == commit_id@,
                None => !has_commit(self.entries(), commit_id@),
            },
    {
        match self.commit_id_to_pos(commit_id) {
            Some(pos) => Some(self.entry_by_pos(pos)),
            None => None,
        }
    }

    /// Whether a commit with the given id is there.
    pub fn has_id(&self, commit_id: &CommitId) -> (result: bool)
        requires
            self.valid(),
        ensures
            result == has_commit(self.entries(), commit_id@),
    {
        self.commit_id_to_pos(commit_id).is_some()
    }

    /// Returns the previous and next commit ids in lexicographical order,
    /// whether or not the given id exists.
    pub fn resolve_neighbor_commit_ids(&self, commit_id: &CommitId) -> (neighbors: (
        Option<CommitId>,
        Option<CommitId>,
    ))
        requires
            self.valid(),
        ensures
            is_previous_id(self.entries(), commit_id@, optional_bytes(neighbors.0)),
            is_next_id(self.entries(), commit_id@, optional_bytes(neighbors.1)),
    {
        let ghost g = self.entries();
        let ghost id = commit_id@;
        let mut segment = self.segment;
        let mut prev_id: Option<CommitId> = None;
        let mut next_id: Option<CommitId> = None;
        assert(g.skip(g.len() as int) =~= Seq::<Entry>::empty());
        loop
            invariant
                segment.valid(),
                g == self.entries(),
                id == commit_id@,
                segment.entries().is_prefix_of(g),
                is_previous_id(
                    g.skip(segment.entries().len() as int),
                    id,
                    optional_bytes(prev_id),
                ),
                is_next_id(
                    g.skip(segment.entries().len() as int),
                    id,
                    optional_bytes(next_id),
                ),
            decreases segment.levels(),
        {
            proof {
                segment.lemma_valid();
            }
            let (prev_pos, next_pos) = segment.segment_commit_id_to_neighbor_positions(commit_id);
            let ghost above = g.skip(segment.entries().len() as int);
            let ghost local = segment.local();
            let base: u32 = segment.segment_num_parent_commits();
            let ghost prev_before = optional_bytes(prev_id);
            let ghost next_before = optional_bytes(next_id);
            if let Some(pos) = prev_pos {
                let local_id = segment.segment_commit_id(pos.0 - base);
                prev_id =
                match prev_id {
                    Some(best) => if bytes_lt(best.as_bytes(), local_id.as_bytes()) {
                        Some(local_id)
                    } else {
                        Some(best)
                    },
                    None => Some(local_id),
                };
            }
            if let Some(pos) = next_pos {
                let local_id = segment.segment_commit_id(pos.0 - base);
                next_id =
                match next_id {
                    Some(best) => if bytes_lt(local_id.as_bytes(), best.as_bytes()) {
                        Some(local_id)
                    } else {
                        Some(best)
                    },
                    None => Some(local_id),
                };
            }
            proof {
                let local_prev = match prev_pos {
                    Some(pos) => Some(local[pos.0 - segment.base()].commit_id),
                    None => None,
                };
                let local_next = match next_pos {
                    Some(pos) => Some(local[pos.0 - segment.base()].commit_id),
                    None => None,
                };
                lemma_neighbor_ids(local, segment.base(), id, prev_pos, next_pos);
                lemma_previous_joined(
                    local,
                    above,
                    id,
                    local_prev,
                    prev_before,
                    optional_bytes(prev_id),
                );
                lemma_next_joined(
                    local,
                    above,
                    id,
                    local_next,
                    next_before,
                    optional_bytes(next_id),
                );
                assert(g.skip(segment.base()) =~= local + above) by {
                    assert forall|i: int| 0 <= i < local.len() implies g.skip(segment.base())[i]
                        == #[trigger] local[i] by {
                        assert(local[i] == segment.entries()[segment.base() + i]);
                    }
                }
            }
            match segment.parent_file() {
                Some(file) => {
                    segment = SegmentRef::Readonly(&**file);
                },
                None => {
                    assert(g.skip(0) =~= g);
                    return (prev_id, next_id);
                },
            }
        }
    }

    /// Suppose the given `commit_id` exists, returns the minimum prefix length
    /// to disambiguate it. The length to be returned is a number of hexadecimal
    /// digits. If the given `commit_id` doesn't exist, this will return the
    /// prefix length that never matches with any commit ids.
    pub fn shortest_unique_commit_id_prefix_len(&self, commit_id: &CommitId) -> (len: usize)
        requires
            self.valid(),
            2 * commit_id@.len() <= usize::MAX,
        ensures
            is_shortest_unique_len(self.entries(), commit_id@, len as int),
    {
        let (prev_id, next_id) = self.resolve_neighbor_commit_ids(commit_id);
        proof {
            lemma_shortest_unique(
                self.entries(),
                commit_id@,
                optional_bytes(prev_id),
                optional_bytes(next_id),
            );
        }
        let ghost digits = hex_digits(commit_id@);
        let prev_len: usize = match &prev_id {
            Some(id) => {
                proof {
                    lemma_common_len(digits, hex_digits(id@));
                }
                common_hex_len(commit_id.as_bytes(), id.as_bytes()) + 1
            },
            None => 0,
        };
        let next_len: usize = match &next_id {
            Some(id) => {
                proof {
                    lemma_common_len(digits, hex_digits(id@));
                }
                common_hex_len(commit_id.as_bytes(), id.as_bytes()) + 1
            },
            None => 0,
        };
        if prev_len < next_len {
            next_len
        } else {
            prev_len
        }
    }

    /// Finds the commit whose id starts with the given prefix.
    pub fn resolve_prefix(&self, prefix: &HexPrefix) -> (resolution: PrefixResolution)
        requires
            self.valid(),
            prefix.wf(),
        ensures
            resolves(commit_ids(self.entries()), prefix@, resolution@),
    {
        let ghost g = self.entries();
        let mut segment = self.segment;
        let mut resolution = PrefixResolution::NoMatch;
        proof {
            self.lemma_valid();
            assert(g.skip(g.len() as int) =~= Seq::<Entry>::empty());
        }
        loop
            invariant
                segment.valid(),
                prefix.wf(),
                g == self.entries(),
                valid_graph(g),
                segment.entries().is_prefix_of(g),
                resolves(
                    commit_ids(g.skip(segment.entries().len() as int)),
                    prefix@,
                    resolution@,
                ),
            decreases segment.levels(),
        {
            proof {
                segment.lemma_valid();
            }
            let ghost above = g.skip(segment.entries().len() as int);
            let ghost local = segment.local();
            let ghost before = resolution@;
            let local_match = segment.segment_resolve_prefix(prefix);
            resolution = resolution.plus(&local_match);
            proof {
                assert forall|i: int| 0 <= i < local.len() implies g[segment.base() + i]
                    == #[trigger] local[i] by {
                    assert(local[i] == segment.entries()[segment.base() + i]);
                }
                lemma_ids_joined(g, local, segment.base());
                lemma_resolves_plus(
                    commit_ids(above),
                    commit_ids(local),
                    prefix@,
                    before,
                    local_match@,
                );
            }
            match segment.parent_file() {
                Some(file) => {
                    segment = SegmentRef::Readonly(&**file);
                },
                None => {
                    assert(g.skip(0) =~= g);
                    return resolution;
                },
            }
        }
    }
}

} // verus!
