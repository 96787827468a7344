//! A segment of an index: the commits of one file, or those in memory that are
//! not in a file yet, above the commits of the parent file.

use crate::byte_order::{
    lex_le, lex_lt, lex_lt_asymmetric, lex_lt_irreflexive, lex_lt_total, lex_not_lt,
};
use crate::format::{is_lookup_table, table_has, table_sorted};
use crate::ids::{
    prefix_matches, resolves, ChangeId, CommitId, HexPrefix, PrefixResolution, Resolution,
};
use crate::model::{commit_ids, has_commit, is_at, Entry};
use crate::positions::{IndexPosition, SmallIndexPositionsVec};
use crate::readonly::ReadonlyIndexSegment;
use std::sync::Arc;
use vstd::prelude::*;

verus! {

/// Whether `r` is the position of the greatest id before `id`, where the
/// positions of the entries start at `base`.
pub open spec fn is_previous(
    g: Seq<Entry>,
    base: int,
    id: Seq<u8>,
    r: Option<IndexPosition>,
) -> bool {
    match r {
        Some(pos) => {
            &&& base <= pos.0 < base + g.len()
            &&& lex_lt(g[pos.0 - base].commit_id, id)
            &&& forall|i: int|
                0 <= i < g.len() && lex_lt((#[trigger] g[i]).commit_id, id) ==> lex_le(
                    g[i].commit_id,
                    g[pos.0 - base].commit_id,
                )
        },
        None => forall|i: int| 0 <= i < g.len() ==> !lex_lt((#[trigger] g[i]).commit_id, id),
    }
}

/// Whether `r` is the position of the least id after `id`, where the positions
/// of the entries start at `base`.
pub open spec fn is_next(g: Seq<Entry>, base: int, id: Seq<u8>, r: Option<IndexPosition>) -> bool {
    match r {
        Some(pos) => {
            &&& base <= pos.0 < base + g.len()
            &&& lex_lt(id, g[pos.0 - base].commit_id)
            &&& forall|i: int|
                0 <= i < g.len() && lex_lt(id, (#[trigger] g[i]).commit_id) ==> lex_le(
                    g[pos.0 - base].commit_id,
                    g[i].commit_id,
                )
        },
        None => forall|i: int| 0 <= i < g.len() ==> !lex_lt(id, (#[trigger] g[i]).commit_id),
    }
}

/// Whether `r` is the position of the commit with the given id, or `None` if
/// there is none, where the positions of the entries start at `base`.
pub open spec fn is_position(
    g: Seq<Entry>,
    base: int,
    id: Seq<u8>,
    r: Option<IndexPosition>,
) -> bool {
    match r {
        Some(pos) => is_at(g, id, pos.0 - base),
        None => !has_commit(g, id),
    }
}

/// What every segment offers, whether it is in a file or in memory. Positions
/// in the index start at 0 with the first commit of the first file; local
/// positions start at 0 with the first commit of the segment.
pub trait IndexSegment {
    /// The parent file.
    spec fn parent(&self) -> Option<Arc<ReadonlyIndexSegment>>;

    /// The number of commits in the parent file and its ancestors.
    spec fn base(&self) -> int;

    /// The commits of the segment.
    spec fn local(&self) -> Seq<Entry>;

    /// The lookup table of the segment.
    spec fn table(&self) -> Seq<(Seq<u8>, u32)>;

    /// The name of the segment's file.
    spec fn file_name(&self) -> Option<Seq<char>>;

    /// Whether the segment's tables have the right sizes.
    spec fn readable(&self) -> bool;

    /// Whether the parents of a commit of the segment can be read.
    spec fn parents_readable(&self, local_pos: int) -> bool;

    fn segment_num_parent_commits(&self) -> (number: u32)
        requires
            self.readable(),
        ensures
            number == self.base(),
    ;

    fn segment_num_commits(&self) -> (number: u32)
        requires
            self.readable(),
            self.local().len() <= u32::MAX,
        ensures
            number == self.local().len(),
    ;

    fn segment_parent_file(&self) -> (parent: Option<&Arc<ReadonlyIndexSegment>>)
        ensures
            match parent {
                Some(file) => self.parent() == Some(*file),
                None => self.parent() is None,
            },
    ;

    fn segment_name(&self) -> (name: Option<String>)
        ensures
            match name {
                Some(text) => self.file_name() == Some(text@),
                None => self.file_name() is None,
            },
    ;

    fn segment_commit_id_to_pos(&self, commit_id: &CommitId) -> (pos: Option<IndexPosition>)
        requires
            self.readable(),
            is_lookup_table(self.table(), self.local(), self.base()),
        ensures
            is_position(self.local(), self.base(), commit_id@, pos),
    ;

    /// Returns the positions of the previous and next commit ids in
    /// lexicographical order, whether or not the given id exists.
    fn segment_commit_id_to_neighbor_positions(&self, commit_id: &CommitId) -> (neighbors: (
        Option<IndexPosition>,
        Option<IndexPosition>,
    ))
        requires
            self.readable(),
            is_lookup_table(self.table(), self.local(), self.base()),
        ensures
            is_previous(self.local(), self.base(), commit_id@, neighbors.0),
            is_next(self.local(), self.base(), commit_id@, neighbors.1),
    ;

    fn segment_resolve_prefix(&self, prefix: &HexPrefix) -> (resolution: PrefixResolution)
        requires
            self.readable(),
            is_lookup_table(self.table(), self.local(), self.base()),
            prefix.wf(),
        ensures
            resolves(commit_ids(self.local()), prefix@, resolution@),
    ;

    fn segment_generation_number(&self, local_pos: u32) -> (generation: u32)
        requires
            self.readable(),
            local_pos < self.local().len(),
        ensures
            generation == self.local()[local_pos as int].generation,
    ;

    fn segment_commit_id(&self, local_pos: u32) -> (id: CommitId)
        requires
            self.readable(),
            local_pos < self.local().len(),
        ensures
            id@ == self.local()[local_pos as int].commit_id,
    ;

    fn segment_change_id(&self, local_pos: u32) -> (id: ChangeId)
        requires
            self.readable(),
            local_pos < self.local().len(),
        ensures
            id@ == self.local()[local_pos as int].change_id,
    ;

    fn segment_num_parents(&self, local_pos: u32) -> (number: u32)
        requires
            self.readable(),
            local_pos < self.local().len(),
            self.local()[local_pos as int].parents.len() <= u32::MAX,
        ensures
            number == self.local()[local_pos as int].parents.len(),
    ;

    fn segment_parent_positions(&self, local_pos: u32) -> (positions: SmallIndexPositionsVec)
        requires
            self.readable(),
            local_pos < self.local().len(),
            self.parents_readable(local_pos as int),
        ensures
            positions@ == self.local()[local_pos as int].parents,
    ;
}

/// Whether the ids before place `l` of a table are before `id`, and the ids
/// from there on are not.
pub open spec fn splits_at(table: Seq<(Seq<u8>, u32)>, id: Seq<u8>, l: int) -> bool {
    &&& 0 <= l <= table.len()
    &&& forall|i: int| 0 <= i < l ==> lex_lt((#[trigger] table[i]).0, id)
    &&& forall|i: int| l <= i < table.len() ==> !lex_lt((#[trigger] table[i]).0, id)
}

/// The place of an entry's id in the lookup table.
pub proof fn lemma_table_place(
    table: Seq<(Seq<u8>, u32)>,
    g: Seq<Entry>,
    base: int,
    i: int,
) -> (l: int)
    requires
        is_lookup_table(table, g, base),
        0 <= i < g.len(),
    ensures
        0 <= l < table.len(),
        table[l].0 == g[i].commit_id,
        table[l].1 == base + i,
{
    assert(table_has(table, g[i].commit_id, base + i));
    choose|l: int|
        0 <= l < table.len() && (#[trigger] table[l]).0 == g[i].commit_id && table[l].1 == base + i
}

/// In a sorted table, ids from a place on are not before the id there.
pub proof fn lemma_sorted_from(table: Seq<(Seq<u8>, u32)>, i: int, j: int)
    requires
        table_sorted(table),
        0 <= i <= j < table.len(),
    ensures
        lex_le(table[i].0, table[j].0),
{
}

/// Looking an id up at the place where it splits the table finds it.
pub proof fn lemma_lookup(
    table: Seq<(Seq<u8>, u32)>,
    g: Seq<Entry>,
    base: int,
    id: Seq<u8>,
    l: int,
)
    requires
        is_lookup_table(table, g, base),
        splits_at(table, id, l),
    ensures
        l < table.len() && table[l].0 == id ==> is_at(g, id, table[l].1 - base),
        !(l < table.len() && table[l].0 == id) ==> !has_commit(g, id),
{
    if !(l < table.len() && table[l].0 == id) && has_commit(g, id) {
        let i = choose|i: int| is_at(g, id, i);
        let m = lemma_table_place(table, g, base, i);
        lex_lt_irreflexive(id);
        if l < m {
            assert(lex_lt(table[l].0, table[m].0));
        }
    }
}

/// The neighbors of an id are next to where it splits the table.
pub proof fn lemma_neighbors(
    table: Seq<(Seq<u8>, u32)>,
    g: Seq<Entry>,
    base: int,
    id: Seq<u8>,
    l: int,
    prev: Option<IndexPosition>,
    next: Option<IndexPosition>,
)
    requires
        is_lookup_table(table, g, base),
        splits_at(table, id, l),
        prev == (if l > 0 {
            Some(IndexPosition(table[l - 1].1))
        } else {
            None
        }),
        ({
            let n = if l < table.len() && table[l].0 == id {
                l + 1
            } else {
                l
            };
            next == (if n < table.len() {
                Some(IndexPosition(table[n].1))
            } else {
                None
            })
        }),
    ensures
        is_previous(g, base, id, prev),
        is_next(g, base, id, next),
{
    assert forall|i: int| 0 <= i < g.len() && lex_lt((#[trigger] g[i]).commit_id, id) implies l > 0
        && lex_le(g[i].commit_id, table[l - 1].0) by {
        let m = lemma_table_place(table, g, base, i);
        assert(m < l);
        lemma_sorted_from(table, m, l - 1);
    }
    let n = if l < table.len() && table[l].0 == id {
        l + 1
    } else {
        l
    };
    if n < table.len() {
        lex_not_lt(table[n].0, id);
        if n == l + 1 {
            assert(lex_lt(table[l].0, table[n].0));
        }
    }
    assert forall|i: int| 0 <= i < g.len() && lex_lt(id, (#[trigger] g[i]).commit_id) implies n
        < table.len() && lex_le(table[n].0, g[i].commit_id) by {
        let m = lemma_table_place(table, g, base, i);
        lex_lt_asymmetric(id, g[i].commit_id);
        assert(!(m < l));
        assert(m >= n);
        lemma_sorted_from(table, n, m);
    }
}

/// The ids that a prefix matches follow each other in a sorted table from
/// where the prefix's minimum bytes split it, so the first two tell how many
/// there are.
pub proof fn lemma_resolution(
    table: Seq<(Seq<u8>, u32)>,
    g: Seq<Entry>,
    base: int,
    prefix: &HexPrefix,
    l: int,
    r: Resolution,
)
    requires
        is_lookup_table(table, g, base),
        prefix.wf(),
        splits_at(table, prefix.min_bytes(), l),
        ({
            let first = l < table.len() && prefix_matches(prefix@, table[l].0);
            let second = l + 1 < table.len() && prefix_matches(prefix@, table[l + 1].0);
            r == (if !first {
                Resolution::NoMatch
            } else if !second {
                Resolution::SingleMatch(table[l].0)
            } else {
                Resolution::AmbiguousMatch
            })
        }),
    ensures
        resolves(commit_ids(g), prefix@, r),
{
    let min = prefix.min_bytes();
    let ids = commit_ids(g);
    // Every match stands at l or after it, and everything from l up to a match
    // matches.
    assert forall|id: Seq<u8>| #[trigger]
        ids.contains(id) && prefix_matches(prefix@, id) implies exists|m: int|
        l <= m < table.len() && (#[trigger] table[m]).0 == id && (forall|j: int|
            l <= j <= m ==> prefix_matches(prefix@, (#[trigger] table[j]).0)) by {
        let i = choose|i: int| is_at(g, id, i);
        let m = lemma_table_place(table, g, base, i);
        prefix.lemma_min_bytes(id);
        lex_not_lt(id, min);
        assert(!(m < l));
        assert forall|j: int| l <= j <= m implies prefix_matches(
            prefix@,
            (#[trigger] table[j]).0,
        ) by {
            lex_not_lt(table[j].0, min);
            lemma_sorted_from(table, j, m);
            prefix.lemma_matches_between(table[j].0, id);
        }
        assert(table[m].0 == id);
    }
    if l < table.len() {
        assert(is_at(g, table[l].0, table[l].1 - base));
        assert(ids.contains(table[l].0));
        if l + 1 < table.len() {
            assert(is_at(g, table[l + 1].0, table[l + 1].1 - base));
            assert(ids.contains(table[l + 1].0));
            assert(lex_lt(table[l].0, table[l + 1].0));
            lex_lt_irreflexive(table[l].0);
        }
    }
    match r {
        Resolution::NoMatch => {
            assert forall|id: Seq<u8>| #[trigger] ids.contains(id) implies !prefix_matches(
                prefix@,
                id,
            ) by {
                if prefix_matches(prefix@, id) {
                    let m = choose|m: int|
                        l <= m < table.len() && (#[trigger] table[m]).0 == id && (forall|j: int|
                            l <= j <= m ==> prefix_matches(prefix@, (#[trigger] table[j]).0));
                    assert(prefix_matches(prefix@, table[l].0));
                }
            }
        },
        Resolution::SingleMatch(one) => {
            assert forall|id: Seq<u8>| #[trigger]
                ids.contains(id) && prefix_matches(prefix@, id) implies id == one by {
                let m = choose|m: int|
                    l <= m < table.len() && (#[trigger] table[m]).0 == id && (forall|j: int|
                        l <= j <= m ==> prefix_matches(prefix@, (#[trigger] table[j]).0));
                if m > l {
                    assert(prefix_matches(prefix@, table[l + 1].0));
                }
            }
        },
        Resolution::AmbiguousMatch => {},
    }
}

/// Putting a new commit's id where it splits a lookup table gives the lookup
/// table with that commit.
pub proof fn lemma_table_insert(
    table: Seq<(Seq<u8>, u32)>,
    g: Seq<Entry>,
    base: int,
    e: Entry,
    l: int,
)
    requires
        is_lookup_table(table, g, base),
        splits_at(table, e.commit_id, l),
        !has_commit(g, e.commit_id),
        0 <= base,
        base + g.len() <= u32::MAX,
    ensures
        is_lookup_table(
            table.insert(l, (e.commit_id, (base + g.len()) as u32)),
            g.push(e),
            base,
        ),
{
    let id = e.commit_id;
    let item = (id, (base + g.len()) as u32);
    let t = table.insert(l, item);
    let h = g.push(e);
    assert forall|i: int| 0 <= i < table.len() implies (#[trigger] table[i]).0 != id by {
        assert(is_at(g, table[i].0, table[i].1 - base));
    }
    assert forall|i: int, j: int| 0 <= i < j < t.len() implies lex_lt(
        (#[trigger] t[i]).0,
        (#[trigger] t[j]).0,
    ) by {
        if j == l {
            assert(t[i] == table[i]);
        } else if i == l {
            assert(t[j] == table[j - 1]);
            lex_lt_total(id, table[j - 1].0);
        } else {
            let a = if i < l { i } else { i - 1 };
            let b = if j < l { j } else { j - 1 };
            assert(t[i] == table[a] && t[j] == table[b]);
        }
    }
    assert(t[l] == item);
    assert forall|i: int| 0 <= i < t.len() implies is_at(
        h,
        (#[trigger] t[i]).0,
        t[i].1 - base,
    ) by {
        if i != l {
            let a = if i < l { i } else { i - 1 };
            assert(t[i] == table[a]);
            assert(is_at(g, table[a].0, table[a].1 - base));
        }
    }
    assert forall|i: int| 0 <= i < h.len() implies table_has(
        t,
        (#[trigger] h[i]).commit_id,
        base + i,
    ) by {
        if i < g.len() {
            let m = lemma_table_place(table, g, base, i);
            let b = if m < l { m } else { m + 1 };
            assert(t[b] == table[m]);
        }
    }
}

} // verus!
