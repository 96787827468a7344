//! Telling whether an index file that was loaded holds what an index writes.

use crate::byte_order::{bytes_lt, lex_lt, lex_lt_irreflexive, lex_lt_transitive};
use crate::format::{is_lookup_table, table_has};
use crate::model::{
    generation_above, has_commit, ids_distinct, is_at, lemma_generation_prefix, valid_graph, Entry,
};
use crate::positions::IndexPosition;
use crate::readonly::{commits_of, ReadonlyIndexSegment};
use crate::segment::{lemma_table_place, IndexSegment};
use vstd::prelude::*;

verus! {

/// Whether the commit at a place comes after its parents and has the right
/// generation number.
spec fn fits(g: Seq<Entry>, i: int) -> bool {
    &&& forall|k: int| 0 <= k < g[i].parents.len() ==> #[trigger] g[i].parents[k] < i
    &&& g[i].generation == generation_above(g, g[i].parents)
}

/// Commits with a lookup table have distinct ids.
proof fn lemma_table_distinct(table: Seq<(Seq<u8>, u32)>, g: Seq<Entry>, base: int)
    requires
        is_lookup_table(table, g, base),
    ensures
        ids_distinct(g),
{
    assert forall|i: int, j: int|
        #![trigger g[i].commit_id, g[j].commit_id]
        0 <= i < j < g.len() implies g[i].commit_id != g[j].commit_id by {
        let l = lemma_table_place(table, g, base, i);
        let m = lemma_table_place(table, g, base, j);
        lex_lt_irreflexive(table[l].0);
        if l < m {
            assert(lex_lt(table[l].0, table[m].0));
        } else if m < l {
            assert(lex_lt(table[m].0, table[l].0));
        }
    }
}

/// A graph made of a valid one and more commits is valid if the additional
/// commits fit and their ids are new.
proof fn lemma_extended(below: Seq<Entry>, local: Seq<Entry>)
    requires
        valid_graph(below),
        (below + local).len() <= u32::MAX,
        ids_distinct(local),
        forall|i: int| 0 <= i < local.len() ==> (#[trigger] local[i]).parents.len() <= u32::MAX,
    ensures
        valid_graph(below + local) <==> forall|i: int|
            0 <= i < local.len() ==> fits(below + local, below.len() + i) && !has_commit(
                below,
                (#[trigger] local[i]).commit_id,
            ),
{
    let g = below + local;
    let n = below.len() as int;
    assert forall|i: int| 0 <= i < n implies #[trigger] g[i] == below[i] by {}
    assert forall|i: int| 0 <= i < local.len() implies g[n + i] == #[trigger] local[i] by {}
    if valid_graph(g) {
        assert forall|i: int| 0 <= i < local.len() implies fits(g, n + i) && !has_commit(
            below,
            (#[trigger] local[i]).commit_id,
        ) by {
            assert(g[n + i] == local[i]);
            if has_commit(below, local[i].commit_id) {
                let j = choose|j: int| is_at(below, local[i].commit_id, j);
                assert(g[j].commit_id != g[n + i].commit_id);
            }
        }
    }
    if forall|i: int|
        0 <= i < local.len() ==> fits(g, n + i) && !has_commit(
            below,
            (#[trigger] local[i]).commit_id,
        ) {
        assert forall|i: int| 0 <= i < g.len() implies fits(g, i) && (
        #[trigger] g[i]).parents.len() <= u32::MAX by {
            if i < n {
                assert(g[i] == below[i]);
                assert forall|k: int| 0 <= k < g[i].parents.len() implies #[trigger] g[i].parents[k]
                    < i by {
                    assert(below[i].parents[k] < i);
                }
                assert forall|k: int| 0 <= k < below[i].parents.len() implies (
                #[trigger] below[i].parents[k]) < below.len() by {}
                lemma_generation_prefix(below, g, below[i].parents);
            } else {
                assert(local[i - n] == g[i]);
            }
        }
        assert forall|i: int, k: int|
            #![trigger g[i].parents[k]]
            0 <= i < g.len() && 0 <= k < g[i].parents.len() implies g[i].parents[k] < i by {
            assert(fits(g, i));
        }
        assert forall|i: int, j: int|
            #![trigger g[i].commit_id, g[j].commit_id]
            0 <= i < j < g.len() implies g[i].commit_id != g[j].commit_id by {
            if j < n {
                assert(below[i].commit_id != below[j].commit_id);
            } else if i >= n {
                assert(local[i - n].commit_id != local[j - n].commit_id);
            } else {
                assert(local[j - n] == g[j]);
                assert(is_at(below, g[i].commit_id, i));
            }
        }
    }
}

impl ReadonlyIndexSegment {
    /// Whether the file and its ancestors hold what an index writes.
    pub fn is_valid(&self) -> (result: bool)
        requires
            self.readable(),
        ensures
            result == self.valid(),
        decreases self.levels(),
    {
        proof {
            self.lemma_readable();
            self.lemma_entries();
            if self.valid() {
                self.lemma_valid();
            }
        }
        if let Some(parent) = self.segment_parent_file() {
            if !parent.is_valid() {
                return false;
            }
        }
        let ghost below = commits_of(self.parent());
        let ghost local = self.local();
        proof {
            self.lemma_parent_counts();
            assert(self.entries() =~= below + local);
            match self.parent() {
                Some(parent) => {
                    parent.lemma_valid();
                },
                None => {},
            }
        }
        let base: u32 = self.segment_num_parent_commits();
        let number: u32 = self.segment_num_commits();
        if base as u64 + number as u64 > u32::MAX as u64 {
            return false;
        }
        if !self.has_valid_lookup() {
            return false;
        }
        proof {
            lemma_table_distinct(self.table(), local, self.base());
            lemma_extended(below, local);
            if self.valid() {
                assert forall|j: int| 0 <= j < local.len() implies #[trigger] self.entry_right(
                    j,
                ) by {
                    assert(local[j].parents.len() <= u32::MAX);
                }
            }
        }
        let mut i: u32 = 0;
        while i < number
            invariant
                i <= number,
                number == local.len(),
                base + number <= u32::MAX,
                base == self.base(),
                local == self.local(),
                below == commits_of(self.parent()),
                self.entries() == below + local,
                self.base() == below.len(),
                self.readable(),
                self.parent() matches Some(parent) ==> parent.valid(),
                self.valid() ==> (forall|j: int|
                    0 <= j < local.len() ==> #[trigger] self.entry_right(j)),
                forall|j: int| 0 <= j < i ==> #[trigger] self.entry_right(j),
            decreases number - i,
        {
            if !self.has_valid_entry(i) {
                assert(!self.entry_right(i as int));
                return false;
            }
            i += 1;
        }
        proof {
            assert forall|j: int| 0 <= j < local.len() implies #[trigger] self.parents_readable(
                j,
            ) by {
                assert(self.entry_right(j));
            }
            assert forall|j: int| 0 <= j < local.len() implies fits(
                self.entries(),
                below.len() + j,
            ) && !has_commit(below, (#[trigger] local[j]).commit_id) by {
                assert(self.entry_right(j));
            }
            self.lemma_is_valid();
        }
        true
    }

    /// Whether a commit's parents can be read, it comes after them, has the right
    /// generation number, and is not in the parent file or its ancestors.
    spec fn entry_right(&self, i: int) -> bool {
        let below = commits_of(self.parent());
        &&& self.parents_readable(i)
        &&& fits(self.entries(), below.len() + i)
        &&& !has_commit(below, self.local()[i].commit_id)
    }

    /// Tells whether a commit is right.
    fn has_valid_entry(&self, local_pos: u32) -> (result: bool)
        requires
            self.readable(),
            self.parent() matches Some(parent) ==> parent.valid(),
            local_pos < self.local().len(),
            self.base() + self.local().len() <= u32::MAX,
            self.base() == commits_of(self.parent()).len(),
            self.entries() == commits_of(self.parent()) + self.local(),
        ensures
            result == self.entry_right(local_pos as int),
    {
        let ghost g = self.entries();
        let ghost below = commits_of(self.parent());
        let base: u32 = self.segment_num_parent_commits();
        let ghost at = base + local_pos;
        assert(g[at] == self.local()[local_pos as int]);
        if !self.has_readable_parents(local_pos) {
            return false;
        }
        let positions = self.segment_parent_positions(local_pos);
        let ghost parents = g[at].parents;
        let mut generation: u64 = 0;
        let mut k: usize = 0;
        assert(parents.take(0) =~= Seq::<u32>::empty());
        while k < positions.len()
            invariant
                k <= positions@.len(),
                positions@ == parents,
                parents == g[at].parents,
                at == base + local_pos,
                base == self.base(),
                g == self.entries(),
                below == commits_of(self.parent()),
                g == below + self.local(),
                self.base() == below.len(),
                local_pos < self.local().len(),
                self.base() + self.local().len() <= u32::MAX,
                self.readable(),
                self.parent() matches Some(parent) ==> parent.valid(),
                forall|j: int| 0 <= j < k ==> #[trigger] parents[j] < at,
                generation == generation_above(g, parents.take(k as int)),
                generation <= u32::MAX + 1,
            decreases positions@.len() - k,
        {
            let parent_pos: u32 = positions.get(k).0;
            if parent_pos >= base + local_pos {
                assert(!(g[at].parents[k as int] < at));
                return false;
            }
            proof {
                let next = parents.take(k + 1);
                assert(next.drop_last() =~= parents.take(k as int));
                assert(next.last() == parent_pos);
            }
            let above: u64 = self.generation_at(parent_pos) as u64 + 1;
            if generation < above {
                generation = above;
            }
            k += 1;
        }
        assert(parents.take(k as int) =~= parents);
        if self.segment_generation_number(local_pos) as u64 != generation {
            return false;
        }
        match self.segment_parent_file() {
            Some(parent) => !parent.as_composite().has_id(&self.segment_commit_id(local_pos)),
            None => true,
        }
    }

    /// The generation number of a commit of the file or its ancestors.
    fn generation_at(&self, pos: u32) -> (generation: u32)
        requires
            self.readable(),
            self.parent() matches Some(parent) ==> parent.valid(),
            pos < self.entries().len(),
            self.base() == commits_of(self.parent()).len(),
            self.entries() == commits_of(self.parent()) + self.local(),
        ensures
            generation == self.entries()[pos as int].generation,
    {
        let base: u32 = self.segment_num_parent_commits();
        if pos >= base {
            return self.segment_generation_number(pos - base);
        }
        let parent = self.segment_parent_file().unwrap();
        parent.as_composite().entry_by_pos(IndexPosition(pos)).generation_number()
    }

    /// Whether the lookup table is right.
    fn has_valid_lookup(&self) -> (result: bool)
        requires
            self.readable(),
            self.base() + self.local().len() <= u32::MAX,
        ensures
            result == is_lookup_table(self.table(), self.local(), self.base()),
    {
        let ghost table = self.table();
        let ghost local = self.local();
        proof {
            self.lemma_readable();
        }
        let base: u32 = self.segment_num_parent_commits();
        let number: u32 = self.segment_num_commits();
        let mut seen: Vec<bool> = Vec::new();
        let mut i: u32 = 0;
        while i < number
            invariant
                i <= number,
                seen@.len() == i,
                forall|j: int| 0 <= j < i ==> !#[trigger] seen@[j],
            decreases number - i,
        {
            seen.push(false);
            i += 1;
        }
        let mut l: u32 = 0;
        while l < number
            invariant
                l <= number,
                number == local.len(),
                number == table.len(),
                table == self.table(),
                local == self.local(),
                base == self.base(),
                base + number <= u32::MAX,
                self.readable(),
                seen@.len() == number,
                forall|i: int, j: int|
                    #![trigger table[i], table[j]]
                    0 <= i < j < l ==> lex_lt(table[i].0, table[j].0),
                forall|m: int|
                    0 <= m < l ==> {
                        &&& base <= (#[trigger] table[m]).1 < base + number
                        &&& local[table[m].1 - base].commit_id == table[m].0
                    },
                forall|j: int|
                    0 <= j < number ==> (#[trigger] seen@[j] <==> exists|m: int|
                        0 <= m < l && (#[trigger] table[m]).1 == base + j),
            decreases number - l,
        {
            let (id, pos) = self.lookup_item(l);
            let ghost item = table[l as int];
            if l > 0 {
                let (previous, _) = self.lookup_item(l - 1);
                if !bytes_lt(previous.as_bytes(), id.as_bytes()) {
                    assert(!lex_lt(table[l - 1].0, table[l as int].0));
                    return false;
                }
            }
            if pos < base || pos - base >= number {
                assert(!(base <= table[l as int].1 < base + number));
                return false;
            }
            let local_id = self.segment_commit_id(pos - base);
            if local_id != id {
                assert(local[table[l as int].1 - base].commit_id != table[l as int].0);
                return false;
            }
            let ghost before = seen@;
            seen[(pos - base) as usize] = true;
            proof {
                assert forall|i: int, j: int|
                    #![trigger table[i], table[j]]
                    0 <= i < j < l + 1 implies lex_lt(table[i].0, table[j].0) by {
                    if j == l && i < l - 1 {
                        assert(lex_lt(table[i].0, table[l - 1].0));
                        lex_lt_transitive(table[i].0, table[l - 1].0, table[l as int].0);
                    }
                }
                assert forall|j: int| 0 <= j < number implies (#[trigger] seen@[j] <==> exists|
                    m: int,
                |
                    0 <= m < l + 1 && (#[trigger] table[m]).1 == base + j) by {
                    if j == pos - base {
                        assert(table[l as int].1 == base + j);
                    } else {
                        assert(seen@[j] == before[j]);
                        if before[j] {
                            let m = choose|m: int|
                                0 <= m < l && (#[trigger] table[m]).1 == base + j;
                            assert(table[m].1 == base + j);
                        }
                    }
                }
            }
            l += 1;
        }
        let mut k: u32 = 0;
        while k < number
            invariant
                k <= number,
                number == local.len(),
                number == table.len(),
                base == self.base(),
                table == self.table(),
                local == self.local(),
                seen@.len() == number,
                forall|m: int|
                    0 <= m < number ==> {
                        &&& base <= (#[trigger] table[m]).1 < base + number
                        &&& local[table[m].1 - base].commit_id == table[m].0
                    },
                forall|j: int|
                    0 <= j < number ==> (#[trigger] seen@[j] <==> exists|m: int|
                        0 <= m < number && (#[trigger] table[m]).1 == base + j),
                forall|j: int|
                    0 <= j < k ==> table_has(table, (#[trigger] local[j]).commit_id, base + j),
            decreases number - k,
        {
            if !seen[k as usize] {
                proof {
                    if is_lookup_table(table, local, self.base()) {
                        let m = lemma_table_place(table, local, self.base(), k as int);
                        assert(table[m].1 == base + k);
                    }
                }
                return false;
            }
            proof {
                let m = choose|m: int| 0 <= m < number && (#[trigger] table[m]).1 == base + k;
                assert(table[m].0 == local[k as int].commit_id);
            }
            k += 1;
        }
        true
    }

    /// The number of commits below the file, and how many parents a commit can
    /// have.
    proof fn lemma_parent_counts(&self)
        requires
            self.readable(),
        ensures
            self.base() == commits_of(self.parent()).len(),
            forall|i: int|
                0 <= i < self.local().len() ==> (#[trigger] self.local()[i]).parents.len()
                    <= u32::MAX,
    {
        self.lemma_readable();
        self.lemma_parents_countable();
    }
}

} // verus!
