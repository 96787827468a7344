//! Statistics of an index.

use crate::byte_order::{
    bytes_eq, bytes_lt, lex_lt, lex_lt_irreflexive, lex_lt_total, lex_lt_transitive,
};
use crate::composite::{segment_levels, CompositeIndex};
use crate::entry::SegmentRef;
use crate::ids::ChangeId;
use crate::model::{valid_graph, Entry};
use crate::positions::IndexPosition;
use crate::readonly::file_levels;
use crate::segment::IndexSegment;
use vstd::prelude::*;

verus! {

/// Numbers that describe an index.
#[derive(Debug)]
pub struct IndexStats {
    pub num_commits: u32,
    pub num_heads: u32,
    pub max_generation_number: u32,
    pub num_merges: u32,
    /// The segments, from the bottom.
    pub levels: Vec<IndexLevelStats>,
    pub num_changes: u32,
}

/// Numbers that describe a segment.
#[derive(Debug)]
pub struct IndexLevelStats {
    pub num_commits: u32,
    /// The name of the segment's file.
    pub name: Option<String>,
}

/// Whether a commit is a parent of one of the given commits.
pub open spec fn is_parent(g: Seq<Entry>, p: int) -> bool {
    exists|i: int, k: int|
        #![trigger g[i].parents[k]]
        0 <= i < g.len() && 0 <= k < g[i].parents.len() && g[i].parents[k] == p
}

/// The number of the first `n` commits that are not parents.
pub open spec fn count_heads(g: Seq<Entry>, n: int) -> int
    decreases n,
{
    if n <= 0 {
        0
    } else {
        count_heads(g, n - 1) + if is_parent(g, n - 1) {
            0int
        } else {
            1int
        }
    }
}

/// The number of commits with more than one parent.
pub open spec fn count_merges(g: Seq<Entry>) -> int
    decreases g.len(),
{
    if g.len() == 0 {
        0
    } else {
        count_merges(g.drop_last()) + if g.last().parents.len() > 1 {
            1int
        } else {
            0int
        }
    }
}

/// The greatest generation number, or 0 without commits.
pub open spec fn max_generation(g: Seq<Entry>) -> int
    decreases g.len(),
{
    if g.len() == 0 {
        0
    } else {
        let rest = max_generation(g.drop_last());
        if rest < g.last().generation {
            g.last().generation as int
        } else {
            rest
        }
    }
}

/// The change ids of the commits.
pub open spec fn change_ids(g: Seq<Entry>) -> Set<Seq<u8>> {
    g.map_values(|e: Entry| e.change_id).to_set()
}

/// What level statistics say.
pub open spec fn level_views(levels: Seq<IndexLevelStats>) -> Seq<(int, Option<Seq<char>>)> {
    levels.map_values(
        |level: IndexLevelStats|
            (
                level.num_commits as int,
                match level.name {
                    Some(name) => Some(name@),
                    None => None,
                },
            ),
    )
}

/// Change ids, in order and each once.
spec fn sorted_ids(ids: Seq<ChangeId>) -> bool {
    forall|i: int, j: int| #![trigger ids[i], ids[j]] 0 <= i < j < ids.len() ==> lex_lt(
        ids[i]@,
        ids[j]@,
    )
}

/// The change ids, as byte strings.
spec fn change_bytes(ids: Seq<ChangeId>) -> Seq<Seq<u8>> {
    ids.map_values(|id: ChangeId| id@)
}

/// Puts a change id into a sorted list, unless it is there already.
fn insert_change_id(ids: &mut Vec<ChangeId>, id: ChangeId)
    requires
        sorted_ids(old(ids)@),
    ensures
        sorted_ids(final(ids)@),
        change_bytes(final(ids)@).to_set() == change_bytes(old(ids)@).to_set().insert(id@),
        final(ids)@.len() <= old(ids)@.len() + 1,
{
    let ghost before = ids@;
    let mut low: usize = 0;
    let mut high: usize = ids.len();
    while low < high
        invariant
            low <= high <= ids@.len(),
            ids@ == before,
            sorted_ids(before),
            forall|i: int| 0 <= i < low ==> lex_lt((#[trigger] before[i])@, id@),
            forall|i: int| high <= i < before.len() ==> !lex_lt((#[trigger] before[i])@, id@),
        decreases high - low,
    {
        let mid: usize = low + (high - low) / 2;
        if bytes_lt(ids[mid].as_bytes(), id.as_bytes()) {
            proof {
                assert forall|i: int| 0 <= i < mid + 1 implies lex_lt(
                    (#[trigger] before[i])@,
                    id@,
                ) by {
                    if i < mid {
                        lex_lt_transitive(before[i]@, before[mid as int]@, id@);
                    }
                }
            }
            low = mid + 1;
        } else {
            proof {
                assert forall|i: int| mid <= i < before.len() implies !lex_lt(
                    (#[trigger] before[i])@,
                    id@,
                ) by {
                    if mid < i && lex_lt(before[i]@, id@) {
                        lex_lt_transitive(before[mid as int]@, before[i]@, id@);
                    }
                }
            }
            high = mid;
        }
    }
    if low < ids.len() && bytes_eq(ids[low].as_bytes(), id.as_bytes()) {
        proof {
            assert(change_bytes(before)[low as int] == id@);
            assert(change_bytes(before).contains(id@));
            assert(change_bytes(before).to_set() =~= change_bytes(before).to_set().insert(id@));
        }
        return;
    }
    let ghost l = low as int;
    ids.insert(low, id);
    proof {
        let after = ids@;
        assert forall|i: int, j: int|
            #![trigger after[i], after[j]]
            0 <= i < j < after.len() implies lex_lt(after[i]@, after[j]@) by {
            if j == l {
                assert(after[i] == before[i]);
            } else if i == l {
                assert(after[j] == before[j - 1]);
                lex_lt_total(id@, before[j - 1]@);
                if before[j - 1]@ == id@ {
                    if j - 1 > l {
                        assert(lex_lt(before[l]@, before[j - 1]@));
                    }
                }
            } else {
                let a = if i < l {
                    i
                } else {
                    i - 1
                };
                let b = if j < l {
                    j
                } else {
                    j - 1
                };
                assert(after[i] == before[a] && after[j] == before[b]);
            }
        }
        let (s, t) = (change_bytes(before), change_bytes(after));
        assert(t =~= s.insert(l, id@));
        assert forall|x: Seq<u8>| t.to_set().contains(x) <==> s.to_set().insert(id@).contains(
            x,
        ) by {
            if t.contains(x) {
                let i = choose|i: int| 0 <= i < t.len() && t[i] == x;
                if i < l {
                    assert(s[i] == x);
                } else if i > l {
                    assert(s[i - 1] == x);
                }
            }
            if s.contains(x) {
                let i = choose|i: int| 0 <= i < s.len() && s[i] == x;
                if i < l {
                    assert(t[i] == x);
                } else {
                    assert(t[i + 1] == x);
                }
            }
            assert(t[l] == id@);
        }
        assert(t.to_set() =~= s.to_set().insert(id@));
    }
}

/// A sorted list of change ids has as many ids as their set.
proof fn lemma_distinct(ids: Seq<ChangeId>)
    requires
        sorted_ids(ids),
    ensures
        change_bytes(ids).to_set().len() == ids.len(),
{
    let s = change_bytes(ids);
    assert forall|i: int, j: int| 0 <= i < s.len() && 0 <= j < s.len() && i != j implies s[i]
        != s[j] by {
        lex_lt_irreflexive(s[i]);
        if i < j {
            assert(lex_lt(ids[i]@, ids[j]@));
        } else {
            assert(lex_lt(ids[j]@, ids[i]@));
        }
    }
    s.unique_seq_to_set();
}

/// There are no more heads than commits.
proof fn lemma_count_heads(g: Seq<Entry>, n: int)
    ensures
        0 <= count_heads(g, n),
        n >= 0 ==> count_heads(g, n) <= n,
    decreases n,
{
    if n > 0 {
        lemma_count_heads(g, n - 1);
    }
}

/// One more commit has its parents, and the others theirs.
proof fn lemma_parent_added(g: Seq<Entry>, e: Entry, p: int)
    requires
        0 <= p <= u32::MAX,
    ensures
        is_parent(g.push(e), p) <==> is_parent(g, p) || e.parents.contains(p as u32),
{
    let h = g.push(e);
    if is_parent(g, p) {
        let (i, k) = choose|i: int, k: int|
            #![trigger g[i].parents[k]]
            0 <= i < g.len() && 0 <= k < g[i].parents.len() && g[i].parents[k] == p;
        assert(h[i].parents[k] == p);
    }
    if e.parents.contains(p as u32) {
        let k = choose|k: int| 0 <= k < e.parents.len() && e.parents[k] == p as u32;
        assert(h[g.len() as int].parents[k] == p);
    }
    if is_parent(h, p) {
        let (i, k) = choose|i: int, k: int|
            #![trigger h[i].parents[k]]
            0 <= i < h.len() && 0 <= k < h[i].parents.len() && h[i].parents[k] == p;
        if i < g.len() {
            assert(g[i].parents[k] == p);
        } else {
            assert(e.parents[k] == p as u32);
        }
    }
}

/// A commit is not a parent of those before it.
proof fn lemma_not_parent(g: Seq<Entry>, p: int)
    requires
        valid_graph(g),
        0 <= p < g.len(),
    ensures
        !is_parent(g.take(p), p),
{
    let h = g.take(p);
    if is_parent(h, p) {
        let (i, k) = choose|i: int, k: int|
            #![trigger h[i].parents[k]]
            0 <= i < h.len() && 0 <= k < h[i].parents.len() && h[i].parents[k] == p;
        assert(g[i].parents[k] < i);
    }
}

/// One more commit has its change id, and the others theirs.
proof fn lemma_change_added(g: Seq<Entry>, e: Entry)
    ensures
        change_ids(g.push(e)) == change_ids(g).insert(e.change_id),
{
    let s = g.map_values(|e: Entry| e.change_id);
    let t = g.push(e).map_values(|e: Entry| e.change_id);
    assert(t =~= s.push(e.change_id));
    assert forall|x: Seq<u8>| t.to_set().contains(x) <==> s.to_set().insert(e.change_id).contains(
        x,
    ) by {
        if s.contains(x) {
            let i = choose|i: int| 0 <= i < s.len() && s[i] == x;
            assert(t[i] == x);
        }
        assert(t[s.len() as int] == e.change_id);
        if t.contains(x) {
            let i = choose|i: int| 0 <= i < t.len() && t[i] == x;
            if i < s.len() {
                assert(s[i] == x);
            }
        }
    }
    assert(t.to_set() =~= s.to_set().insert(e.change_id));
}

/// Counts the marks of heads.
fn count_marks(is_head: &Vec<bool>, Ghost(g): Ghost<Seq<Entry>>) -> (number: u32)
    requires
        is_head@.len() == g.len(),
        g.len() <= u32::MAX,
        forall|p: int| 0 <= p < g.len() ==> #[trigger] is_head@[p] == !is_parent(g, p),
    ensures
        number == count_heads(g, g.len() as int),
{
    let mut number: u32 = 0;
    let mut i: usize = 0;
    while i < is_head.len()
        invariant
            i <= is_head@.len(),
            is_head@.len() == g.len(),
            g.len() <= u32::MAX,
            forall|p: int| 0 <= p < g.len() ==> #[trigger] is_head@[p] == !is_parent(g, p),
            number == count_heads(g, i as int),
        decreases is_head@.len() - i,
    {
        proof {
            lemma_count_heads(g, i as int);
        }
        if is_head[i] {
            number += 1;
        }
        i += 1;
    }
    number
}

impl<'a> CompositeIndex<'a> {
    /// Describes the index.
    pub fn stats(&self) -> (stats: IndexStats)
        requires
            self.valid(),
        ensures
            stats.num_commits == self.entries().len(),
            stats.num_heads == count_heads(self.entries(), self.entries().len() as int),
            stats.max_generation_number == max_generation(self.entries()),
            stats.num_merges == count_merges(self.entries()),
            stats.num_changes == change_ids(self.entries()).len(),
            level_views(stats.levels@) == self.segment_levels(),
    {
        let ghost g = self.entries();
        proof {
            self.lemma_valid();
        }
        let num_commits: u32 = self.num_commits();
        let mut num_merges: u32 = 0;
        let mut max_generation_number: u32 = 0;
        let mut is_head: Vec<bool> = Vec::new();
        let mut ids: Vec<ChangeId> = Vec::new();
        let mut pos: u32 = 0;
        proof {
            assert(g.take(0) =~= Seq::<Entry>::empty());
            assert(change_bytes(ids@).to_set() =~= change_ids(g.take(0)));
        }
        while pos < num_commits
            invariant
                pos <= num_commits,
                self.valid(),
                g == self.entries(),
                valid_graph(g),
                num_commits == g.len(),
                num_merges == count_merges(g.take(pos as int)),
                num_merges <= pos,
                max_generation_number == max_generation(g.take(pos as int)),
                sorted_ids(ids@),
                change_bytes(ids@).to_set() == change_ids(g.take(pos as int)),
                ids@.len() <= pos,
                is_head@.len() == pos,
                forall|p: int|
                    0 <= p < pos ==> #[trigger] is_head@[p] == !is_parent(g.take(pos as int), p),
            decreases num_commits - pos,
        {
            let entry = self.entry_by_pos(IndexPosition(pos));
            let ghost now = g.take(pos as int);
            let ghost next = g.take(pos + 1);
            let ghost e = g[pos as int];
            proof {
                entry.lemma_parent_ids(g);
                assert(next.drop_last() =~= now);
                assert(next =~= now.push(e));
            }
            let generation: u32 = entry.generation_number();
            if max_generation_number < generation {
                max_generation_number = generation;
            }
            if entry.num_parents() > 1 {
                num_merges += 1;
            }
            is_head.push(true);
            self.unmark_parents(pos, &mut is_head);
            insert_change_id(&mut ids, entry.change_id());
            proof {
                lemma_change_added(now, e);
                assert forall|p: int| 0 <= p < pos + 1 implies #[trigger] is_head@[p]
                    == !is_parent(next, p) by {
                    lemma_parent_added(now, e, p);
                    if p == pos {
                        lemma_not_parent(g, pos as int);
                    }
                }
            }
            pos += 1;
        }
        proof {
            assert(g.take(pos as int) =~= g);
            lemma_distinct(ids@);
        }
        let num_heads: u32 = count_marks(&is_head, Ghost(g));
        let levels = self.level_stats();
        IndexStats {
            num_commits,
            num_heads,
            max_generation_number,
            num_merges,
            levels,
            num_changes: ids.len() as u32,
        }
    }

    /// Takes the marks off the parents of a commit.
    fn unmark_parents(&self, pos: u32, is_head: &mut Vec<bool>)
        requires
            self.valid(),
            pos < self.entries().len(),
            old(is_head)@.len() == pos + 1,
        ensures
            final(is_head)@.len() == old(is_head)@.len(),
            forall|p: int|
                0 <= p <= pos ==> #[trigger] final(is_head)@[p] == (old(is_head)@[p]
                    && !self.entries()[pos as int].parents.contains(p as u32)),
    {
        let ghost g = self.entries();
        let ghost parents = g[pos as int].parents;
        proof {
            self.lemma_valid();
        }
        let positions = self.entry_by_pos(IndexPosition(pos)).parent_positions();
        let mut k: usize = 0;
        while k < positions.len()
            invariant
                k <= positions@.len(),
                positions@ == parents,
                parents == g[pos as int].parents,
                valid_graph(g),
                pos < g.len(),
                is_head@.len() == pos + 1,
                is_head@.len() == old(is_head)@.len(),
                forall|p: int|
                    0 <= p <= pos ==> #[trigger] is_head@[p] == (old(is_head)@[p]
                        && !parents.take(k as int).contains(p as u32)),
            decreases positions@.len() - k,
        {
            let parent: u32 = positions.get(k).0;
            proof {
                assert(g[pos as int].parents[k as int] < pos);
                let (now, next) = (parents.take(k as int), parents.take(k + 1));
                assert(next =~= now.push(parent));
                assert forall|p: u32| #[trigger] next.contains(p) <==> now.contains(p) || p
                    == parent by {
                    if now.contains(p) {
                        let i = choose|i: int| 0 <= i < now.len() && now[i] == p;
                        assert(next[i] == p);
                    }
                    assert(next[k as int] == parent);
                    if next.contains(p) {
                        let i = choose|i: int| 0 <= i < next.len() && next[i] == p;
                        if i < k {
                            assert(now[i] == p);
                        }
                    }
                }
            }
            is_head[parent as usize] = false;
            k += 1;
        }
        assert(parents.take(k as int) =~= parents);
    }

    /// Describes the segments, from the bottom.
    fn level_stats(&self) -> (levels: Vec<IndexLevelStats>)
        requires
            self.valid(),
        ensures
            level_views(levels@) == self.segment_levels(),
    {
        let mut segment = self.top_segment();
        let mut down: Vec<IndexLevelStats> = Vec::new();
        let ghost all = self.segment_levels();
        assert(level_views(down@).reverse() =~= Seq::<(int, Option<Seq<char>>)>::empty());
        assert(segment_levels(segment) + level_views(down@).reverse() =~= all);
        loop
            invariant_except_break
                segment.valid(),
                segment_levels(segment) + level_views(down@).reverse() == all,
            ensures
                level_views(down@).reverse() == all,
            decreases segment.levels(),
        {
            proof {
                segment.lemma_valid();
            }
            let level = IndexLevelStats {
                num_commits: segment.segment_num_commits(),
                name: segment.segment_name(),
            };
            let ghost before = down@;
            let ghost below = file_levels(segment.parent());
            down.push(level);
            proof {
                let view = (segment.local().len() as int, segment.file_name());
                assert(level_views(down@) =~= level_views(before).push(view));
                assert(level_views(down@).reverse() =~= seq![view] + level_views(
                    before,
                ).reverse());
                assert(segment_levels(segment) =~= below + seq![view]);
                assert(below + level_views(down@).reverse() =~= all);
            }
            match segment.parent_file() {
                Some(file) => {
                    proof {
                        file.lemma_entries();
                    }
                    segment = SegmentRef::Readonly(&**file);
                },
                None => {
                    assert(level_views(down@).reverse() =~= all);
                    break;
                },
            }
        }
        let mut levels: Vec<IndexLevelStats> = Vec::new();
        assert(level_views(levels@) =~= all.take(0));
        loop
            invariant
                level_views(levels@) + level_views(down@).reverse() == all,
            ensures
                level_views(levels@) == all,
            decreases down@.len(),
        {
            let ghost before = down@;
            let ghost taken = levels@;
            match down.pop() {
                Some(level) => {
                    levels.push(level);
                    proof {
                        assert(before =~= down@.push(level));
                        let v = level_views(before).last();
                        assert(level_views(before) =~= level_views(down@).push(v));
                        assert(level_views(levels@) =~= level_views(taken).push(v));
                        assert(level_views(levels@) + level_views(down@).reverse()
                            =~= level_views(taken) + level_views(before).reverse());
                    }
                },
                None => {
                    assert(level_views(levels@) =~= all);
                    break;
                },
            }
        }
        levels
    }
}

} // verus!
