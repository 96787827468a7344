//! Questions about ancestors.

use crate::composite::CompositeIndex;
use crate::entry::IndexEntry;
use crate::heap::{HeapItem, MaxHeap};
use crate::model::{
    lemma_generation_above, lemma_generation_path, lemma_links_descend, parent_links, valid_graph,
    Entry,
};
use crate::paths::{
    any_reaches, descending, lemma_reaches_descends, lemma_reaches_link, lemma_reaches_self,
    lemma_reaches_transitive, lemma_reaches_via, path, reaches,
};
use crate::positions::IndexPosition;
use crate::rev_walk::{position_set, positions_inside};
use crate::sort::sorted_distinct;
use std::collections::HashSet;
use vstd::multiset::Multiset;
use vstd::prelude::*;

verus! {

/// A position, ordered by the generation number of its commit.
#[derive(Clone, Copy, Debug)]
pub struct IndexPositionByGeneration {
    // Order by generation number
    pub generation: u32,
    // Tie breaker
    pub pos: u32,
}

impl HeapItem for IndexPositionByGeneration {
    open spec fn rank(&self) -> int {
        self.generation * 0x1_0000_0000 + self.pos
    }

    fn ranks_below(&self, other: &Self) -> (result: bool) {
        self.generation < other.generation || self.generation == other.generation && self.pos
            < other.pos
    }
}

impl IndexPositionByGeneration {
    /// The position of a commit, with its generation number.
    pub fn from_entry(entry: &IndexEntry<'_>) -> (item: Self)
        requires
            entry.wf(),
        ensures
            item.generation == entry.model().generation,
            item.pos == entry.place(),
    {
        IndexPositionByGeneration {
            generation: entry.generation_number(),
            pos: entry.position().0,
        }
    }
}

/// The item for a position.
pub open spec fn item_at(g: Seq<Entry>, p: u32) -> IndexPositionByGeneration {
    IndexPositionByGeneration { generation: g[p as int].generation, pos: p }
}

/// Whether all items of a heap stand for commits, with their generation numbers.
spec fn items_right(g: Seq<Entry>, items: Multiset<IndexPositionByGeneration>) -> bool {
    forall|item: IndexPositionByGeneration| #[trigger]
        items.contains(item) ==> item.pos < g.len() && item == item_at(g, item.pos)
}

/// Whether a commit is in a heap or an ancestor of one that is.
spec fn covers(g: Seq<Entry>, items: Multiset<IndexPositionByGeneration>, p: u32) -> bool {
    exists|q: u32| items.contains(#[trigger] item_at(g, q)) && q < g.len() && reaches(
        parent_links(g),
        q,
        p,
    )
}

/// Takes an item of the greatest rank out, and all items that are equal to it.
fn dedup_pop(heap: &mut MaxHeap<IndexPositionByGeneration>, Ghost(g): Ghost<Seq<Entry>>) -> (item:
    Option<IndexPositionByGeneration>)
    requires
        old(heap).wf(),
        items_right(g, old(heap)@),
    ensures
        final(heap).wf(),
        items_right(g, final(heap)@),
        match item {
            Some(item) => {
                &&& old(heap)@.contains(item)
                &&& forall|other: IndexPositionByGeneration| #[trigger]
                    old(heap)@.contains(other) ==> other.rank() <= item.rank()
                &&& forall|other: IndexPositionByGeneration| #[trigger]
                    final(heap)@.contains(other) <==> old(heap)@.contains(other) && other != item
                &&& forall|other: IndexPositionByGeneration| #[trigger]
                    final(heap)@.contains(other) ==> other.rank() < item.rank()
            },
            None => {
                &&& final(heap)@ == old(heap)@
                &&& forall|other: IndexPositionByGeneration| !#[trigger] old(heap)@.contains(other)
            },
        },
{
    let ghost before = heap@;
    let item = match heap.pop() {
        Some(item) => item,
        None => {
            proof {
                lemma_empty(before);
            }
            return None;
        },
    };
    proof {
        lemma_taken(before, item);
    }
    loop
        invariant
            heap.wf(),
            before.contains(item),
            before == old(heap)@,
            items_right(g, before),
            forall|other: IndexPositionByGeneration| #[trigger]
                before.contains(other) ==> other.rank() <= item.rank(),
            forall|other: IndexPositionByGeneration| #[trigger]
                heap@.contains(other) ==> before.contains(other),
            forall|other: IndexPositionByGeneration| #[trigger]
                before.contains(other) && other != item ==> heap@.contains(other),
        decreases heap@.len(),
    {
        let ghost now = heap@;
        match heap.peek() {
            Some(first) => {
                if first.pos != item.pos {
                    proof {
                        assert forall|other: IndexPositionByGeneration| #[trigger]
                            now.contains(other) implies other.rank() < item.rank() by {
                            assert(before.contains(other) && before.contains(first));
                            if other == item {
                                assert(first.rank() <= item.rank());
                            }
                        }
                        assert forall|other: IndexPositionByGeneration| #[trigger]
                            now.contains(other) <==> before.contains(other) && other != item by {}
                    }
                    return Some(item);
                }
                let popped = heap.pop();
                proof {
                    let taken = popped.unwrap();
                    assert(before.contains(first) && before.contains(taken));
                    lemma_taken(now, taken);
                    assert(first == item);
                }
            },
            None => {
                proof {
                    lemma_empty(now);
                }
                return Some(item);
            },
        }
    }
}

/// What is left when an item is taken out.
proof fn lemma_taken(
    items: Multiset<IndexPositionByGeneration>,
    item: IndexPositionByGeneration,
)
    requires
        items.contains(item),
    ensures
        items.remove(item).len() < items.len(),
        forall|other: IndexPositionByGeneration| #[trigger]
            items.remove(item).contains(other) ==> items.contains(other),
        forall|other: IndexPositionByGeneration|
            #![trigger items.contains(other)]
            #![trigger items.remove(item).contains(other)]
            items.contains(other) && other != item ==> items.remove(item).contains(other),
{
    broadcast use vstd::multiset::group_multiset_axioms;

    assert(items.remove(item).insert(item) =~= items);
}

/// What is there when an item is put in.
proof fn lemma_put(items: Multiset<IndexPositionByGeneration>, item: IndexPositionByGeneration)
    ensures
        forall|other: IndexPositionByGeneration| #[trigger]
            items.insert(item).contains(other) <==> items.contains(other) || other == item,
{
    broadcast use vstd::multiset::group_multiset_axioms;

}

/// Nothing is in an empty heap.
proof fn lemma_empty(items: Multiset<IndexPositionByGeneration>)
    requires
        items.len() == 0,
    ensures
        forall|item: IndexPositionByGeneration| !#[trigger] items.contains(item),
{
    broadcast use vstd::multiset::group_multiset_axioms;

    assert forall|item: IndexPositionByGeneration| !#[trigger] items.contains(item) by {
        if items.contains(item) {
            assert(items.remove(item).insert(item) =~= items);
        }
    }
}

/// A proper ancestor has a smaller rank.
proof fn lemma_rank_descends(g: Seq<Entry>, p: u32, q: u32)
    requires
        valid_graph(g),
        p < g.len(),
        reaches(parent_links(g), p, q),
    ensures
        q < g.len(),
        q <= p,
        g[q as int].generation <= g[p as int].generation,
        q != p ==> item_at(g, q).rank() < item_at(g, p).rank(),
{
    let links = parent_links(g);
    lemma_links_descend(g);
    lemma_reaches_descends(links, p, q);
    let n = choose|n: nat| path(links, p, q, n);
    lemma_generation_path(g, p, q, n);
    if q != p {
        assert(n > 0);
    }
}

/// The number of distinct keys below a bound is not above the bound.
proof fn lemma_count_below(s: Set<u32>, n: nat)
    requires
        s.finite(),
        forall|p: u32| #[trigger] s.contains(p) ==> p < n,
    ensures
        s.len() <= n,
    decreases n,
{
    if n == 0 {
        assert(s =~= Set::<u32>::empty());
    } else if n - 1 <= u32::MAX {
        let last = (n - 1) as u32;
        let rest = s.remove(last);
        assert forall|p: u32| #[trigger] rest.contains(p) implies p < n - 1 by {
            assert(s.contains(p));
        }
        lemma_count_below(rest, (n - 1) as nat);
    } else {
        lemma_count_below(s, (n - 1) as nat);
    }
}

/// If one of the commits that a search has seen leads to a goal, one that is
/// still to be looked at does.
proof fn lemma_still_ahead(
    g: Seq<Entry>,
    work: Seq<u32>,
    visited: Set<u32>,
    goal: u32,
    from: u32,
)
    requires
        valid_graph(g),
        goal < g.len(),
        from < g.len(),
        work.contains(from) || visited.contains(from),
        reaches(parent_links(g), from, goal),
        forall|v: u32| #[trigger] visited.contains(v) ==> v < g.len() && v != goal,
        forall|v: u32, k: int|
            #![trigger visited.contains(v), g[v as int].parents[k]]
            visited.contains(v) && 0 <= k < g[v as int].parents.len() && g[v as int].generation
                > g[goal as int].generation ==> work.contains(g[v as int].parents[k])
                || visited.contains(g[v as int].parents[k]),
    ensures
        exists|w: u32| work.contains(w) && #[trigger] reaches(parent_links(g), w, goal),
    decreases from,
{
    let links = parent_links(g);
    if work.contains(from) {
        assert(work.contains(from) && reaches(links, from, goal));
    } else {
        lemma_links_descend(g);
        let k = lemma_reaches_link(links, from, goal);
        let p = links[from][k];
        assert(g[from as int].parents[k] == p && p < from);
        lemma_generation_above(g, g[from as int].parents);
        lemma_rank_descends(g, p, goal);
        lemma_still_ahead(g, work, visited, goal, p);
    }
}

/// Whether the commits at the given positions, in ascending order and each once,
/// are those of a set that are not ancestors of others of the set.
pub open spec fn are_heads(g: Seq<Entry>, set: Set<u32>, heads: Seq<IndexPosition>) -> bool {
    &&& forall|i: int, j: int|
        #![trigger heads[i], heads[j]]
        0 <= i < j < heads.len() ==> heads[i].0 < heads[j].0
    &&& forall|p: u32| #[trigger]
        heads.contains(IndexPosition(p)) <==> set.contains(p) && !is_below(g, set, p)
}

/// Whether a commit is an ancestor of another one of a set.
pub open spec fn is_below(g: Seq<Entry>, set: Set<u32>, p: u32) -> bool {
    exists|c: u32| set.contains(c) && c != p && #[trigger] reaches(parent_links(g), c, p)
}

/// The common ancestors of two sets of commits.
pub open spec fn common_ancestor_set(g: Seq<Entry>, a: Set<u32>, b: Set<u32>) -> Set<u32> {
    Set::new(
        |p: u32| any_reaches(parent_links(g), a, p) && any_reaches(parent_links(g), b, p),
    )
}

impl<'a> CompositeIndex<'a> {
    /// Whether a commit is an ancestor of another one, or the same.
    pub fn is_ancestor_pos(
        &self,
        ancestor_pos: IndexPosition,
        descendant_pos: IndexPosition,
    ) -> (result: bool)
        requires
            self.valid(),
            ancestor_pos.0 < self.entries().len(),
            descendant_pos.0 < self.entries().len(),
        ensures
            result == reaches(parent_links(self.entries()), descendant_pos.0, ancestor_pos.0),
    {
        broadcast use vstd::std_specs::hash::group_hash_axioms;

        let ghost g = self.entries();
        let ghost links = parent_links(g);
        let goal: u32 = ancestor_pos.0;
        let ghost start = descendant_pos.0;
        proof {
            self.lemma_valid();
            lemma_links_descend(g);
            lemma_reaches_self(links, start);
        }
        let ancestor_generation: u32 = self.entry_by_pos(ancestor_pos).generation_number();
        let mut work: Vec<u32> = Vec::new();
        work.push(descendant_pos.0);
        let mut visited: HashSet<u32> = HashSet::new();
        assert(work@[0] == start);
        while work.len() > 0
            invariant
                self.valid(),
                g == self.entries(),
                links == parent_links(g),
                valid_graph(g),
                descending(links),
                goal == ancestor_pos.0,
                start == descendant_pos.0,
                goal < g.len(),
                start < g.len(),
                ancestor_generation == g[goal as int].generation,
                work@.contains(start) || visited@.contains(start),
                forall|w: u32| #[trigger]
                    work@.contains(w) ==> w < g.len() && reaches(links, start, w),
                visited@.finite(),
                forall|v: u32| #[trigger]
                    visited@.contains(v) ==> v < g.len() && v != goal,
                forall|v: u32, k: int|
                    #![trigger visited@.contains(v), g[v as int].parents[k]]
                    visited@.contains(v) && 0 <= k < g[v as int].parents.len()
                        && g[v as int].generation > g[goal as int].generation ==> work@.contains(
                        g[v as int].parents[k],
                    ) || visited@.contains(g[v as int].parents[k]),
            decreases g.len() - visited@.len(), work@.len(),
        {
            let ghost work_before = work@;
            let ghost visited_before = visited@;
            let pos: u32 = work.pop().unwrap();
            proof {
                assert(work_before[work_before.len() - 1] == pos);
                assert(work_before.contains(pos));
                assert(work@ =~= work_before.drop_last());
                lemma_still_there(work_before, pos);
                lemma_count_below(visited_before, g.len());
            }
            if pos == goal {
                return true;
            }
            if visited.contains(&pos) {
                continue;
            }
            visited.insert(pos);
            proof {
                lemma_count_below(visited@, g.len());
            }
            let entry = self.entry_by_pos(IndexPosition(pos));
            if entry.generation_number() <= ancestor_generation {
                continue;
            }
            let positions = entry.parent_positions();
            let ghost parents = g[pos as int].parents;
            let ghost rest = work@;
            let mut k: usize = 0;
            while k < positions.len()
                invariant
                    k <= positions@.len(),
                    positions@ == parents,
                    forall|w: u32| #[trigger]
                        work@.contains(w) <==> rest.contains(w) || parents.take(
                            k as int,
                        ).contains(w),
                decreases positions@.len() - k,
            {
                let ghost before = work@;
                let parent: u32 = positions.get(k).0;
                work.push(parent);
                proof {
                    lemma_pushed(before, parent);
                    assert(parents.take(k + 1) =~= parents.take(k as int).push(parent));
                    lemma_pushed(parents.take(k as int), parent);
                }
                k += 1;
            }
            proof {
                assert(parents.take(k as int) =~= parents);
                assert forall|w: u32| #[trigger] work@.contains(w) implies w < g.len() && reaches(
                    links,
                    start,
                    w,
                ) by {
                    if !rest.contains(w) {
                        let i = choose|i: int| 0 <= i < parents.len() && parents[i] == w;
                        assert(links[pos][i] == w);
                        lemma_reaches_self(links, w);
                        lemma_reaches_via(links, pos, i, w);
                        lemma_reaches_transitive(links, start, pos, w);
                        lemma_reaches_descends(links, start, w);
                    } else {
                        assert(work_before.contains(w));
                    }
                }
                assert forall|v: u32, k: int|
                    #![trigger visited@.contains(v), g[v as int].parents[k]]
                    visited@.contains(v) && 0 <= k < g[v as int].parents.len()
                        && g[v as int].generation > g[goal as int].generation implies work@.contains(
                    g[v as int].parents[k],
                ) || visited@.contains(g[v as int].parents[k]) by {
                    let p = g[v as int].parents[k];
                    if v == pos {
                        assert(parents.contains(p));
                    } else {
                        assert(visited_before.contains(v));
                        assert(work_before.contains(p) || visited_before.contains(p));
                    }
                }
            }
        }
        proof {
            if reaches(links, start, goal) {
                lemma_still_ahead(g, work@, visited@, goal, start);
            }
        }
        false
    }
}

/// What a sequence holds when an item is put at its end.
proof fn lemma_pushed(s: Seq<u32>, x: u32)
    ensures
        forall|w: u32| #[trigger] s.push(x).contains(w) <==> s.contains(w) || w == x,
{
    assert forall|w: u32| #[trigger] s.push(x).contains(w) <==> s.contains(w) || w == x by {
        if s.contains(w) {
            let i = choose|i: int| 0 <= i < s.len() && s[i] == w;
            assert(s.push(x)[i] == w);
        }
        assert(s.push(x)[s.len() as int] == x);
        if s.push(x).contains(w) {
            let i = choose|i: int| 0 <= i < s.push(x).len() && s.push(x)[i] == w;
            if i < s.len() {
                assert(s[i] == w);
            }
        }
    }
}

/// What a sequence holds when the item at its end is taken out.
proof fn lemma_still_there(s: Seq<u32>, x: u32)
    requires
        s.len() > 0,
        s.last() == x,
    ensures
        forall|w: u32| #[trigger] s.contains(w) ==> s.drop_last().contains(w) || w == x,
        forall|w: u32| #[trigger] s.drop_last().contains(w) ==> s.contains(w),
{
    assert(s =~= s.drop_last().push(x));
    lemma_pushed(s.drop_last(), x);
}

/// Puts the parents of a commit into a heap.
fn push_parents<'a>(
    index: &CompositeIndex<'a>,
    pos: u32,
    heap: &mut MaxHeap<IndexPositionByGeneration>,
)
    requires
        index.valid(),
        pos < index.entries().len(),
        old(heap).wf(),
        items_right(index.entries(), old(heap)@),
    ensures
        final(heap).wf(),
        items_right(index.entries(), final(heap)@),
        forall|item: IndexPositionByGeneration| #[trigger]
            final(heap)@.contains(item) <==> old(heap)@.contains(item) || exists|k: int|
                0 <= k < index.entries()[pos as int].parents.len() && item == item_at(
                    index.entries(),
                    #[trigger] index.entries()[pos as int].parents[k],
                ),
{
    let ghost g = index.entries();
    let ghost before = heap@;
    let ghost parents = g[pos as int].parents;
    proof {
        index.lemma_valid();
    }
    let entry = index.entry_by_pos(IndexPosition(pos));
    let positions = entry.parent_positions();
    let mut k: usize = 0;
    while k < positions.len()
        invariant
            k <= positions@.len(),
            index.valid(),
            g == index.entries(),
            valid_graph(g),
            pos < g.len(),
            parents == g[pos as int].parents,
            positions@ == parents,
            heap.wf(),
            before == old(heap)@,
            items_right(g, heap@),
            forall|item: IndexPositionByGeneration| #[trigger]
                heap@.contains(item) <==> before.contains(item) || exists|i: int|
                    0 <= i < k && item == item_at(g, #[trigger] parents[i]),
        decreases positions@.len() - k,
    {
        let parent_pos = positions.get(k);
        assert(g[pos as int].parents[k as int] < pos);
        let parent = index.entry_by_pos(parent_pos);
        let item = IndexPositionByGeneration::from_entry(&parent);
        proof {
            lemma_put(heap@, item);
            assert(item == item_at(g, parents[k as int]));
        }
        heap.push(item);
        k += 1;
    }
}

/// Taking a commit out of a heap and putting its parents in: what the heap covers
/// stays the same, but for the commit itself.
proof fn lemma_expanded(
    g: Seq<Entry>,
    before: Multiset<IndexPositionByGeneration>,
    after: Multiset<IndexPositionByGeneration>,
    x: u32,
    p: u32,
)
    requires
        valid_graph(g),
        x < g.len(),
        items_right(g, before),
        before.contains(item_at(g, x)),
        forall|item: IndexPositionByGeneration| #[trigger]
            before.contains(item) ==> item.rank() <= item_at(g, x).rank(),
        forall|item: IndexPositionByGeneration| #[trigger]
            after.contains(item) <==> before.contains(item) && item != item_at(g, x) || exists|
                k: int,
            |
                0 <= k < g[x as int].parents.len() && item == item_at(
                    g,
                    #[trigger] g[x as int].parents[k],
                ),
    ensures
        covers(g, before, p) <==> covers(g, after, p) || p == x,
        !covers(g, after, x),
{
    let links = parent_links(g);
    lemma_links_descend(g);
    lemma_reaches_self(links, x);
    assert(before.contains(item_at(g, x)));
    if covers(g, before, p) && p != x {
        let q = choose|q: u32|
            before.contains(#[trigger] item_at(g, q)) && q < g.len() && reaches(links, q, p);
        if q == x {
            let k = lemma_reaches_link(links, x, p);
            let r = g[x as int].parents[k];
            assert(r < x);
            assert(after.contains(item_at(g, r)));
        } else {
            assert(after.contains(item_at(g, q)));
        }
    }
    if covers(g, after, p) {
        let q = choose|q: u32|
            after.contains(#[trigger] item_at(g, q)) && q < g.len() && reaches(links, q, p);
        if !(before.contains(item_at(g, q)) && item_at(g, q) != item_at(g, x)) {
            let k = choose|k: int|
                0 <= k < g[x as int].parents.len() && item_at(g, q) == item_at(
                    g,
                    #[trigger] g[x as int].parents[k],
                );
            assert(links[x][k] == q);
            lemma_reaches_via(links, x, k, p);
        }
    }
    if covers(g, after, x) {
        let q = choose|q: u32|
            after.contains(#[trigger] item_at(g, q)) && q < g.len() && reaches(links, q, x);
        lemma_rank_descends(g, q, x);
        if before.contains(item_at(g, q)) && item_at(g, q) != item_at(g, x) {
            assert(item_at(g, q).rank() <= item_at(g, x).rank());
        } else {
            let k = choose|k: int|
                0 <= k < g[x as int].parents.len() && item_at(g, q) == item_at(
                    g,
                    #[trigger] g[x as int].parents[k],
                );
            assert(g[x as int].parents[k] < x);
        }
    }
}

impl<'a> CompositeIndex<'a> {
    /// The positions of those of the given commits that are not ancestors of
    /// others of them, in ascending order.
    pub fn heads_pos(&self, candidate_positions: &[IndexPosition]) -> (heads: Vec<IndexPosition>)
        requires
            self.valid(),
            positions_inside(candidate_positions@, self.entries()),
        ensures
            are_heads(self.entries(), position_set(candidate_positions@), heads@),
    {
        broadcast use vstd::std_specs::hash::group_hash_axioms;

        let ghost g = self.entries();
        let ghost set = position_set(candidate_positions@);
        proof {
            self.lemma_valid();
            lemma_links_descend(g);
        }
        // Add all parents of the candidates to the work queue. The parents and
        // their ancestors are not heads. Also find the smallest generation
        // number among the candidates.
        let mut positions: Vec<u32> = Vec::new();
        let mut work: MaxHeap<IndexPositionByGeneration> = MaxHeap::new();
        let mut min_generation: u32 = u32::MAX;
        proof {
            lemma_empty(work@);
        }
        let mut i: usize = 0;
        while i < candidate_positions.len()
            invariant
                i <= candidate_positions@.len(),
                candidate_positions.len() == candidate_positions@.len(),
                self.valid(),
                g == self.entries(),
                valid_graph(g),
                positions_inside(candidate_positions@, g),
                positions@.len() == i,
                forall|j: int|
                    0 <= j < i ==> #[trigger] positions@[j] == candidate_positions@[j].0,
                forall|j: int|
                    0 <= j < i ==> min_generation <= g[(
                    #[trigger] candidate_positions@[j]).0 as int].generation,
                work.wf(),
                items_right(g, work@),
                forall|item: IndexPositionByGeneration| #[trigger]
                    work@.contains(item) <==> exists|j: int, k: int|
                        #![trigger g[candidate_positions@[j].0 as int].parents[k]]
                        0 <= j < i && 0 <= k < g[candidate_positions@[j].0 as int].parents.len()
                            && item == item_at(g, g[candidate_positions@[j].0 as int].parents[k]),
            decreases candidate_positions@.len() - i,
        {
            let pos: u32 = candidate_positions[i].0;
            assert(candidate_positions@[i as int].0 < g.len());
            let generation: u32 = self.entry_by_pos(IndexPosition(pos)).generation_number();
            if generation < min_generation {
                min_generation = generation;
            }
            positions.push(pos);
            let ghost before = work@;
            push_parents(self, pos, &mut work);
            proof {
                assert forall|item: IndexPositionByGeneration| #[trigger]
                    work@.contains(item) <==> exists|j: int, k: int|
                        #![trigger g[candidate_positions@[j].0 as int].parents[k]]
                        0 <= j < i + 1 && 0 <= k
                            < g[candidate_positions@[j].0 as int].parents.len() && item
                            == item_at(g, g[candidate_positions@[j].0 as int].parents[k]) by {
                    if work@.contains(item) {
                        if before.contains(item) {
                            let (j, k) = choose|j: int, k: int|
                                #![trigger g[candidate_positions@[j].0 as int].parents[k]]
                                0 <= j < i && 0 <= k
                                    < g[candidate_positions@[j].0 as int].parents.len() && item
                                    == item_at(
                                    g,
                                    g[candidate_positions@[j].0 as int].parents[k],
                                );
                            assert(item == item_at(
                                g,
                                g[candidate_positions@[j].0 as int].parents[k],
                            ));
                        } else {
                            let k = choose|k: int|
                                0 <= k < g[pos as int].parents.len() && item == item_at(
                                    g,
                                    #[trigger] g[pos as int].parents[k],
                                );
                            assert(item == item_at(
                                g,
                                g[candidate_positions@[i as int].0 as int].parents[k],
                            ));
                        }
                    }
                }
            }
            i += 1;
        }
        proof {
            assert forall|p: u32| covers(g, work@, p) <==> is_below(g, set, p) by {
                lemma_candidates_covered(g, candidate_positions@, work@, p);
            }
        }
        // Walk ancestors of the parents of the candidates. Stop walking when we
        // have gone past the minimum candidate generation.
        let mut visited: HashSet<u32> = HashSet::new();
        let ghost mut bound: int = u32::MAX * 0x1_0000_0000 + 0x1_0000_0000;
        loop
            invariant_except_break
                self.valid(),
                g == self.entries(),
                valid_graph(g),
                work.wf(),
                items_right(g, work@),
                0 <= bound,
                forall|item: IndexPositionByGeneration| #[trigger]
                    work@.contains(item) ==> item.rank() < bound,
                forall|p: u32| #[trigger]
                    is_below(g, set, p) <==> visited@.contains(p) || covers(g, work@, p),
            ensures
                forall|p: u32|
                    p < g.len() && g[p as int].generation >= min_generation ==> (
                    #[trigger] is_below(g, set, p) <==> visited@.contains(p)),
            decreases bound,
        {
            let ghost items = work@;
            match dedup_pop(&mut work, Ghost(g)) {
                Some(item) => {
                    assert(items.contains(item) && item == item_at(g, item.pos));
                    if item.generation < min_generation {
                        proof {
                            assert forall|p: u32|
                                p < g.len() && g[p as int].generation >= min_generation implies (
                            #[trigger] is_below(g, set, p) <==> visited@.contains(p)) by {
                                if covers(g, items, p) {
                                    let q = choose|q: u32|
                                        items.contains(#[trigger] item_at(g, q)) && q < g.len()
                                            && reaches(parent_links(g), q, p);
                                    lemma_rank_descends(g, q, p);
                                    assert(item_at(g, q).rank() <= item.rank());
                                }
                            }
                        }
                        break;
                    }
                    let pos: u32 = item.pos;
                    let ghost rest = work@;
                    visited.insert(pos);
                    push_parents(self, pos, &mut work);
                    proof {
                        assert forall|p: u32| #[trigger]
                            is_below(g, set, p) <==> visited@.contains(p) || covers(
                            g,
                            work@,
                            p,
                        ) by {
                            lemma_expanded(g, items, work@, pos, p);
                        }
                        assert forall|other: IndexPositionByGeneration| #[trigger]
                            work@.contains(other) implies other.rank() < item.rank() by {
                            if !rest.contains(other) {
                                let k = choose|k: int|
                                    0 <= k < g[pos as int].parents.len() && other == item_at(
                                        g,
                                        #[trigger] g[pos as int].parents[k],
                                    );
                                lemma_generation_above(g, g[pos as int].parents);
                            }
                        }
                        bound = item.rank();
                    }
                },
                None => {
                    proof {
                        assert forall|p: u32| !covers(g, items, p) by {
                            if covers(g, items, p) {
                                let q = choose|q: u32|
                                    items.contains(#[trigger] item_at(g, q)) && q < g.len()
                                        && reaches(parent_links(g), q, p);
                            }
                        }
                    }
                    break;
                },
            }
        }
        // Remove visited commits from the candidates.
        let candidates = sorted_distinct(positions.as_slice());
        proof {
            assert forall|p: u32| #[trigger] candidates@.contains(p) <==> set.contains(p) by {
                assert(candidates@.contains(p) <==> positions@.contains(p));
                if positions@.contains(p) {
                    let j = choose|j: int| 0 <= j < positions@.len() && positions@[j] == p;
                    assert(candidate_positions@[j] == IndexPosition(p));
                }
                if set.contains(p) {
                    let j = choose|j: int|
                        0 <= j < candidate_positions@.len() && candidate_positions@[j]
                            == IndexPosition(p);
                    assert(positions@[j] == p);
                }
            }
        }
        let mut heads: Vec<IndexPosition> = Vec::new();
        let mut k: usize = 0;
        while k < candidates.len()
            invariant
                k <= candidates@.len(),
                forall|i: int, j: int|
                    #![trigger candidates@[i], candidates@[j]]
                    0 <= i < j < candidates@.len() ==> candidates@[i] < candidates@[j],
                forall|i: int, j: int|
                    #![trigger heads@[i], heads@[j]]
                    0 <= i < j < heads@.len() ==> heads@[i].0 < heads@[j].0,
                forall|i: int|
                    0 <= i < heads@.len() ==> is_kept(
                        candidates@,
                        visited@,
                        k as int,
                        (#[trigger] heads@[i]).0,
                    ),
                forall|j: int|
                    0 <= j < k && !visited@.contains(#[trigger] candidates@[j]) ==> heads@.contains(
                        IndexPosition(candidates@[j]),
                    ),
            decreases candidates@.len() - k,
        {
            let ghost before = heads@;
            if !visited.contains(&candidates[k]) {
                heads.push(IndexPosition(candidates[k]));
                proof {
                    assert forall|i: int, j: int|
                        #![trigger heads@[i], heads@[j]]
                        0 <= i < j < heads@.len() implies heads@[i].0 < heads@[j].0 by {
                        if j == before.len() {
                            let m = choose|m: int|
                                0 <= m < k && #[trigger] candidates@[m] == before[i].0;
                            assert(candidates@[m] < candidates@[k as int]);
                        }
                    }
                    assert(candidates@[k as int] == heads@[before.len() as int].0);
                    assert forall|j: int|
                        0 <= j < k + 1 && !visited@.contains(
                            #[trigger] candidates@[j],
                        ) implies heads@.contains(IndexPosition(candidates@[j])) by {
                        if j < k {
                            let m = choose|m: int|
                                0 <= m < before.len() && before[m] == IndexPosition(
                                    candidates@[j],
                                );
                            assert(heads@[m] == IndexPosition(candidates@[j]));
                        } else {
                            assert(heads@[before.len() as int] == IndexPosition(candidates@[j]));
                        }
                    }
                }
            }
            k += 1;
        }
        proof {
            assert forall|p: u32| #[trigger] heads@.contains(IndexPosition(p)) <==> set.contains(p)
                && !is_below(g, set, p) by {
                if heads@.contains(IndexPosition(p)) {
                    let i = choose|i: int|
                        0 <= i < heads@.len() && heads@[i] == IndexPosition(p);
                    assert(is_kept(candidates@, visited@, k as int, heads@[i].0));
                    assert(candidates@.contains(p));
                }
                if set.contains(p) {
                    let j = choose|j: int|
                        0 <= j < candidate_positions@.len() && candidate_positions@[j]
                            == IndexPosition(p);
                    assert(min_generation <= g[candidate_positions@[j].0 as int].generation);
                    assert(is_below(g, set, p) <==> visited@.contains(p));
                    assert(candidates@.contains(p));
                    let m = choose|m: int| 0 <= m < candidates@.len() && candidates@[m] == p;
                    if !visited@.contains(p) {
                        assert(heads@.contains(IndexPosition(candidates@[m])));
                    }
                }
            }
        }
        heads
    }
}

/// Whether a position is among the first `k` candidates and was not visited.
spec fn is_kept(candidates: Seq<u32>, visited: Set<u32>, k: int, p: u32) -> bool {
    !visited.contains(p) && exists|j: int| 0 <= j < k && #[trigger] candidates[j] == p
}

/// The parents of candidates cover what is below a candidate.
proof fn lemma_candidates_covered(
    g: Seq<Entry>,
    candidates: Seq<IndexPosition>,
    items: Multiset<IndexPositionByGeneration>,
    p: u32,
)
    requires
        valid_graph(g),
        positions_inside(candidates, g),
        forall|item: IndexPositionByGeneration| #[trigger]
            items.contains(item) <==> exists|j: int, k: int|
                #![trigger g[candidates[j].0 as int].parents[k]]
                0 <= j < candidates.len() && 0 <= k < g[candidates[j].0 as int].parents.len()
                    && item == item_at(g, g[candidates[j].0 as int].parents[k]),
    ensures
        covers(g, items, p) <==> is_below(g, position_set(candidates), p),
{
    let links = parent_links(g);
    let set = position_set(candidates);
    lemma_links_descend(g);
    if covers(g, items, p) {
        let q = choose|q: u32|
            items.contains(#[trigger] item_at(g, q)) && q < g.len() && reaches(links, q, p);
        let (j, k) = choose|j: int, k: int|
            #![trigger g[candidates[j].0 as int].parents[k]]
            0 <= j < candidates.len() && 0 <= k < g[candidates[j].0 as int].parents.len()
                && item_at(g, q) == item_at(g, g[candidates[j].0 as int].parents[k]);
        let c = candidates[j].0;
        assert(c < g.len());
        assert(candidates[j] == IndexPosition(c));
        assert(set.contains(c));
        assert(links[c][k] == q && q < c);
        lemma_reaches_via(links, c, k, p);
        lemma_reaches_descends(links, q, p);
        assert(c != p);
    }
    if is_below(g, set, p) {
        let c = choose|c: u32| set.contains(c) && c != p && #[trigger] reaches(links, c, p);
        let j = choose|j: int| 0 <= j < candidates.len() && candidates[j] == IndexPosition(c);
        assert(candidates[j].0 < g.len());
        let k = lemma_reaches_link(links, c, p);
        let q = g[candidates[j].0 as int].parents[k];
        assert(q < c);
        assert(items.contains(item_at(g, q)));
    }
}

/// A heap of the given commits.
fn heap_of<'a>(index: &CompositeIndex<'a>, positions: &[IndexPosition]) -> (heap: MaxHeap<
    IndexPositionByGeneration,
>)
    requires
        index.valid(),
        positions_inside(positions@, index.entries()),
    ensures
        heap.wf(),
        items_right(index.entries(), heap@),
        forall|p: u32| #[trigger]
            covers(index.entries(), heap@, p) <==> any_reaches(
                parent_links(index.entries()),
                position_set(positions@),
                p,
            ),
{
    let ghost g = index.entries();
    let mut heap: MaxHeap<IndexPositionByGeneration> = MaxHeap::new();
    proof {
        lemma_empty(heap@);
    }
    let mut i: usize = 0;
    while i < positions.len()
        invariant
            i <= positions@.len(),
            positions.len() == positions@.len(),
            index.valid(),
            g == index.entries(),
            positions_inside(positions@, g),
            heap.wf(),
            items_right(g, heap@),
            forall|item: IndexPositionByGeneration| #[trigger]
                heap@.contains(item) <==> exists|j: int|
                    0 <= j < i && item == item_at(g, (#[trigger] positions@[j]).0),
        decreases positions@.len() - i,
    {
        let pos = positions[i];
        assert(positions@[i as int].0 < g.len());
        let entry = index.entry_by_pos(pos);
        let item = IndexPositionByGeneration::from_entry(&entry);
        proof {
            lemma_put(heap@, item);
            assert(item == item_at(g, positions@[i as int].0));
        }
        heap.push(item);
        i += 1;
    }
    proof {
        let links = parent_links(g);
        let set = position_set(positions@);
        assert forall|p: u32| #[trigger] covers(g, heap@, p) <==> any_reaches(links, set, p) by {
            if covers(g, heap@, p) {
                let q = choose|q: u32|
                    heap@.contains(#[trigger] item_at(g, q)) && q < g.len() && reaches(
                        links,
                        q,
                        p,
                    );
                let j = choose|j: int|
                    0 <= j < positions@.len() && item_at(g, q) == item_at(
                        g,
                        (#[trigger] positions@[j]).0,
                    );
                assert(positions@[j] == IndexPosition(q));
                assert(set.contains(q) && reaches(links, q, p));
            }
            if any_reaches(links, set, p) {
                let q = choose|q: u32| set.contains(q) && #[trigger] reaches(links, q, p);
                let j = choose|j: int|
                    0 <= j < positions@.len() && positions@[j] == IndexPosition(q);
                assert(positions@[j].0 < g.len());
                assert(heap@.contains(item_at(g, positions@[j].0)));
                assert(heap@.contains(item_at(g, q)));
            }
        }
    }
    heap
}

/// What a heap covers is what it covers without one of its commits, and that
/// commit and its ancestors.
proof fn lemma_split_off(
    g: Seq<Entry>,
    before: Multiset<IndexPositionByGeneration>,
    after: Multiset<IndexPositionByGeneration>,
    x: u32,
    p: u32,
)
    requires
        x < g.len(),
        before.contains(item_at(g, x)),
        forall|item: IndexPositionByGeneration| #[trigger]
            after.contains(item) <==> before.contains(item) && item != item_at(g, x),
    ensures
        covers(g, before, p) <==> covers(g, after, p) || reaches(parent_links(g), x, p),
{
    let links = parent_links(g);
    if covers(g, before, p) {
        let q = choose|q: u32|
            before.contains(#[trigger] item_at(g, q)) && q < g.len() && reaches(links, q, p);
        if q != x {
            assert(after.contains(item_at(g, q)));
        }
    }
    if covers(g, after, p) {
        let q = choose|q: u32|
            after.contains(#[trigger] item_at(g, q)) && q < g.len() && reaches(links, q, p);
        assert(before.contains(item_at(g, q)));
    }
    if reaches(links, x, p) {
        assert(before.contains(item_at(g, x)));
    }
}

/// A heap whose items all rank below a commit does not cover it.
proof fn lemma_not_covered(g: Seq<Entry>, items: Multiset<IndexPositionByGeneration>, x: u32)
    requires
        valid_graph(g),
        items_right(g, items),
        forall|item: IndexPositionByGeneration| #[trigger]
            items.contains(item) ==> item.rank() < item_at(g, x).rank(),
    ensures
        !covers(g, items, x),
{
    if covers(g, items, x) {
        let q = choose|q: u32|
            items.contains(#[trigger] item_at(g, q)) && q < g.len() && reaches(
                parent_links(g),
                q,
                x,
            );
        lemma_rank_descends(g, q, x);
    }
}

/// Commits whose ancestors, with themselves, are all of a set, have the heads of
/// the set as their heads.
proof fn lemma_same_heads(
    g: Seq<Entry>,
    some: Set<u32>,
    set: Set<u32>,
    heads: Seq<IndexPosition>,
)
    requires
        valid_graph(g),
        forall|p: u32| #[trigger] set.contains(p) <==> any_reaches(parent_links(g), some, p),
        forall|p: u32| #[trigger] some.contains(p) ==> p < g.len(),
        are_heads(g, some, heads),
    ensures
        are_heads(g, set, heads),
{
    let links = parent_links(g);
    lemma_links_descend(g);
    assert forall|p: u32| #[trigger] heads.contains(IndexPosition(p)) <==> set.contains(p)
        && !is_below(g, set, p) by {
        if heads.contains(IndexPosition(p)) {
            lemma_reaches_self(links, p);
            assert(some.contains(p));
            assert(set.contains(p));
            if is_below(g, set, p) {
                let c = choose|c: u32| set.contains(c) && c != p && #[trigger] reaches(links, c, p);
                let s = choose|s: u32| some.contains(s) && #[trigger] reaches(links, s, c);
                lemma_reaches_transitive(links, s, c, p);
                lemma_reaches_descends(links, s, c);
                lemma_reaches_descends(links, c, p);
                assert(s != p);
                assert(is_below(g, some, p));
            }
        }
        if set.contains(p) && !is_below(g, set, p) {
            let s = choose|s: u32| some.contains(s) && #[trigger] reaches(links, s, p);
            lemma_reaches_self(links, s);
            assert(set.contains(s));
            assert(s == p);
            if is_below(g, some, p) {
                let c = choose|c: u32|
                    some.contains(c) && c != p && #[trigger] reaches(links, c, p);
                lemma_reaches_self(links, c);
                assert(set.contains(c));
            }
        }
    }
}

impl<'a> CompositeIndex<'a> {
    /// The positions of the common ancestors of two sets of commits that are not
    /// ancestors of other common ancestors, in ascending order.
    #[verifier::rlimit(40)]
    pub fn common_ancestors_pos(&self, set1: &[IndexPosition], set2: &[IndexPosition]) -> (heads:
        Vec<IndexPosition>)
        requires
            self.valid(),
            positions_inside(set1@, self.entries()),
            positions_inside(set2@, self.entries()),
        ensures
            are_heads(
                self.entries(),
                common_ancestor_set(self.entries(), position_set(set1@), position_set(set2@)),
                heads@,
            ),
    {
        let ghost g = self.entries();
        let ghost links = parent_links(g);
        let ghost common = common_ancestor_set(g, position_set(set1@), position_set(set2@));
        proof {
            self.lemma_valid();
            lemma_links_descend(g);
        }
        let mut items1 = heap_of(self, set1);
        let mut items2 = heap_of(self, set2);
        let mut result: Vec<IndexPosition> = Vec::new();
        let ghost mut bound1: int = u32::MAX * 0x1_0000_0000 + 0x1_0000_0000;
        let ghost mut bound2: int = u32::MAX * 0x1_0000_0000 + 0x1_0000_0000;
        loop
            invariant_except_break
                self.valid(),
                g == self.entries(),
                links == parent_links(g),
                valid_graph(g),
                items1.wf(),
                items2.wf(),
                items_right(g, items1@),
                items_right(g, items2@),
                0 <= bound1,
                0 <= bound2,
                forall|item: IndexPositionByGeneration| #[trigger]
                    items1@.contains(item) ==> item.rank() < bound1,
                forall|item: IndexPositionByGeneration| #[trigger]
                    items2@.contains(item) ==> item.rank() < bound2,
                forall|p: u32| #[trigger]
                    common.contains(p) <==> any_reaches(links, position_set(result@), p)
                        || covers(g, items1@, p) && covers(g, items2@, p),
            invariant
                positions_inside(result@, g),
            ensures
                forall|p: u32| #[trigger]
                    common.contains(p) <==> any_reaches(links, position_set(result@), p),
            decreases bound1 + bound2,
        {
            let ghost before1 = items1@;
            let ghost before2 = items2@;
            let (item1, item2) = match (items1.peek(), items2.peek()) {
                (Some(item1), Some(item2)) => (item1, item2),
                _ => {
                    proof {
                        assert forall|p: u32| !(covers(g, before1, p) && covers(
                            g,
                            before2,
                            p,
                        )) by {
                            if before1.len() == 0 {
                                lemma_empty(before1);
                            } else {
                                lemma_empty(before2);
                            }
                        }
                    }
                    break;
                },
            };
            assert(before1.contains(item1) && before2.contains(item2));
            if item2.ranks_below(&item1) {
                self.step_back(&mut items1, Ghost(item1));
                proof {
                    lemma_not_covered(g, before2, item1.pos);
                    assert forall|p: u32| #[trigger]
                        common.contains(p) <==> any_reaches(links, position_set(result@), p)
                            || covers(g, items1@, p) && covers(g, items2@, p) by {
                        assert(covers(g, before1, p) <==> covers(g, items1@, p) || p == item1.pos);
                    }
                    bound1 = item1.rank();
                }
            } else if item1.ranks_below(&item2) {
                self.step_back(&mut items2, Ghost(item2));
                proof {
                    lemma_not_covered(g, before1, item2.pos);
                    assert forall|p: u32| #[trigger]
                        common.contains(p) <==> any_reaches(links, position_set(result@), p)
                            || covers(g, items1@, p) && covers(g, items2@, p) by {
                        assert(covers(g, before2, p) <==> covers(g, items2@, p) || p == item2.pos);
                    }
                    bound2 = item2.rank();
                }
            } else {
                let ghost found = result@;
                result.push(IndexPosition(item1.pos));
                let popped1 = dedup_pop(&mut items1, Ghost(g));
                let popped2 = dedup_pop(&mut items2, Ghost(g));
                proof {
                    let x = item1.pos;
                    assert(popped1 == Some(item1)) by {
                        assert(before1.contains(popped1.unwrap()));
                    }
                    assert(popped2 == Some(item1)) by {
                        assert(before2.contains(popped2.unwrap()));
                    }
                    assert forall|p: u32| #[trigger]
                        common.contains(p) <==> any_reaches(links, position_set(result@), p)
                            || covers(g, items1@, p) && covers(g, items2@, p) by {
                        lemma_split_off(g, before1, items1@, x, p);
                        lemma_split_off(g, before2, items2@, x, p);
                        lemma_reach_more(links, found, IndexPosition(x), p);
                    }
                    bound1 = item1.rank();
                    bound2 = item1.rank();
                }
            }
        }
        let heads = self.heads_pos(result.as_slice());
        proof {
            assert forall|p: u32| #[trigger] position_set(result@).contains(p) implies p
                < g.len() by {
                let j = choose|j: int| 0 <= j < result@.len() && result@[j] == IndexPosition(p);
                assert(result@[j].0 < g.len());
            }
            lemma_same_heads(g, position_set(result@), common, heads@);
        }
        heads
    }

    /// Replaces the commit of the greatest rank by its parents.
    fn step_back(
        &self,
        heap: &mut MaxHeap<IndexPositionByGeneration>,
        Ghost(first): Ghost<IndexPositionByGeneration>,
    )
        requires
            self.valid(),
            old(heap).wf(),
            items_right(self.entries(), old(heap)@),
            old(heap)@.contains(first),
            forall|other: IndexPositionByGeneration| #[trigger]
                old(heap)@.contains(other) ==> other.rank() <= first.rank(),
        ensures
            final(heap).wf(),
            items_right(self.entries(), final(heap)@),
            forall|item: IndexPositionByGeneration| #[trigger]
                final(heap)@.contains(item) ==> item.rank() < first.rank(),
            forall|p: u32|
                #![trigger covers(self.entries(), old(heap)@, p)]
                covers(self.entries(), old(heap)@, p) <==> covers(
                    self.entries(),
                    final(heap)@,
                    p,
                ) || p == first.pos,
    {
        let ghost g = self.entries();
        let ghost before = heap@;
        proof {
            self.lemma_valid();
        }
        match dedup_pop(heap, Ghost(g)) {
            Some(item) => {
                let ghost rest = heap@;
                proof {
                    assert(before.contains(item) && item == item_at(g, item.pos));
                    assert(first == item);
                }
                push_parents(self, item.pos, heap);
                proof {
                    assert forall|other: IndexPositionByGeneration| #[trigger]
                        heap@.contains(other) implies other.rank() < item.rank() by {
                        if !rest.contains(other) {
                            let k = choose|k: int|
                                0 <= k < g[item.pos as int].parents.len() && other == item_at(
                                    g,
                                    #[trigger] g[item.pos as int].parents[k],
                                );
                            lemma_generation_above(g, g[item.pos as int].parents);
                        }
                    }
                    assert forall|p: u32|
                        #![trigger covers(g, before, p)]
                        covers(g, before, p) <==> covers(g, heap@, p) || p == item.pos by {
                        lemma_expanded(g, before, heap@, item.pos, p);
                    }
                }
            },
            None => {
                assert(before.contains(first));
            },
        }
    }
}

/// One more position reaches what it reaches.
proof fn lemma_reach_more(
    links: Map<u32, Seq<u32>>,
    positions: Seq<IndexPosition>,
    more: IndexPosition,
    p: u32,
)
    ensures
        any_reaches(links, position_set(positions.push(more)), p) <==> any_reaches(
            links,
            position_set(positions),
            p,
        ) || reaches(links, more.0, p),
{
    let all = positions.push(more);
    if any_reaches(links, position_set(positions), p) {
        let q = choose|q: u32|
            position_set(positions).contains(q) && #[trigger] reaches(links, q, p);
        let j = choose|j: int| 0 <= j < positions.len() && positions[j] == IndexPosition(q);
        assert(all[j] == IndexPosition(q));
        assert(position_set(all).contains(q));
    }
    if reaches(links, more.0, p) {
        assert(all[positions.len() as int] == IndexPosition(more.0));
        assert(position_set(all).contains(more.0));
    }
    if any_reaches(links, position_set(all), p) {
        let q = choose|q: u32| position_set(all).contains(q) && #[trigger] reaches(links, q, p);
        let j = choose|j: int| 0 <= j < all.len() && all[j] == IndexPosition(q);
        if j < positions.len() {
            assert(positions[j] == IndexPosition(q));
            assert(position_set(positions).contains(q));
        }
    }
}

} // verus!
