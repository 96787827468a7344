//! Walks from commits to their ancestors.

use crate::composite::CompositeIndex;
use crate::entry::IndexEntry;
use crate::generation_walk::{wanted_in_range, RevWalkGenerationRangeImpl};
use crate::model::{lemma_links_descend, parent_links, valid_graph, Entry};
use crate::paths::{any_reaches, descending, lemma_reaches_transitive, path, reaches};
use crate::positions::{IndexPosition, SmallIndexPositionsVec};
use crate::queue::{
    lemma_inserted, lemma_no_items, lemma_removed, lemma_unwanted_added, lemma_wanted_added,
    lemma_without_key, unwanted_item, wanted_item, AnyDistance, RevWalkQueue, RevWalkWorkItem,
    RevWalkWorkItemState, WalkTag,
};
use crate::walk::{
    asks, bars, derived_item, derived_tag, held, keys_up_to, lemma_exhausted, lemma_only_unwanted,
    lemma_unwanted_step, lemma_visit_bound, lemma_wanted_step, passed_on, tagged_links, to_visit,
    wants,
};
use core::ops::Range;
use vstd::prelude::*;

verus! {

/// A graph that can be walked: its nodes are the commits of an index, and its
/// links go from greater keys to smaller ones.
pub trait RevWalkIndex<'a> {
    /// The links.
    spec fn links(&self) -> Map<u32, Seq<u32>>;

    /// The commits of the index.
    spec fn commits(&self) -> Seq<Entry>;

    /// The position of the commit with the given key.
    spec fn place(&self, key: u32) -> u32;

    /// Whether the index is valid.
    spec fn walkable(&self) -> bool;

    proof fn lemma_walkable(&self)
        requires
            self.walkable(),
        ensures
            descending(self.links()),
    ;

    fn entry_by_key(&self, key: u32) -> (entry: IndexEntry<'a>)
        requires
            self.walkable(),
            self.links().dom().contains(key),
        ensures
            entry.is_in(self.commits()),
            entry.place() == self.place(key),
    ;

    fn adjacent_keys(&self, key: u32, entry: &IndexEntry<'a>) -> (keys: SmallIndexPositionsVec)
        requires
            self.walkable(),
            self.links().dom().contains(key),
            entry.is_in(self.commits()),
            entry.place() == self.place(key),
        ensures
            keys@ == self.links()[key],
    ;
}

/// Commits with their positions as keys, linked to their parents.
impl<'a> RevWalkIndex<'a> for CompositeIndex<'a> {
    open spec fn links(&self) -> Map<u32, Seq<u32>> {
        parent_links(self.entries())
    }

    open spec fn commits(&self) -> Seq<Entry> {
        self.entries()
    }

    open spec fn place(&self, key: u32) -> u32 {
        key
    }

    open spec fn walkable(&self) -> bool {
        self.valid()
    }

    proof fn lemma_walkable(&self) {
        self.lemma_valid();
        lemma_links_descend(self.entries());
    }

    fn entry_by_key(&self, key: u32) -> (entry: IndexEntry<'a>) {
        self.entry_by_pos(IndexPosition(key))
    }

    fn adjacent_keys(&self, key: u32, entry: &IndexEntry<'a>) -> (keys: SmallIndexPositionsVec) {
        entry.parent_positions()
    }
}

/// Whether a key is wanted, with any tag.
pub open spec fn is_wanted_key<T>(items: Set<RevWalkWorkItem<T>>, x: u32) -> bool {
    exists|t: T| items.contains(#[trigger] wanted_item(x, t))
}

/// What holds once a node was visited.
proof fn lemma_visited(
    links: Map<u32, Seq<u32>>,
    before: Set<RevWalkWorkItem<AnyDistance>>,
    after: Set<RevWalkWorkItem<AnyDistance>>,
    x: u32,
)
    requires
        descending(links),
        keys_up_to(links, before, x as int),
        before.contains(wanted_item(x, AnyDistance)),
        !before.contains(unwanted_item(x)),
        forall|item: RevWalkWorkItem<AnyDistance>| #[trigger]
            after.contains(item) <==> before.contains(item) && item.pos != x || exists|k: int|
                0 <= k < links[x].len() && item == wanted_item(
                    #[trigger] links[x][k],
                    AnyDistance,
                ),
    ensures
        keys_up_to(links, after, x - 1),
        to_visit(links, before, 0).contains(x),
        forall|p: u32| #[trigger] to_visit(links, before, 0).contains(p) ==> p <= x,
        to_visit(links, after, 0) == to_visit(links, before, 0).remove(x),
        forall|y: u32| #[trigger]
            is_wanted_key(after, y) <==> is_wanted_key(before, y) && y < x || links[x].contains(y),
        forall|p: u32| #[trigger] bars(links, after, p) <==> bars(links, before, p),
{
    let t = AnyDistance;
    let own = wanted_item(x, t);
    assert forall|item: RevWalkWorkItem<AnyDistance>| #[trigger]
        after.contains(item) implies before.contains(item) && item.pos != x || derived_item(
        links,
        before,
        x,
        0,
        item,
    ) by {
        if !(before.contains(item) && item.pos != x) {
            let k = choose|k: int|
                0 <= k < links[x].len() && item == wanted_item(#[trigger] links[x][k], t);
            assert(derived_tag(before, x, 0, t)) by {
                assert forall|n: int| #[trigger] t.hits(n, 0) && n >= 0 implies exists|u:
                    AnyDistance| #[trigger]
                    before.contains(wanted_item(x, u)) && u.hits(n + 1, 0) by {
                    assert(before.contains(wanted_item(x, t)) && t.hits(n + 1, 0));
                }
            }
            assert(item == wanted_item(links[x][k], t));
        }
    }
    assert forall|u: AnyDistance, n: int|
        before.contains(wanted_item(x, u)) && #[trigger] u.hits(n, 0) && n >= 1 implies passed_on(
        links,
        after,
        x,
        0,
        n,
    ) by {
        assert(t.hits(n - 1, 0));
        assert(tagged_links(links, after, x, t));
    }
    lemma_wanted_step(links, before, after, 0, x);
    assert(before.contains(own) && t.hits(0, 0));
    assert forall|p: u32| #[trigger] to_visit(links, before, 0).contains(p) implies p <= x by {
        lemma_visit_bound(links, before, 0, x as int, p);
    }
    assert forall|y: u32| #[trigger] is_wanted_key(after, y) <==> is_wanted_key(before, y) && y < x
        || links[x].contains(y) by {
        if is_wanted_key(before, y) && y < x {
            let u = choose|u: AnyDistance| before.contains(#[trigger] wanted_item(y, u));
            assert(after.contains(wanted_item(y, u)));
        }
        if links[x].contains(y) {
            let k = choose|k: int| 0 <= k < links[x].len() && links[x][k] == y;
            assert(after.contains(wanted_item(links[x][k], t)));
        }
        if is_wanted_key(after, y) {
            let u = choose|u: AnyDistance| after.contains(#[trigger] wanted_item(y, u));
            let item = wanted_item(y, u);
            if !(before.contains(item) && item.pos != x) {
                let k = choose|k: int|
                    0 <= k < links[x].len() && item == wanted_item(#[trigger] links[x][k], t);
                assert(links[x][k] == y);
            }
        }
    }
}

/// A walk that visits all nodes that wanted keys reach and unwanted keys do not.
pub struct RevWalkImpl<I> {
    pub index: I,
    pub queue: RevWalkQueue<AnyDistance>,
}

impl<'a, I: RevWalkIndex<'a>> RevWalkImpl<I> {
    /// Whether the keys in the queue are nodes of a valid index.
    pub open spec fn wf(&self) -> bool {
        &&& self.index.walkable()
        &&& self.queue.wf()
        &&& keys_up_to(self.index.links(), held(self.queue@), u32::MAX as int)
    }

    /// Visits the next node, and returns its key and its commit.
    pub fn next(&mut self) -> (result: Option<(u32, IndexEntry<'a>)>)
        requires
            old(self).wf(),
        ensures
            final(self).wf(),
            final(self).index == old(self).index,
            ({
                let links = old(self).index.links();
                let before = held(old(self).queue@);
                let after = held(final(self).queue@);
                match result {
                    Some((x, entry)) => {
                        &&& links.dom().contains(x)
                        &&& entry.is_in(old(self).index.commits())
                        &&& entry.place() == old(self).index.place(x)
                        &&& to_visit(links, before, 0).contains(x)
                        &&& forall|p: u32| #[trigger]
                            to_visit(links, before, 0).contains(p) ==> p <= x
                        &&& to_visit(links, after, 0) == to_visit(links, before, 0).remove(x)
                        &&& forall|y: u32| #[trigger]
                            is_wanted_key(after, y) <==> is_wanted_key(before, y) && y < x
                                || links[x].contains(y)
                        &&& forall|p: u32|
                            p < x ==> (#[trigger] bars(links, after, p) <==> bars(
                                links,
                                before,
                                p,
                            ))
                    },
                    None => {
                        &&& to_visit(links, before, 0) == Set::<u32>::empty()
                        &&& to_visit(links, after, 0) == Set::<u32>::empty()
                        &&& forall|y: u32| !#[trigger] is_wanted_key(after, y)
                    },
                }
            }),
    {
        let ghost links = self.index.links();
        let ghost index = self.index;
        let ghost before = held(self.queue@);
        let ghost mut bound: int = u32::MAX as int;
        proof {
            self.index.lemma_walkable();
        }
        loop
            invariant
                self.index == index,
                self.index.walkable(),
                links == self.index.links(),
                descending(links),
                self.queue.wf(),
                -1 <= bound <= u32::MAX,
                keys_up_to(links, held(self.queue@), bound),
                before == held(old(self).queue@),
                index == old(self).index,
                to_visit(links, held(self.queue@), 0) == to_visit(links, before, 0),
                forall|y: u32| #[trigger]
                    is_wanted_key(held(self.queue@), y) <==> is_wanted_key(before, y) && y <= bound,
                forall|p: u32|
                    p <= bound ==> (#[trigger] bars(links, held(self.queue@), p) <==> bars(
                        links,
                        before,
                        p,
                    )),
            decreases bound + 1,
        {
            let ghost items = self.queue@;
            let ghost cur = held(items);
            let item = match self.queue.pop() {
                Some(item) => item,
                None => {
                    proof {
                        lemma_no_items(items);
                        lemma_exhausted(links, cur, 0);
                    }
                    return None;
                },
            };
            let x: u32 = item.pos;
            proof {
                lemma_removed(items, item);
                assert(cur.contains(item));
                assert forall|other: RevWalkWorkItem<AnyDistance>| #[trigger]
                    items.contains(other) implies other.pos <= x by {
                    item.lemma_rank(&other);
                }
                assert(keys_up_to(links, cur, x as int));
            }
            let ghost popped = self.queue@;
            self.queue.skip_while_eq(x);
            let ghost skipped = self.queue@;
            let ghost rest = held(skipped);
            proof {
                lemma_without_key(popped, x);
            }
            assert forall|other: RevWalkWorkItem<AnyDistance>| #[trigger]
                rest.contains(other) implies links.dom().contains(other.pos) && other.pos <= x by {
                assert(cur.contains(other));
            }
            if item.is_wanted() {
                let entry = self.index.entry_by_key(x);
                let keys = self.index.adjacent_keys(x, &entry);
                self.queue.extend_wanted(&keys, AnyDistance);
                proof {
                    lemma_wanted_added(skipped, keys@, AnyDistance);
                    let after = held(self.queue@);
                    match item.state {
                        RevWalkWorkItemState::Wanted(t) => {
                            assert(t == AnyDistance);
                        },
                        RevWalkWorkItemState::Unwanted => {},
                    }
                    let other = unwanted_item::<AnyDistance>(x);
                    if cur.contains(other) {
                        assert(items.contains(other));
                        other.lemma_rank(&item);
                        item.lemma_rank(&other);
                    }
                    lemma_visited(links, cur, after, x);
                }
                return Some((x, entry));
            } else if self.queue.is_exhausted() {
                proof {
                    assert(item == unwanted_item::<AnyDistance>(x));
                    assert forall|other: RevWalkWorkItem<AnyDistance>| #[trigger]
                        cur.contains(other) && other.pos != x implies other.state is Unwanted by {
                        assert(self.queue@.contains(other));
                    }
                    lemma_only_unwanted(links, cur, 0, x);
                    lemma_exhausted(links, rest, 0);
                }
                return None;
            } else {
                let entry = self.index.entry_by_key(x);
                let keys = self.index.adjacent_keys(x, &entry);
                self.queue.extend_unwanted(&keys);
                proof {
                    lemma_unwanted_added(skipped, keys@);
                    assert(item == unwanted_item::<AnyDistance>(x));
                    let after = held(self.queue@);
                    lemma_unwanted_step(links, cur, after, 0, x);
                    assert forall|y: u32| #[trigger] is_wanted_key(after, y) <==> is_wanted_key(
                        before,
                        y,
                    ) && y <= x - 1 by {
                        assert(is_wanted_key(cur, y) <==> is_wanted_key(before, y) && y <= bound);
                        if is_wanted_key(cur, y) && y != x {
                            let t = choose|t: AnyDistance|
                                cur.contains(#[trigger] wanted_item(y, t));
                            assert(after.contains(wanted_item(y, t)));
                        }
                        if is_wanted_key(after, y) {
                            let t = choose|t: AnyDistance|
                                after.contains(#[trigger] wanted_item(y, t));
                            assert(cur.contains(wanted_item(y, t)));
                        }
                    }
                    bound = x - 1;
                }
            }
        }
    }
}

/// Whether entries stand for the commits of an index at the given positions, the
/// greatest position first.
pub open spec fn lists_down(v: Seq<IndexEntry<'_>>, g: Seq<Entry>, places: Set<u32>) -> bool {
    &&& forall|i: int| 0 <= i < v.len() ==> (#[trigger] v[i]).is_in(g)
    &&& forall|i: int, j: int|
        #![trigger v[i], v[j]]
        0 <= i < j < v.len() ==> v[i].place() > v[j].place()
    &&& forall|p: u32| #[trigger] places.contains(p) <==> has_place(v, p)
}

/// Whether an entry has the given position.
pub open spec fn has_place(v: Seq<IndexEntry<'_>>, p: u32) -> bool {
    exists|i: int| 0 <= i < v.len() && (#[trigger] v[i]).place() == p
}

/// Whether a position is not before all of the given ones.
pub open spec fn not_before_all(roots: Seq<IndexPosition>, p: u32) -> bool {
    exists|i: int| 0 <= i < roots.len() && (#[trigger] roots[i]).0 <= p
}

/// The positions that are not before all of the given ones.
pub open spec fn from_lowest(walked: Set<u32>, roots: Seq<IndexPosition>) -> Set<u32> {
    Set::new(|p: u32| walked.contains(p) && not_before_all(roots, p))
}

/// Whether all positions are those of commits.
pub open spec fn positions_inside(positions: Seq<IndexPosition>, g: Seq<Entry>) -> bool {
    forall|i: int| 0 <= i < positions.len() ==> (#[trigger] positions[i]).0 < g.len()
}

/// The given positions, as a set.
pub open spec fn position_set(positions: Seq<IndexPosition>) -> Set<u32> {
    Set::new(|p: u32| positions.contains(IndexPosition(p)))
}

/// A walk from wanted commits to all their ancestors, but for the unwanted
/// commits and their ancestors. It goes by descending positions.
pub struct RevWalk<'a>(RevWalkImpl<CompositeIndex<'a>>);

impl<'a> Clone for RevWalk<'a> {
    fn clone(&self) -> (walk: Self)
        ensures
            walk.wf() == self.wf(),
            walk.entries() == self.entries(),
            walk.wanted() == self.wanted(),
            walk.barred() == self.barred(),
    {
        let walk = RevWalk(
            RevWalkImpl { index: self.0.index, queue: self.0.queue.clone() },
        );
        assert(walk.wanted() =~= self.wanted());
        assert(walk.barred() =~= self.barred());
        walk
    }
}

impl<'a> RevWalk<'a> {
    /// Whether the walk is one in a valid index.
    pub closed spec fn wf(&self) -> bool {
        self.0.wf()
    }

    /// The commits of the index.
    pub closed spec fn entries(&self) -> Seq<Entry> {
        self.0.index.entries()
    }

    /// The positions from which the walk goes on.
    pub closed spec fn wanted(&self) -> Set<u32> {
        Set::new(|x: u32| is_wanted_key(held(self.0.queue@), x))
    }

    /// The positions of the unwanted commits and their ancestors, as far as the
    /// walk has not left them behind.
    pub closed spec fn barred(&self) -> Set<u32> {
        Set::new(
            |p: u32| bars(parent_links(self.0.index.entries()), held(self.0.queue@), p),
        )
    }

    /// The positions of the commits that are yet to be visited.
    pub open spec fn remaining(&self) -> Set<u32> {
        Set::new(
            |p: u32|
                any_reaches(parent_links(self.entries()), self.wanted(), p)
                    && !self.barred().contains(p),
        )
    }

    /// What is yet to be visited are commits of a valid index.
    pub proof fn lemma_remaining(&self)
        requires
            self.wf(),
        ensures
            valid_graph(self.entries()),
            forall|p: u32| #[trigger]
                self.remaining().contains(p) ==> p < self.entries().len(),
            forall|p: u32| #[trigger] self.wanted().contains(p) ==> p < self.entries().len(),
            forall|p: u32, q: u32|
                #![trigger self.barred().contains(p), self.barred().contains(q)]
                self.barred().contains(p) && reaches(parent_links(self.entries()), p, q)
                    ==> self.barred().contains(q),
    {
        let links = parent_links(self.entries());
        let items = held(self.0.queue@);
        self.0.index.lemma_valid();
        self.0.index.lemma_walkable();
        self.lemma_to_visit();
        assert forall|p: u32| #[trigger] self.remaining().contains(p) implies p
            < self.entries().len() by {
            lemma_visit_bound(links, items, 0, u32::MAX as int, p);
        }
        assert forall|p: u32| #[trigger] self.wanted().contains(p) implies p
            < self.entries().len() by {
            let t = choose|t: AnyDistance| items.contains(#[trigger] wanted_item(p, t));
        }
        assert forall|p: u32, q: u32|
            #![trigger self.barred().contains(p), self.barred().contains(q)]
            self.barred().contains(p) && reaches(links, p, q) implies self.barred().contains(q) by {
            let x = choose|x: u32|
                items.contains(#[trigger] unwanted_item::<AnyDistance>(x)) && reaches(
                    links,
                    x,
                    p,
                );
            lemma_reaches_transitive(links, x, p, q);
        }
    }

    /// The queue stands for what is yet to be visited.
    proof fn lemma_to_visit(&self)
        ensures
            to_visit(parent_links(self.entries()), held(self.0.queue@), 0) == self.remaining(),
    {
        let links = parent_links(self.entries());
        let items = held(self.0.queue@);
        assert forall|p: u32| wants(links, items, 0, p) <==> any_reaches(
            links,
            self.wanted(),
            p,
        ) by {
            if wants(links, items, 0, p) {
                let (x, t, n) = choose|x: u32, t: AnyDistance, n: nat|
                    asks(links, items, 0, x, t, p, n);
                assert(items.contains(wanted_item(x, t)));
                assert(self.wanted().contains(x));
                assert(reaches(links, x, p));
            }
            if any_reaches(links, self.wanted(), p) {
                let x = choose|x: u32|
                    self.wanted().contains(x) && #[trigger] reaches(links, x, p);
                let t = choose|t: AnyDistance| items.contains(#[trigger] wanted_item(x, t));
                let n = choose|n: nat| path(links, x, p, n);
                assert(asks(links, items, 0, x, t, p, n));
            }
        }
        assert(to_visit(links, items, 0) =~= self.remaining());
    }

    pub fn new(index: CompositeIndex<'a>) -> (walk: Self)
        requires
            index.valid(),
        ensures
            walk.wf(),
            walk.entries() == index.entries(),
            walk.wanted() == Set::<u32>::empty(),
            walk.barred() == Set::<u32>::empty(),
    {
        let queue: RevWalkQueue<AnyDistance> = RevWalkQueue::new();
        let walk = RevWalk(RevWalkImpl { index, queue });
        proof {
            lemma_no_items(queue@);
            assert(walk.wanted() =~= Set::<u32>::empty());
            assert(walk.barred() =~= Set::<u32>::empty());
        }
        walk
    }

    /// The index that is walked.
    pub fn index(&self) -> (index: CompositeIndex<'a>)
        requires
            self.wf(),
        ensures
            index.valid(),
            index.entries() == self.entries(),
    {
        self.0.index
    }

    /// Adds wanted commits.
    pub fn extend_wanted(&mut self, positions: &[IndexPosition])
        requires
            old(self).wf(),
            positions_inside(positions@, old(self).entries()),
        ensures
            final(self).wf(),
            final(self).entries() == old(self).entries(),
            final(self).wanted() == old(self).wanted().union(position_set(positions@)),
            final(self).barred() == old(self).barred(),
    {
        let ghost before = held(self.0.queue@);
        let ghost links = parent_links(self.entries());
        let mut i: usize = 0;
        while i < positions.len()
            invariant
                i <= positions@.len(),
                positions.len() == positions@.len(),
                self.wf(),
                self.entries() == old(self).entries(),
                positions_inside(positions@, self.entries()),
                before == held(old(self).0.queue@),
                links == parent_links(self.entries()),
                forall|item: RevWalkWorkItem<AnyDistance>| #[trigger]
                    self.0.queue@.contains(item) <==> old(self).0.queue@.contains(item) || exists|
                        k: int,
                    |
                        0 <= k < i && item == wanted_item((#[trigger] positions@[k]).0, AnyDistance),
            decreases positions@.len() - i,
        {
            let pos: u32 = positions[i].0;
            proof {
                lemma_inserted(self.0.queue@, wanted_item(pos, AnyDistance));
                assert(positions@[i as int].0 == pos);
            }
            let ghost held_before = self.0.queue@;
            self.0.queue.push_wanted(pos, AnyDistance);
            i += 1;
            proof {
                assert forall|item: RevWalkWorkItem<AnyDistance>| #[trigger]
                    held(self.0.queue@).contains(item) implies links.dom().contains(item.pos) by {
                    if item.pos != pos {
                        assert(held(held_before).contains(item));
                    }
                }
            }
        }
        proof {
            let after = held(self.0.queue@);
            assert forall|x: u32| is_wanted_key(after, x) <==> is_wanted_key(before, x)
                || positions@.contains(IndexPosition(x)) by {
                if is_wanted_key(before, x) {
                    let t = choose|t: AnyDistance| before.contains(#[trigger] wanted_item(x, t));
                    assert(after.contains(wanted_item(x, t)));
                }
                if positions@.contains(IndexPosition(x)) {
                    let k = choose|k: int|
                        0 <= k < positions@.len() && positions@[k] == IndexPosition(x);
                    assert(after.contains(wanted_item(positions@[k].0, AnyDistance)));
                }
                if is_wanted_key(after, x) {
                    let t = choose|t: AnyDistance| after.contains(#[trigger] wanted_item(x, t));
                    let item = wanted_item(x, t);
                    if !before.contains(item) {
                        let k = choose|k: int|
                            0 <= k < positions@.len() && item == wanted_item(
                                (#[trigger] positions@[k]).0,
                                AnyDistance,
                            );
                        assert(positions@[k] == IndexPosition(x));
                    }
                }
            }
            assert(self.wanted() =~= old(self).wanted().union(position_set(positions@)));
            assert forall|p: u32| bars(links, after, p) <==> bars(links, before, p) by {
                if bars(links, after, p) {
                    let x = choose|x: u32|
                        after.contains(#[trigger] unwanted_item::<AnyDistance>(x)) && reaches(
                            links,
                            x,
                            p,
                        );
                    assert(before.contains(unwanted_item(x)));
                }
                if bars(links, before, p) {
                    let x = choose|x: u32|
                        before.contains(#[trigger] unwanted_item::<AnyDistance>(x)) && reaches(
                            links,
                            x,
                            p,
                        );
                    assert(after.contains(unwanted_item(x)));
                }
            }
            assert(self.barred() =~= old(self).barred());
        }
    }

    /// Adds unwanted commits.
    pub fn extend_unwanted(&mut self, positions: &[IndexPosition])
        requires
            old(self).wf(),
            positions_inside(positions@, old(self).entries()),
        ensures
            final(self).wf(),
            final(self).entries() == old(self).entries(),
            final(self).wanted() == old(self).wanted(),
            forall|p: u32| #[trigger]
                final(self).barred().contains(p) <==> old(self).barred().contains(p)
                    || any_reaches(
                    parent_links(old(self).entries()),
                    position_set(positions@),
                    p,
                ),
    {
        let ghost before = held(self.0.queue@);
        let ghost links = parent_links(self.entries());
        let mut i: usize = 0;
        while i < positions.len()
            invariant
                i <= positions@.len(),
                positions.len() == positions@.len(),
                self.wf(),
                self.entries() == old(self).entries(),
                positions_inside(positions@, self.entries()),
                before == held(old(self).0.queue@),
                links == parent_links(self.entries()),
                forall|item: RevWalkWorkItem<AnyDistance>| #[trigger]
                    self.0.queue@.contains(item) <==> old(self).0.queue@.contains(item) || exists|
                        k: int,
                    |
                        0 <= k < i && item == unwanted_item::<AnyDistance>(
                            (#[trigger] positions@[k]).0,
                        ),
            decreases positions@.len() - i,
        {
            let pos: u32 = positions[i].0;
            proof {
                lemma_inserted(self.0.queue@, unwanted_item(pos));
                assert(positions@[i as int].0 == pos);
            }
            let ghost held_before = self.0.queue@;
            self.0.queue.push_unwanted(pos);
            i += 1;
            proof {
                assert forall|item: RevWalkWorkItem<AnyDistance>| #[trigger]
                    held(self.0.queue@).contains(item) implies links.dom().contains(item.pos) by {
                    if item.pos != pos {
                        assert(held(held_before).contains(item));
                    }
                }
            }
        }
        proof {
            let after = held(self.0.queue@);
            assert forall|x: u32| is_wanted_key(after, x) <==> is_wanted_key(before, x) by {
                if is_wanted_key(before, x) {
                    let t = choose|t: AnyDistance| before.contains(#[trigger] wanted_item(x, t));
                    assert(after.contains(wanted_item(x, t)));
                }
                if is_wanted_key(after, x) {
                    let t = choose|t: AnyDistance| after.contains(#[trigger] wanted_item(x, t));
                    assert(before.contains(wanted_item(x, t)));
                }
            }
            assert(self.wanted() =~= old(self).wanted());
            let added = position_set(positions@);
            assert forall|p: u32| #[trigger] self.barred().contains(p) <==> old(
                self,
            ).barred().contains(p) || any_reaches(links, added, p) by {
                if bars(links, after, p) {
                    let x = choose|x: u32|
                        after.contains(#[trigger] unwanted_item::<AnyDistance>(x)) && reaches(
                            links,
                            x,
                            p,
                        );
                    let item = unwanted_item::<AnyDistance>(x);
                    if !before.contains(item) {
                        let k = choose|k: int|
                            0 <= k < positions@.len() && item == unwanted_item::<AnyDistance>(
                                (#[trigger] positions@[k]).0,
                            );
                        assert(positions@[k] == IndexPosition(x));
                        assert(added.contains(x));
                    }
                }
                if bars(links, before, p) {
                    let x = choose|x: u32|
                        before.contains(#[trigger] unwanted_item::<AnyDistance>(x)) && reaches(
                            links,
                            x,
                            p,
                        );
                    assert(after.contains(unwanted_item(x)));
                }
                if any_reaches(links, added, p) {
                    let x = choose|x: u32| added.contains(x) && #[trigger] reaches(links, x, p);
                    let k = choose|k: int|
                        0 <= k < positions@.len() && positions@[k] == IndexPosition(x);
                    assert(after.contains(unwanted_item(positions@[k].0)));
                    assert(after.contains(unwanted_item(x)));
                }
            }
        }
    }

    /// Visits the next commit.
    pub fn next(&mut self) -> (entry: Option<IndexEntry<'a>>)
        requires
            old(self).wf(),
        ensures
            final(self).wf(),
            final(self).entries() == old(self).entries(),
            match entry {
                Some(entry) => {
                    let pos = entry.place();
                    let parents = old(self).entries()[pos as int].parents;
                    &&& entry.is_in(old(self).entries())
                    &&& old(self).remaining().contains(pos)
                    &&& forall|p: u32| #[trigger] old(self).remaining().contains(p) ==> p <= pos
                    &&& final(self).remaining() == old(self).remaining().remove(pos)
                    &&& forall|p: u32| #[trigger]
                        final(self).wanted().contains(p) <==> old(self).wanted().contains(p) && p
                            < pos || parents.contains(p)
                    &&& forall|p: u32|
                        p < pos ==> (#[trigger] final(self).barred().contains(p) <==> old(
                            self,
                        ).barred().contains(p))
                },
                None => {
                    &&& old(self).remaining() == Set::<u32>::empty()
                    &&& final(self).remaining() == Set::<u32>::empty()
                    &&& final(self).wanted() == Set::<u32>::empty()
                },
            },
    {
        proof {
            self.lemma_to_visit();
        }
        let ghost links = parent_links(self.entries());
        let ghost before = held(self.0.queue@);
        let result = self.0.next();
        proof {
            self.lemma_to_visit();
        }
        match result {
            Some((_, entry)) => {
                proof {
                    let after = held(self.0.queue@);
                    assert forall|p: u32|
                        p < entry.place() implies (#[trigger] self.barred().contains(p) <==> old(
                        self,
                    ).barred().contains(p)) by {
                        assert(bars(links, after, p) <==> bars(links, before, p));
                    }
                    assert forall|p: u32| #[trigger] self.wanted().contains(p) <==> old(
                        self,
                    ).wanted().contains(p) && p < entry.place() || links[entry.place()].contains(
                        p,
                    ) by {
                        assert(is_wanted_key(after, p) <==> is_wanted_key(before, p) && p
                            < entry.place() || links[entry.place()].contains(p));
                    }
                }
                Some(entry)
            },
            None => {
                proof {
                    assert forall|y: u32| !self.wanted().contains(y) by {
                        assert(!is_wanted_key(held(self.0.queue@), y));
                    }
                    assert(self.wanted() =~= Set::<u32>::empty());
                }
                None
            },
        }
    }

    /// The positions of the commits at distances in the given range from the
    /// wanted ones, but for the unwanted commits and their ancestors. The
    /// distance of a commit is the length of any path to it.
    pub open spec fn at_generations(&self, range: Range<u32>) -> Set<u32> {
        Set::new(
            |p: u32|
                at_distance(parent_links(self.entries()), self.wanted(), range, p)
                    && !self.barred().contains(p),
        )
    }

    /// Filters entries by generation (or depth from the current wanted set.)
    ///
    /// The generation of the current wanted entries starts from 0.
    pub fn filter_by_generation(self, generation_range: Range<u32>) -> (walk:
        RevWalkGenerationRange<'a>)
        requires
            self.wf(),
        ensures
            walk.wf(),
            walk.entries() == self.entries(),
            walk.remaining() == self.at_generations(generation_range),
    {
        let ghost links = parent_links(self.entries());
        let ghost items = held(self.0.queue@);
        let walk = RevWalkGenerationRange(
            RevWalkGenerationRangeImpl::new(self.0.index, self.0.queue, generation_range),
        );
        proof {
            assert forall|p: u32| wanted_in_range(links, items, generation_range, p)
                <==> at_distance(links, self.wanted(), generation_range, p) by {
                if wanted_in_range(links, items, generation_range, p) {
                    let (x, n) = choose|x: u32, n: nat|
                        #![trigger is_wanted_key(items, x), path(links, x, p, n)]
                        is_wanted_key(items, x) && path(links, x, p, n) && generation_range.start
                            <= n < generation_range.end;
                    assert(self.wanted().contains(x));
                }
                if at_distance(links, self.wanted(), generation_range, p) {
                    let (x, n) = choose|x: u32, n: nat|
                        #![trigger self.wanted().contains(x), path(links, x, p, n)]
                        self.wanted().contains(x) && path(links, x, p, n)
                            && generation_range.start <= n < generation_range.end;
                    assert(is_wanted_key(items, x));
                }
            }
            assert(walk.remaining() =~= self.at_generations(generation_range));
        }
        walk
    }

    /// Walks until all of the reachable roots are visited.
    ///
    /// Use this if you are only interested in descendants of the given roots.
    /// The caller still needs to filter out unwanted entries.
    pub fn take_until_roots(self, root_positions: &[IndexPosition]) -> (visited: Vec<
        IndexEntry<'a>,
    >)
        requires
            self.wf(),
        ensures
            lists_down(
                visited@,
                self.entries(),
                from_lowest(self.remaining(), root_positions@),
            ),
    {
        let ghost g = self.entries();
        let ghost all = self.remaining();
        let ghost taken = from_lowest(all, root_positions@);
        let bottom_position: u32 = lowest(root_positions);
        proof {
            self.lemma_remaining();
        }
        let mut walk = self;
        let mut visited: Vec<IndexEntry<'a>> = Vec::new();
        let ghost mut bound: int = u32::MAX as int;
        loop
            invariant_except_break
                walk.wf(),
                walk.entries() == g,
                g.len() <= u32::MAX,
                taken == from_lowest(all, root_positions@),
                forall|p: u32|
                    p < g.len() ==> (#[trigger] not_before_all(root_positions@, p) <==> p
                        >= bottom_position),
                0 <= bound <= u32::MAX,
                forall|p: u32| #[trigger] walk.remaining().contains(p) ==> p < bound,
                forall|p: u32| #[trigger] all.contains(p) ==> p < g.len(),
                forall|p: u32| #[trigger]
                    all.contains(p) <==> walk.remaining().contains(p) || has_place(visited@, p),
                forall|i: int| 0 <= i < visited@.len() ==> (#[trigger] visited@[i]).is_in(g),
                forall|i: int, j: int|
                    #![trigger visited@[i], visited@[j]]
                    0 <= i < j < visited@.len() ==> visited@[i].place() > visited@[j].place(),
                forall|i: int|
                    0 <= i < visited@.len() ==> (#[trigger] visited@[i]).place() >= bound
                        && visited@[i].place() >= bottom_position,
            ensures
                lists_down(visited@, g, taken),
            decreases bound,
        {
            let ghost rest = walk.remaining();
            match walk.next() {
                Some(entry) => {
                    let ghost p0 = entry.place();
                    if entry.position().0 >= bottom_position {
                        let ghost before = visited@;
                        visited.push(entry);
                        proof {
                            bound = p0 as int;
                            assert forall|p: u32| #[trigger] has_place(visited@, p) <==> has_place(
                                before,
                                p,
                            ) || p == p0 by {
                                if has_place(before, p) {
                                    let i = choose|i: int|
                                        0 <= i < before.len() && (#[trigger] before[i]).place()
                                            == p;
                                    assert(visited@[i].place() == p);
                                }
                                assert(visited@[before.len() as int].place() == p0);
                            }
                        }
                    } else {
                        proof {
                            assert forall|p: u32| #[trigger]
                                taken.contains(p) <==> has_place(visited@, p) by {
                                if taken.contains(p) && rest.contains(p) {
                                    assert(p <= p0);
                                    assert(not_before_all(root_positions@, p));
                                }
                                if has_place(visited@, p) {
                                    assert(all.contains(p));
                                    assert(not_before_all(root_positions@, p));
                                }
                            }
                        }
                        break;
                    }
                },
                None => {
                    proof {
                        assert forall|p: u32| #[trigger] taken.contains(p) <==> has_place(
                            visited@,
                            p,
                        ) by {
                            if has_place(visited@, p) {
                                assert(all.contains(p));
                                assert(not_before_all(root_positions@, p));
                            }
                        }
                    }
                    break;
                },
            }
        }
        visited
    }
}

/// Whether a path of a length in a range leads from one of the given nodes to a
/// node.
pub open spec fn at_distance(
    links: Map<u32, Seq<u32>>,
    from: Set<u32>,
    range: Range<u32>,
    p: u32,
) -> bool {
    exists|x: u32, n: nat|
        #![trigger from.contains(x), path(links, x, p, n)]
        from.contains(x) && path(links, x, p, n) && range.start <= n < range.end
}

/// A walk to the ancestors at distances in a range. It goes by descending
/// positions.
pub struct RevWalkGenerationRange<'a>(RevWalkGenerationRangeImpl<CompositeIndex<'a>>);

impl<'a> Clone for RevWalkGenerationRange<'a> {
    fn clone(&self) -> (walk: Self)
        ensures
            walk.wf() == self.wf(),
            walk.entries() == self.entries(),
            walk.remaining() == self.remaining(),
    {
        RevWalkGenerationRange(
            RevWalkGenerationRangeImpl {
                index: self.0.index,
                queue: self.0.queue.clone(),
                generation_end: self.0.generation_end,
            },
        )
    }
}

impl<'a> RevWalkGenerationRange<'a> {
    /// Whether the walk is one in a valid index.
    pub closed spec fn wf(&self) -> bool {
        self.0.wf()
    }

    /// The commits of the index.
    pub closed spec fn entries(&self) -> Seq<Entry> {
        self.0.index.entries()
    }

    /// The positions of the commits that are yet to be visited.
    pub closed spec fn remaining(&self) -> Set<u32> {
        self.0.keys()
    }

    /// Visits the next commit.
    pub fn next(&mut self) -> (entry: Option<IndexEntry<'a>>)
        requires
            old(self).wf(),
        ensures
            final(self).wf(),
            final(self).entries() == old(self).entries(),
            match entry {
                Some(entry) => {
                    let pos = entry.place();
                    &&& entry.is_in(old(self).entries())
                    &&& old(self).remaining().contains(pos)
                    &&& forall|p: u32| #[trigger] old(self).remaining().contains(p) ==> p <= pos
                    &&& final(self).remaining() == old(self).remaining().remove(pos)
                },
                None => {
                    &&& old(self).remaining() == Set::<u32>::empty()
                    &&& final(self).remaining() == Set::<u32>::empty()
                },
            },
    {
        match self.0.next() {
            Some((_, entry)) => Some(entry),
            None => None,
        }
    }
}

/// The lowest of the given positions, or the highest of all if there is none.
fn lowest(positions: &[IndexPosition]) -> (bottom: u32)
    ensures
        forall|p: u32|
            p < u32::MAX ==> (#[trigger] not_before_all(positions@, p) <==> p >= bottom),
{
    let mut bottom: u32 = u32::MAX;
    let mut i: usize = 0;
    while i < positions.len()
        invariant
            i <= positions@.len(),
            positions.len() == positions@.len(),
            forall|p: u32|
                p < u32::MAX ==> (#[trigger] not_before_all(positions@.take(i as int), p) <==> p
                    >= bottom),
        decreases positions@.len() - i,
    {
        let pos: u32 = positions[i].0;
        proof {
            let now = positions@.take(i as int);
            let next = positions@.take(i + 1);
            assert(next =~= now.push(positions@[i as int]));
            assert forall|p: u32| #[trigger] not_before_all(next, p) <==> not_before_all(now, p)
                || pos <= p by {
                if not_before_all(now, p) {
                    let k = choose|k: int| 0 <= k < now.len() && (#[trigger] now[k]).0 <= p;
                    assert(next[k].0 <= p);
                }
                if pos <= p {
                    assert(next[i as int].0 <= p);
                }
                if not_before_all(next, p) {
                    let k = choose|k: int| 0 <= k < next.len() && (#[trigger] next[k]).0 <= p;
                    if k < i {
                        assert(now[k].0 <= p);
                    }
                }
            }
        }
        if pos < bottom {
            bottom = pos;
        }
        i += 1;
    }
    assert(positions@.take(i as int) =~= positions@);
    bottom
}

} // verus!
