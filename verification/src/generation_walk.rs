//! Walks that visit the nodes at given distances from the wanted keys only.

use crate::entry::IndexEntry;
use crate::paths::{descending, path, reaches};
use crate::queue::{
    count_at, lemma_no_items, lemma_removed, lemma_same_tag, lemma_unwanted_added,
    lemma_wanted_added, lemma_without_key, unwanted_item, wanted_item, AnyDistance, RevWalkQueue,
    RevWalkWorkItem, RevWalkWorkItemState, WalkTag,
};
use crate::rev_walk::{is_wanted_key, RevWalkIndex};
use crate::walk::{
    asks, bars, derived_item, derived_tag, held, keys_up_to, lemma_exhausted, lemma_unwanted_step,
    lemma_visit_bound, lemma_wanted_step, passed_on, tagged_links, to_visit, wants,
};
use core::ops::Range;
use vstd::prelude::*;

verus! {

/// A range of generations that moves along with a walk. A node at distance `n`
/// is to be visited if `n` added to both ends puts the walk's goal inside the
/// range, where the start does not belong to the range and the end does.
#[derive(Clone, Copy, Debug)]
pub struct RevWalkItemGenerationRange {
    pub start: u32,
    pub end: u32,
}

impl WalkTag for RevWalkItemGenerationRange {
    /// Ranges with a smaller start come first.
    open spec fn tag_rank(&self) -> int {
        0xffff_ffff_ffff_ffff - (self.start * 0x1_0000_0000 + self.end)
    }

    open spec fn hits(&self, n: int, goal: int) -> bool {
        self.start + n < goal <= self.end + n
    }

    proof fn lemma_tag_rank(&self) {
    }

    fn tag_below(&self, other: &Self) -> (result: bool) {
        self.start > other.start || self.start == other.start && self.end > other.end
    }
}

impl RevWalkItemGenerationRange {
    /// Suppose sorted ranges `self, other`, merges them if they overlap or
    /// touch.
    pub fn try_merge_end(self, other: Self) -> (merged: Option<Self>)
        ensures
            match merged {
                Some(range) => {
                    &&& other.start <= self.end
                    &&& range.start == self.start
                    &&& range.end == (if self.end < other.end {
                        other.end
                    } else {
                        self.end
                    })
                },
                None => other.start > self.end,
            },
    {
        if other.start <= self.end {
            Some(
                RevWalkItemGenerationRange {
                    start: self.start,
                    end: if self.end < other.end {
                        other.end
                    } else {
                        self.end
                    },
                },
            )
        } else {
            None
        }
    }

    pub fn contains_end(self, end: u32) -> (result: bool)
        ensures
            result == self.hits(0, end as int),
    {
        self.start < end && end <= self.end
    }

    /// Whether the range has come up in a walk with the given goal.
    pub open spec fn sound(&self, goal: u32) -> bool {
        &&& self.start <= self.end
        &&& self.start == 0 || self.start < goal
    }
}

/// The merging of sorted ranges, if they can be merged, asks for what they ask
/// for.
proof fn lemma_merged(
    a: RevWalkItemGenerationRange,
    b: RevWalkItemGenerationRange,
    merged: RevWalkItemGenerationRange,
    n: int,
    goal: u32,
)
    requires
        a.sound(goal),
        b.sound(goal),
        a.start <= b.start <= a.end,
        merged.start == a.start,
        merged.end == (if a.end < b.end {
            b.end
        } else {
            a.end
        }),
    ensures
        merged.sound(goal),
        merged.hits(n, goal as int) <==> a.hits(n, goal as int) || b.hits(n, goal as int),
{
}

/// Whether all tags have come up in a walk with the given goal.
pub open spec fn tags_sound(
    items: Set<RevWalkWorkItem<RevWalkItemGenerationRange>>,
    goal: u32,
) -> bool {
    forall|x: u32, t: RevWalkItemGenerationRange| #[trigger]
        items.contains(wanted_item(x, t)) ==> t.sound(goal)
}

/// A walk that visits the nodes at distances in a range.
pub struct RevWalkGenerationRangeImpl<I> {
    pub index: I,
    pub queue: RevWalkQueue<RevWalkItemGenerationRange>,
    pub generation_end: u32,
}

/// Whether a path of a length in a range leads from a wanted key to a node.
pub open spec fn wanted_in_range(
    links: Map<u32, Seq<u32>>,
    items: Set<RevWalkWorkItem<AnyDistance>>,
    range: Range<u32>,
    p: u32,
) -> bool {
    exists|x: u32, n: nat|
        #![trigger is_wanted_key(items, x), path(links, x, p, n)]
        is_wanted_key(items, x) && path(links, x, p, n) && range.start <= n < range.end
}

/// The nodes at distances in a range from the wanted keys, but for those that
/// unwanted keys reach.
pub open spec fn in_generations(
    links: Map<u32, Seq<u32>>,
    items: Set<RevWalkWorkItem<AnyDistance>>,
    range: Range<u32>,
) -> Set<u32> {
    Set::new(
        |p: u32| wanted_in_range(links, items, range, p) && !bars(links, items, p),
    )
}

/// The nodes at distances in a range are those that the translated range asks
/// for.
proof fn lemma_translated(
    links: Map<u32, Seq<u32>>,
    items: Set<RevWalkWorkItem<AnyDistance>>,
    mapped: Set<RevWalkWorkItem<RevWalkItemGenerationRange>>,
    range: Range<u32>,
    t: RevWalkItemGenerationRange,
)
    requires
        t.start == 0,
        t.end == (if range.start < range.end {
            range.end - range.start
        } else {
            0
        }),
        forall|x: u32, v: RevWalkItemGenerationRange| #[trigger]
            mapped.contains(wanted_item(x, v)) <==> v == t && is_wanted_key(items, x),
        forall|x: u32| #[trigger]
            mapped.contains(unwanted_item(x)) <==> items.contains(unwanted_item(x)),
    ensures
        to_visit(links, mapped, range.end as int) == in_generations(links, items, range),
{
    let goal = range.end as int;
    assert forall|p: u32| bars(links, mapped, p) <==> bars(links, items, p) by {
        if bars(links, mapped, p) {
            let x = choose|x: u32|
                mapped.contains(#[trigger] unwanted_item::<RevWalkItemGenerationRange>(x))
                    && reaches(links, x, p);
            assert(items.contains(unwanted_item::<AnyDistance>(x)));
        }
        if bars(links, items, p) {
            let x = choose|x: u32|
                items.contains(#[trigger] unwanted_item::<AnyDistance>(x)) && reaches(
                    links,
                    x,
                    p,
                );
            assert(mapped.contains(unwanted_item::<RevWalkItemGenerationRange>(x)));
        }
    }
    assert forall|p: u32|
        wants(links, mapped, goal, p) <==> wanted_in_range(links, items, range, p) by {
        if wants(links, mapped, goal, p) {
            let (x, v, n) = choose|x: u32, v: RevWalkItemGenerationRange, n: nat|
                asks(links, mapped, goal, x, v, p, n);
            assert(mapped.contains(wanted_item(x, v)));
            assert(is_wanted_key(items, x));
        }
        if wanted_in_range(links, items, range, p) {
            let (x, n) = choose|x: u32, n: nat|
                #![trigger is_wanted_key(items, x), path(links, x, p, n)]
                is_wanted_key(items, x) && path(links, x, p, n) && range.start <= n < range.end;
            assert(mapped.contains(wanted_item(x, t)));
            assert(asks(links, mapped, goal, x, t, p, n));
        }
    }
    assert(to_visit(links, mapped, goal) =~= in_generations(links, items, range));
}

/// Whether a tag of the key `x` among the items asks for distance `n`.
pub open spec fn asked_at(
    items: Set<RevWalkWorkItem<RevWalkItemGenerationRange>>,
    x: u32,
    goal: int,
    n: int,
) -> bool {
    exists|t: RevWalkItemGenerationRange| #[trigger]
        items.contains(wanted_item(x, t)) && t.hits(n, goal)
}

/// Whether an item has the given key and a tag that asks for what `gen` asks
/// for, one step further.
pub open spec fn successor_item(
    key: u32,
    gen: RevWalkItemGenerationRange,
    goal: u32,
    item: RevWalkWorkItem<RevWalkItemGenerationRange>,
) -> bool {
    match item.state {
        RevWalkWorkItemState::Wanted(s) => {
            &&& item.pos == key
            &&& s.sound(goal)
            &&& forall|n: int|
                n >= 0 ==> (#[trigger] s.hits(n, goal as int) <==> gen.hits(n + 1, goal as int))
        },
        RevWalkWorkItemState::Unwanted => false,
    }
}

/// While the items of the key `x` are taken out of the queue: what is left in the
/// queue, the range that is pending, and whether the node is to be visited, tell
/// all that the items `cur` at the start told.
spec fn midway(
    links: Map<u32, Seq<u32>>,
    cur: Set<RevWalkWorkItem<RevWalkItemGenerationRange>>,
    q: Set<RevWalkWorkItem<RevWalkItemGenerationRange>>,
    x: u32,
    goal: u32,
    pending: RevWalkItemGenerationRange,
    some: bool,
) -> bool {
    &&& forall|item: RevWalkWorkItem<RevWalkItemGenerationRange>| #[trigger]
        cur.contains(item) && item.pos != x ==> q.contains(item)
    &&& forall|item: RevWalkWorkItem<RevWalkItemGenerationRange>| #[trigger]
        q.contains(item) ==> cur.contains(item) || derived_item(
            links,
            cur,
            x,
            goal as int,
            item,
        )
    &&& tags_sound(q, goal)
    &&& pending.sound(goal)
    &&& forall|n: int|
        n >= 0 && #[trigger] pending.hits(n, goal as int) ==> asked_at(cur, x, goal as int, n)
    &&& forall|t: RevWalkItemGenerationRange, n: int|
        cur.contains(wanted_item(x, t)) && #[trigger] t.hits(n, goal as int) && n >= 1
            ==> q.contains(wanted_item(x, t)) || pending.hits(n, goal as int) || passed_on(
            links,
            q,
            x,
            goal as int,
            n,
        )
    &&& some ==> asked_at(cur, x, goal as int, 0)
    &&& forall|t: RevWalkItemGenerationRange| #[trigger]
        cur.contains(wanted_item(x, t)) && t.hits(0, goal as int) ==> some || q.contains(
            wanted_item(x, t),
        )
    &&& forall|t: RevWalkItemGenerationRange| #[trigger]
        q.contains(wanted_item(x, t)) ==> t.start >= pending.start
}

/// Whether `after` is what is left of `before` when one item is taken out.
spec fn taken_out<T>(
    before: Set<RevWalkWorkItem<T>>,
    after: Set<RevWalkWorkItem<T>>,
    item: RevWalkWorkItem<T>,
) -> bool {
    &&& before.contains(item)
    &&& forall|other: RevWalkWorkItem<T>| #[trigger]
        after.contains(other) ==> before.contains(other)
    &&& forall|other: RevWalkWorkItem<T>| #[trigger]
        before.contains(other) && other != item ==> after.contains(other)
}

/// Whether `after` is `before` with what follows a range from the key `x` put
/// in.
spec fn enqueued(
    links: Map<u32, Seq<u32>>,
    before: Set<RevWalkWorkItem<RevWalkItemGenerationRange>>,
    after: Set<RevWalkWorkItem<RevWalkItemGenerationRange>>,
    x: u32,
    goal: u32,
    gen: RevWalkItemGenerationRange,
) -> bool {
    &&& forall|item: RevWalkWorkItem<RevWalkItemGenerationRange>| #[trigger]
        before.contains(item) ==> after.contains(item)
    &&& forall|item: RevWalkWorkItem<RevWalkItemGenerationRange>| #[trigger]
        after.contains(item) ==> before.contains(item) || exists|k: int|
            0 <= k < links[x].len() && #[trigger] successor_item(links[x][k], gen, goal, item)
    &&& forall|n: int|
        n >= 1 && #[trigger] gen.hits(n, goal as int) ==> passed_on(
            links,
            after,
            x,
            goal as int,
            n,
        )
}

/// What is passed on stays so while only items of the key itself are taken out.
proof fn lemma_passed_on(
    links: Map<u32, Seq<u32>>,
    before: Set<RevWalkWorkItem<RevWalkItemGenerationRange>>,
    after: Set<RevWalkWorkItem<RevWalkItemGenerationRange>>,
    x: u32,
    goal: int,
    n: int,
)
    requires
        descending(links),
        links.dom().contains(x),
        passed_on(links, before, x, goal, n),
        forall|item: RevWalkWorkItem<RevWalkItemGenerationRange>| #[trigger]
            before.contains(item) && item.pos != x ==> after.contains(item),
    ensures
        passed_on(links, after, x, goal, n),
{
    let s = choose|s: RevWalkItemGenerationRange| #[trigger]
        s.hits(n - 1, goal) && tagged_links(links, before, x, s);
    assert forall|k: int| 0 <= k < links[x].len() implies after.contains(
        wanted_item(#[trigger] links[x][k], s),
    ) by {
        assert(links[x][k] < x);
        assert(before.contains(wanted_item(links[x][k], s)));
    }
    assert(tagged_links(links, after, x, s));
}

/// Merging the range of an item that is taken out into the pending one.
proof fn lemma_merge_taken(
    links: Map<u32, Seq<u32>>,
    cur: Set<RevWalkWorkItem<RevWalkItemGenerationRange>>,
    q: Set<RevWalkWorkItem<RevWalkItemGenerationRange>>,
    rest: Set<RevWalkWorkItem<RevWalkItemGenerationRange>>,
    x: u32,
    goal: u32,
    pending: RevWalkItemGenerationRange,
    some: bool,
    gen: RevWalkItemGenerationRange,
    merged: RevWalkItemGenerationRange,
)
    requires
        descending(links),
        links.dom().contains(x),
        midway(links, cur, q, x, goal, pending, some),
        taken_out(q, rest, wanted_item(x, gen)),
        cur.contains(wanted_item(x, gen)),
        pending.start <= gen.start <= pending.end,
        merged.start == pending.start,
        merged.end == (if pending.end < gen.end {
            gen.end
        } else {
            pending.end
        }),
    ensures
        midway(links, cur, rest, x, goal, merged, some || gen.hits(0, goal as int)),
{
    let g = goal as int;
    assert(q.contains(wanted_item(x, gen)));
    assert(gen.sound(goal));
    assert forall|n: int| n >= 0 && #[trigger] merged.hits(n, g) implies asked_at(cur, x, g, n) by {
        lemma_merged(pending, gen, merged, n, goal);
        if !pending.hits(n, g) {
            assert(cur.contains(wanted_item(x, gen)) && gen.hits(n, g));
        }
    }
    assert forall|t: RevWalkItemGenerationRange, n: int|
        cur.contains(wanted_item(x, t)) && #[trigger] t.hits(n, g) && n >= 1 implies rest.contains(
        wanted_item(x, t),
    ) || merged.hits(n, g) || passed_on(links, rest, x, g, n) by {
        lemma_merged(pending, gen, merged, n, goal);
        if passed_on(links, q, x, g, n) {
            lemma_passed_on(links, q, rest, x, g, n);
        }
    }
    if some || gen.hits(0, g) {
        assert(cur.contains(wanted_item(x, gen)));
    }
}

/// Queueing what follows the pending range, which gives way to the range of an
/// item that is taken out.
proof fn lemma_flush_taken(
    links: Map<u32, Seq<u32>>,
    cur: Set<RevWalkWorkItem<RevWalkItemGenerationRange>>,
    q: Set<RevWalkWorkItem<RevWalkItemGenerationRange>>,
    rest: Set<RevWalkWorkItem<RevWalkItemGenerationRange>>,
    after: Set<RevWalkWorkItem<RevWalkItemGenerationRange>>,
    x: u32,
    goal: u32,
    pending: RevWalkItemGenerationRange,
    some: bool,
    gen: RevWalkItemGenerationRange,
)
    requires
        descending(links),
        links.dom().contains(x),
        midway(links, cur, q, x, goal, pending, some),
        taken_out(q, rest, wanted_item(x, gen)),
        cur.contains(wanted_item(x, gen)),
        enqueued(links, rest, after, x, goal, pending),
        forall|t: RevWalkItemGenerationRange| #[trigger]
            q.contains(wanted_item(x, t)) ==> t.start >= gen.start,
    ensures
        midway(links, cur, after, x, goal, gen, some || gen.hits(0, goal as int)),
{
    let g = goal as int;
    assert(q.contains(wanted_item(x, gen)));
    lemma_derived(links, cur, rest, after, x, goal, pending);
    assert forall|n: int| n >= 0 && #[trigger] gen.hits(n, g) implies asked_at(cur, x, g, n) by {
        assert(cur.contains(wanted_item(x, gen)) && gen.hits(n, g));
    }
    assert forall|t: RevWalkItemGenerationRange, n: int|
        cur.contains(wanted_item(x, t)) && #[trigger] t.hits(n, g) && n >= 1 implies after.contains(
        wanted_item(x, t),
    ) || gen.hits(n, g) || passed_on(links, after, x, g, n) by {
        if passed_on(links, q, x, g, n) {
            lemma_passed_on(links, q, after, x, g, n);
        }
        if t != gen && q.contains(wanted_item(x, t)) {
            assert(rest.contains(wanted_item(x, t)));
        }
    }
    assert forall|t: RevWalkItemGenerationRange| #[trigger]
        after.contains(wanted_item(x, t)) implies t.start >= gen.start by {
        assert(q.contains(wanted_item(x, t)));
    }
    if some || gen.hits(0, g) {
        assert(cur.contains(wanted_item(x, gen)));
    }
    assert forall|t: RevWalkItemGenerationRange| #[trigger]
        cur.contains(wanted_item(x, t)) && t.hits(0, g) implies some || gen.hits(0, g)
        || after.contains(wanted_item(x, t)) by {
        if t != gen && q.contains(wanted_item(x, t)) {
            assert(rest.contains(wanted_item(x, t)));
        }
    }
}

/// Items for the nodes that a key links to have smaller keys.
proof fn lemma_derived_key(
    links: Map<u32, Seq<u32>>,
    cur: Set<RevWalkWorkItem<RevWalkItemGenerationRange>>,
    x: u32,
    goal: int,
    item: RevWalkWorkItem<RevWalkItemGenerationRange>,
)
    requires
        descending(links),
        links.dom().contains(x),
        derived_item(links, cur, x, goal, item),
    ensures
        links.dom().contains(item.pos),
        item.pos < x,
{
    let (k, s) = choose|k: int, s: RevWalkItemGenerationRange|
        0 <= k < links[x].len() && item == #[trigger] wanted_item(links[x][k], s) && derived_tag(
            cur,
            x,
            goal,
            s,
        );
    assert(links[x][k] < x);
}

/// What follows the pending range asks for nothing new, and has smaller keys.
proof fn lemma_derived(
    links: Map<u32, Seq<u32>>,
    cur: Set<RevWalkWorkItem<RevWalkItemGenerationRange>>,
    before: Set<RevWalkWorkItem<RevWalkItemGenerationRange>>,
    after: Set<RevWalkWorkItem<RevWalkItemGenerationRange>>,
    x: u32,
    goal: u32,
    pending: RevWalkItemGenerationRange,
)
    requires
        descending(links),
        links.dom().contains(x),
        enqueued(links, before, after, x, goal, pending),
        tags_sound(before, goal),
        forall|n: int|
            n >= 0 && #[trigger] pending.hits(n, goal as int) ==> asked_at(
                cur,
                x,
                goal as int,
                n,
            ),
    ensures
        tags_sound(after, goal),
        forall|item: RevWalkWorkItem<RevWalkItemGenerationRange>| #[trigger]
            after.contains(item) ==> before.contains(item) || item.pos < x && derived_item(
                links,
                cur,
                x,
                goal as int,
                item,
            ),
{
    let g = goal as int;
    assert forall|item: RevWalkWorkItem<RevWalkItemGenerationRange>| #[trigger]
        after.contains(item) && !before.contains(item) implies item.pos < x && derived_item(
        links,
        cur,
        x,
        g,
        item,
    ) by {
        let k = choose|k: int|
            0 <= k < links[x].len() && #[trigger] successor_item(
                links[x][k],
                pending,
                goal,
                item,
            );
        assert(links[x][k] < x);
        match item.state {
            RevWalkWorkItemState::Wanted(s) => {
                assert forall|n: int| #[trigger] s.hits(n, g) && n >= 0 implies exists|
                    t: RevWalkItemGenerationRange,
                | #[trigger]
                    cur.contains(wanted_item(x, t)) && t.hits(n + 1, g) by {
                    assert(pending.hits(n + 1, g));
                    assert(asked_at(cur, x, g, n + 1));
                }
                assert(derived_tag(cur, x, g, s));
                assert(item == wanted_item(links[x][k], s));
            },
            RevWalkWorkItemState::Unwanted => {},
        }
    }
    assert forall|y: u32, t: RevWalkItemGenerationRange| #[trigger]
        after.contains(wanted_item(y, t)) implies t.sound(goal) by {
        let item = wanted_item(y, t);
        if !before.contains(item) {
            let k = choose|k: int|
                0 <= k < links[x].len() && #[trigger] successor_item(
                    links[x][k],
                    pending,
                    goal,
                    item,
                );
        }
    }
}

impl<'a, I: RevWalkIndex<'a>> RevWalkGenerationRangeImpl<I> {
    /// Whether the keys in the queue are nodes of a valid index, and the tags
    /// have come up in the walk.
    pub open spec fn wf(&self) -> bool {
        &&& self.index.walkable()
        &&& self.queue.wf()
        &&& keys_up_to(self.index.links(), held(self.queue@), u32::MAX as int)
        &&& tags_sound(held(self.queue@), self.generation_end)
    }

    /// The keys of the nodes that are yet to be visited.
    pub open spec fn keys(&self) -> Set<u32> {
        to_visit(self.index.links(), held(self.queue@), self.generation_end as int)
    }

    /// A walk that visits the nodes at distances in a range from the wanted
    /// keys of a queue.
    pub fn new(
        index: I,
        queue: RevWalkQueue<AnyDistance>,
        generation_range: Range<u32>,
    ) -> (walk: Self)
        requires
            index.walkable(),
            queue.wf(),
            keys_up_to(index.links(), held(queue@), u32::MAX as int),
        ensures
            walk.wf(),
            walk.index == index,
            walk.keys() == in_generations(index.links(), held(queue@), generation_range),
    {
        // Translate the filter range to item ranges so that overlapped ranges
        // can be merged later.
        //
        // Example: `generation_range = 1..4`
        //     (given)                          (translated)
        //     0 1 2 3 4                        0 1 2 3 4
        //       *=====o  generation_range              +  generation_end
        //     + :     :  item's generation     o=====* :  item's range
        let item_range = RevWalkItemGenerationRange {
            start: 0,
            end: if generation_range.start < generation_range.end {
                generation_range.end - generation_range.start
            } else {
                0
            },
        };
        let ghost items = held(queue@);
        let to_range = |_any: AnyDistance| -> (range: RevWalkItemGenerationRange)
            ensures
                range == item_range,
            { item_range };
        let ghost f = to_range;
        let mapped_queue = queue.map_wanted(to_range);
        proof {
            lemma_same_tag(f, queue@, mapped_queue@, item_range);
            let mapped = held(mapped_queue@);
            assert forall|x: u32, v: RevWalkItemGenerationRange| #[trigger]
                mapped.contains(wanted_item(x, v)) <==> v == item_range && is_wanted_key(
                items,
                x,
            ) by {
                if is_wanted_key(items, x) {
                    let t = choose|t: AnyDistance| items.contains(#[trigger] wanted_item(x, t));
                    assert(queue@.contains(wanted_item(x, t)));
                }
                if mapped_queue@.contains(wanted_item(x, v)) {
                    let t = choose|t: AnyDistance| #[trigger]
                        queue@.contains(wanted_item(x, t));
                    assert(items.contains(wanted_item(x, t)));
                }
            }
            lemma_translated(index.links(), items, mapped, generation_range, item_range);
            assert forall|item: RevWalkWorkItem<RevWalkItemGenerationRange>| #[trigger]
                mapped.contains(item) implies index.links().dom().contains(item.pos) && item.pos
                <= u32::MAX by {
                match item.state {
                    RevWalkWorkItemState::Wanted(v) => {
                        assert(item == wanted_item(item.pos, v));
                        let t = choose|t: AnyDistance|
                            items.contains(#[trigger] wanted_item(item.pos, t));
                    },
                    RevWalkWorkItemState::Unwanted => {
                        assert(item == unwanted_item::<RevWalkItemGenerationRange>(item.pos));
                        assert(items.contains(unwanted_item(item.pos)));
                    },
                }
            }
        }
        RevWalkGenerationRangeImpl {
            index,
            queue: mapped_queue,
            generation_end: generation_range.end,
        }
    }

    /// Visits the next node, and returns its key and its commit.
    pub fn next(&mut self) -> (result: Option<(u32, IndexEntry<'a>)>)
        requires
            old(self).wf(),
        ensures
            final(self).wf(),
            final(self).index == old(self).index,
            match result {
                Some((x, entry)) => {
                    &&& entry.is_in(old(self).index.commits())
                    &&& entry.place() == old(self).index.place(x)
                    &&& old(self).keys().contains(x)
                    &&& forall|p: u32| #[trigger] old(self).keys().contains(p) ==> p <= x
                    &&& final(self).keys() == old(self).keys().remove(x)
                },
                None => old(self).keys() == Set::<u32>::empty() && final(self).keys() == Set::<
                    u32,
                >::empty(),
            },
    {
        let ghost links = self.index.links();
        let ghost index = self.index;
        let ghost goal = self.generation_end;
        let ghost g = goal as int;
        let ghost all = self.keys();
        let ghost mut bound: int = u32::MAX as int;
        proof {
            self.index.lemma_walkable();
        }
        loop
            invariant
                self.wf(),
                self.index == index,
                index == old(self).index,
                links == index.links(),
                descending(links),
                self.generation_end == goal,
                g == goal as int,
                all == old(self).keys(),
                -1 <= bound <= u32::MAX,
                keys_up_to(links, held(self.queue@), bound),
                self.keys() == all,
            decreases bound + 1,
        {
            let ghost items = self.queue@;
            let ghost cur = held(items);
            let item = match self.queue.pop() {
                Some(item) => item,
                None => {
                    proof {
                        lemma_no_items(items);
                        lemma_exhausted(links, cur, g);
                    }
                    return None;
                },
            };
            let x: u32 = item.pos;
            let ghost rest = held(self.queue@);
            proof {
                lemma_removed(items, item);
                assert(cur.contains(item));
                assert forall|other: RevWalkWorkItem<RevWalkItemGenerationRange>| #[trigger]
                    items.contains(other) implies other.pos <= x by {
                    item.lemma_rank(&other);
                }
                assert(keys_up_to(links, cur, x as int));
                assert forall|other: RevWalkWorkItem<RevWalkItemGenerationRange>| #[trigger]
                    rest.contains(other) implies links.dom().contains(other.pos) && other.pos
                    <= x by {
                    assert(cur.contains(other));
                }
                assert forall|y: u32, t: RevWalkItemGenerationRange| #[trigger]
                    rest.contains(wanted_item(y, t)) implies t.sound(goal) by {
                    assert(cur.contains(wanted_item(y, t)));
                }
            }
            match item.state {
                RevWalkWorkItemState::Wanted(first) => {
                    proof {
                        assert(item == wanted_item(x, first));
                        assert(cur =~= rest.insert(item));
                        let other = unwanted_item::<RevWalkItemGenerationRange>(x);
                        if cur.contains(other) {
                            assert(items.contains(other));
                            other.lemma_rank(&item);
                        }
                        assert forall|t: RevWalkItemGenerationRange| #[trigger]
                            rest.contains(wanted_item(x, t)) implies t.start >= first.start by {
                            let other = wanted_item(x, t);
                            assert(items.contains(other));
                            other.lemma_rank(&item);
                        }
                    }
                    let (entry, some_in_range) = self.visit_wanted(x, first);
                    proof {
                        let after = held(self.queue@);
                        lemma_wanted_step(links, cur, after, g, x);
                        assert forall|p: u32| #[trigger] all.contains(p) implies p <= x by {
                            lemma_visit_bound(links, cur, g, x as int, p);
                        }
                    }
                    if some_in_range {
                        return Some((x, entry));
                    }
                    proof {
                        assert(all.remove(x) =~= all);
                        bound = x - 1;
                    }
                },
                RevWalkWorkItemState::Unwanted => {
                    assert(item == unwanted_item::<RevWalkItemGenerationRange>(x));
                    if self.queue.is_exhausted() {
                        proof {
                            assert forall|other: RevWalkWorkItem<RevWalkItemGenerationRange>|
                                #[trigger]
                                cur.contains(other) implies other.state is Unwanted by {
                                if other != item {
                                    assert(self.queue@.contains(other));
                                }
                            }
                            lemma_exhausted(links, cur, g);
                            lemma_exhausted(links, rest, g);
                        }
                        return None;
                    }
                    let entry = self.index.entry_by_key(x);
                    let ghost popped = self.queue@;
                    self.queue.skip_while_eq(x);
                    let ghost skipped = self.queue@;
                    let keys = self.index.adjacent_keys(x, &entry);
                    self.queue.extend_unwanted(&keys);
                    proof {
                        lemma_without_key(popped, x);
                        lemma_unwanted_added(skipped, keys@);
                        let after = held(self.queue@);
                        lemma_unwanted_step(links, cur, after, g, x);
                        assert forall|y: u32, t: RevWalkItemGenerationRange| #[trigger]
                            after.contains(wanted_item(y, t)) implies t.sound(goal) by {
                            assert(cur.contains(wanted_item(y, t)));
                        }
                        bound = x - 1;
                    }
                },
            }
        }
    }

    /// Queues the nodes that a node links to.
    fn enqueue_wanted_adjacents(
        &mut self,
        x: u32,
        entry: &IndexEntry<'a>,
        gen: RevWalkItemGenerationRange,
    )
        requires
            old(self).index.walkable(),
            old(self).queue.wf(),
            old(self).index.links().dom().contains(x),
            entry.is_in(old(self).index.commits()),
            entry.place() == old(self).index.place(x),
            gen.sound(old(self).generation_end),
        ensures
            final(self).index == old(self).index,
            final(self).generation_end == old(self).generation_end,
            final(self).queue.wf(),
            ({
                let links = old(self).index.links();
                let before = held(old(self).queue@);
                let after = held(final(self).queue@);
                let goal = old(self).generation_end as int;
                &&& forall|item: RevWalkWorkItem<RevWalkItemGenerationRange>| #[trigger]
                    before.contains(item) ==> after.contains(item)
                &&& forall|item: RevWalkWorkItem<RevWalkItemGenerationRange>| #[trigger]
                    after.contains(item) ==> before.contains(item) || exists|k: int|
                        0 <= k < links[x].len() && #[trigger] successor_item(
                            links[x][k],
                            gen,
                            old(self).generation_end,
                            item,
                        )
                &&& forall|n: int|
                    n >= 1 && #[trigger] gen.hits(n, goal) ==> passed_on(links, after, x, goal, n)
            }),
            !old(self).index.links()[x].contains(x) ==> count_at(final(self).queue@, x)
                == count_at(old(self).queue@, x),
    {
        let ghost links = self.index.links();
        let ghost goal = self.generation_end as int;
        // `gen.start` is counted up from 0 and stays below the end
        if gen.start + 1 >= self.generation_end {
            return;
        }
        let succ = RevWalkItemGenerationRange {
            start: gen.start + 1,
            end: if gen.end < u32::MAX {
                gen.end + 1
            } else {
                u32::MAX
            },
        };
        let keys = self.index.adjacent_keys(x, entry);
        self.queue.extend_wanted(&keys, succ);
        proof {
            lemma_wanted_added(old(self).queue@, keys@, succ);
            let after = held(self.queue@);
            assert forall|item: RevWalkWorkItem<RevWalkItemGenerationRange>| #[trigger]
                after.contains(item) implies held(old(self).queue@).contains(item) || exists|k: int|
                0 <= k < links[x].len() && #[trigger] successor_item(
                    links[x][k],
                    gen,
                    old(self).generation_end,
                    item,
                ) by {
                if !held(old(self).queue@).contains(item) {
                    let k = choose|k: int|
                        0 <= k < keys@.len() && item == wanted_item(#[trigger] keys@[k], succ);
                    assert(successor_item(links[x][k], gen, old(self).generation_end, item));
                }
            }
            assert forall|n: int| n >= 1 && #[trigger] gen.hits(n, goal) implies passed_on(
                links,
                after,
                x,
                goal,
                n,
            ) by {
                assert(succ.hits(n - 1, goal));
                assert forall|k: int| 0 <= k < links[x].len() implies after.contains(
                    wanted_item(#[trigger] links[x][k], succ),
                ) by {
                    assert(keys@[k] == links[x][k]);
                }
                assert(tagged_links(links, after, x, succ));
            }
        }
    }

    /// Takes all items of a key out of the queue, the first of which was taken
    /// out already, and queues the nodes that it links to. Returns the commit,
    /// and whether it is to be visited.
    fn visit_wanted(&mut self, x: u32, first: RevWalkItemGenerationRange) -> (result: (
        IndexEntry<'a>,
        bool,
    ))
        requires
            old(self).index.walkable(),
            old(self).queue.wf(),
            old(self).index.links().dom().contains(x),
            keys_up_to(old(self).index.links(), held(old(self).queue@), x as int),
            !held(old(self).queue@).contains(unwanted_item(x)),
            tags_sound(held(old(self).queue@), old(self).generation_end),
            first.sound(old(self).generation_end),
            forall|t: RevWalkItemGenerationRange| #[trigger]
                held(old(self).queue@).contains(wanted_item(x, t)) ==> t.start >= first.start,
        ensures
            final(self).index == old(self).index,
            final(self).generation_end == old(self).generation_end,
            final(self).queue.wf(),
            result.0.is_in(old(self).index.commits()),
            result.0.place() == old(self).index.place(x),
            tags_sound(held(final(self).queue@), old(self).generation_end),
            ({
                let links = old(self).index.links();
                let cur = held(old(self).queue@).insert(wanted_item(x, first));
                let after = held(final(self).queue@);
                let goal = old(self).generation_end as int;
                &&& result.1 <==> asked_at(cur, x, goal, 0)
                &&& forall|item: RevWalkWorkItem<RevWalkItemGenerationRange>| #[trigger]
                    cur.contains(item) && item.pos != x ==> after.contains(item)
                &&& forall|item: RevWalkWorkItem<RevWalkItemGenerationRange>| #[trigger]
                    after.contains(item) ==> cur.contains(item) && item.pos != x || derived_item(
                        links,
                        cur,
                        x,
                        goal,
                        item,
                    )
                &&& forall|t: RevWalkItemGenerationRange, n: int|
                    cur.contains(wanted_item(x, t)) && #[trigger] t.hits(n, goal) && n >= 1
                        ==> passed_on(links, after, x, goal, n)
            }),
    {
        let ghost links = self.index.links();
        let ghost index = self.index;
        let ghost cur = held(self.queue@).insert(wanted_item(x, first));
        let ghost goal = self.generation_end;
        let ghost g = goal as int;
        proof {
            self.index.lemma_walkable();
        }
        let entry = self.index.entry_by_key(x);
        let mut pending_gen = first;
        let mut some_in_range = pending_gen.contains_end(self.generation_end);
        proof {
            let q = held(self.queue@);
            assert forall|n: int| n >= 0 && #[trigger] first.hits(n, g) implies asked_at(
                cur,
                x,
                g,
                n,
            ) by {
                assert(cur.contains(wanted_item(x, first)) && first.hits(n, g));
            }
            if first.hits(0, g) {
                assert(cur.contains(wanted_item(x, first)));
            }
            assert(midway(links, cur, q, x, goal, pending_gen, some_in_range));
        }
        loop
            invariant
                self.index == index,
                self.index.walkable(),
                links == index.links(),
                descending(links),
                links.dom().contains(x),
                self.generation_end == goal,
                g == goal as int,
                self.queue.wf(),
                entry.is_in(index.commits()),
                entry.place() == index.place(x),
                keys_up_to(links, cur, x as int),
                !cur.contains(unwanted_item(x)),
                midway(links, cur, held(self.queue@), x, goal, pending_gen, some_in_range),
            ensures
                forall|item: RevWalkWorkItem<RevWalkItemGenerationRange>| #[trigger]
                    self.queue@.contains(item) ==> item.pos != x,
            decreases count_at(self.queue@, x),
        {
            let ghost items = self.queue@;
            let ghost q = held(items);
            assert forall|other: RevWalkWorkItem<RevWalkItemGenerationRange>| #[trigger]
                items.contains(other) implies other.pos <= x && (other.pos == x
                ==> cur.contains(other)) by {
                assert(q.contains(other));
                if !cur.contains(other) {
                    lemma_derived_key(links, cur, x, g, other);
                }
            }
            match self.queue.pop_eq(x) {
                Some(item) => {
                    let ghost rest = held(self.queue@);
                    proof {
                        lemma_removed(items, item);
                        assert(cur.contains(item));
                    }
                    match item.state {
                        RevWalkWorkItemState::Wanted(gen) => {
                            proof {
                                assert(item == wanted_item(x, gen));
                                assert(taken_out(q, rest, item));
                                assert(q.contains(wanted_item(x, gen)));
                                assert forall|t: RevWalkItemGenerationRange| #[trigger]
                                    q.contains(wanted_item(x, t)) implies t.start >= gen.start by {
                                    let other = wanted_item(x, t);
                                    assert(items.contains(other));
                                    other.lemma_rank(&item);
                                }
                                assert(!links[x].contains(x));
                            }
                            let in_range = gen.contains_end(self.generation_end);
                            match pending_gen.try_merge_end(gen) {
                                Some(merged) => {
                                    proof {
                                        lemma_merge_taken(
                                            links,
                                            cur,
                                            q,
                                            rest,
                                            x,
                                            goal,
                                            pending_gen,
                                            some_in_range,
                                            gen,
                                            merged,
                                        );
                                    }
                                    pending_gen = merged;
                                },
                                None => {
                                    self.enqueue_wanted_adjacents(x, &entry, pending_gen);
                                    proof {
                                        lemma_flush_taken(
                                            links,
                                            cur,
                                            q,
                                            rest,
                                            held(self.queue@),
                                            x,
                                            goal,
                                            pending_gen,
                                            some_in_range,
                                            gen,
                                        );
                                    }
                                    pending_gen = gen;
                                },
                            }
                            some_in_range = some_in_range || in_range;
                        },
                        RevWalkWorkItemState::Unwanted => {
                            proof {
                                assert(item == unwanted_item::<RevWalkItemGenerationRange>(x));
                                assert(false);
                            }
                        },
                    }
                },
                None => {
                    break;
                },
            }
        }
        let ghost q = held(self.queue@);
        self.enqueue_wanted_adjacents(x, &entry, pending_gen);
        proof {
            let after = held(self.queue@);
            lemma_derived(links, cur, q, after, x, goal, pending_gen);
            assert forall|t: RevWalkItemGenerationRange, n: int|
                cur.contains(wanted_item(x, t)) && #[trigger] t.hits(n, g) && n >= 1 implies passed_on(
                links,
                after,
                x,
                g,
                n,
            ) by {
                if passed_on(links, q, x, g, n) {
                    lemma_passed_on(links, q, after, x, g, n);
                }
            }
            assert forall|item: RevWalkWorkItem<RevWalkItemGenerationRange>| #[trigger]
                after.contains(item) implies cur.contains(item) && item.pos != x || derived_item(
                links,
                cur,
                x,
                g,
                item,
            ) by {
                if q.contains(item) {
                    assert(item.pos != x);
                }
            }
        }
        (entry, some_in_range)
    }
}

} // verus!
