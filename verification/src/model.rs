//! What an index holds, as a mathematical value: a sequence of commits in which
//! each comes after its parents.

use crate::paths::{descending, lemma_first_link, path};
use vstd::prelude::*;

verus! {

/// One commit, as an index knows it. The parents are given by their places in
/// the sequence.
#[verifier::ext_equal]
pub struct Entry {
    pub commit_id: Seq<u8>,
    pub change_id: Seq<u8>,
    pub generation: u32,
    pub parents: Seq<u32>,
}

/// The links from each commit to its parents, by position.
pub open spec fn parent_links(g: Seq<Entry>) -> Map<u32, Seq<u32>> {
    Map::new(|p: u32| p < g.len(), |p: u32| g[p as int].parents)
}

/// The generation number of a commit with the given parents: 0 without
/// parents, else one more than the greatest generation number of a parent.
pub open spec fn generation_above(g: Seq<Entry>, parents: Seq<u32>) -> int
    decreases parents.len(),
{
    if parents.len() == 0 {
        0
    } else {
        let rest = generation_above(g, parents.drop_last());
        let last = g[parents.last() as int].generation + 1;
        if rest < last {
            last
        } else {
            rest
        }
    }
}

/// Whether parents come before their children.
pub open spec fn parents_first(g: Seq<Entry>) -> bool {
    forall|i: int, k: int|
        #![trigger g[i].parents[k]]
        0 <= i < g.len() && 0 <= k < g[i].parents.len() ==> g[i].parents[k] < i
}

/// Whether every generation number is right.
pub open spec fn generations_right(g: Seq<Entry>) -> bool {
    forall|i: int|
        0 <= i < g.len() ==> (#[trigger] g[i]).generation == generation_above(g, g[i].parents)
}

/// Whether no two commits have the same id.
pub open spec fn ids_distinct(g: Seq<Entry>) -> bool {
    forall|i: int, j: int|
        #![trigger g[i].commit_id, g[j].commit_id]
        0 <= i < j < g.len() ==> g[i].commit_id != g[j].commit_id
}

/// Whether the number of parents of each commit fits in 32 bits.
pub open spec fn parents_countable(g: Seq<Entry>) -> bool {
    forall|i: int| 0 <= i < g.len() ==> (#[trigger] g[i]).parents.len() <= u32::MAX
}

/// Whether a sequence of commits is a commit graph that an index can hold.
pub open spec fn valid_graph(g: Seq<Entry>) -> bool {
    &&& g.len() <= u32::MAX
    &&& parents_first(g)
    &&& generations_right(g)
    &&& ids_distinct(g)
    &&& parents_countable(g)
}

/// Whether the commit with the given id is at place `i`.
pub open spec fn is_at(g: Seq<Entry>, id: Seq<u8>, i: int) -> bool {
    0 <= i < g.len() && g[i].commit_id == id
}

/// Whether a commit with the given id is there.
pub open spec fn has_commit(g: Seq<Entry>, id: Seq<u8>) -> bool {
    exists|i: int| is_at(g, id, i)
}

/// The place of the commit with the given id.
pub open spec fn place_of(g: Seq<Entry>, id: Seq<u8>) -> int {
    choose|i: int| is_at(g, id, i)
}

/// The ids of all commits.
pub open spec fn commit_ids(g: Seq<Entry>) -> Set<Seq<u8>> {
    Set::new(|id: Seq<u8>| has_commit(g, id))
}

/// The places of the commits with the given ids.
pub open spec fn places_of(g: Seq<Entry>, ids: Seq<Seq<u8>>) -> Seq<u32> {
    ids.map_values(|id: Seq<u8>| place_of(g, id) as u32)
}

/// The ids of the commits at the given places.
pub open spec fn ids_at(g: Seq<Entry>, places: Seq<u32>) -> Seq<Seq<u8>> {
    places.map_values(|p: u32| g[p as int].commit_id)
}

/// Whether commits with all of the given ids are there.
pub open spec fn has_all(g: Seq<Entry>, ids: Seq<Seq<u8>>) -> bool {
    forall|k: int| 0 <= k < ids.len() ==> has_commit(g, #[trigger] ids[k])
}

/// The commit graph after a commit was added. A commit that is there already
/// is not added again.
pub open spec fn with_commit(
    g: Seq<Entry>,
    commit_id: Seq<u8>,
    change_id: Seq<u8>,
    parent_ids: Seq<Seq<u8>>,
) -> Seq<Entry> {
    if has_commit(g, commit_id) {
        g
    } else {
        let parents = places_of(g, parent_ids);
        let generation = generation_above(g, parents) as u32;
        g.push(Entry { commit_id, change_id, generation, parents })
    }
}

/// The commit graph `g` after the commits of `other` from place `from` up to
/// place `to` were added, in their order, with the same parents by id.
pub open spec fn with_range(g: Seq<Entry>, other: Seq<Entry>, from: int, to: int) -> Seq<Entry>
    decreases to - from,
{
    if to <= from {
        g
    } else {
        let i = to - 1;
        with_commit(
            with_range(g, other, from, i),
            other[i].commit_id,
            other[i].change_id,
            ids_at(other, other[i].parents),
        )
    }
}

/// Whether the commits of `other` from place `from` on can be added to `g` in
/// their order: each is there already, or its parents are there or among those
/// to be added.
pub open spec fn parents_at_hand(g: Seq<Entry>, other: Seq<Entry>, from: int) -> bool {
    forall|i: int, k: int|
        #![trigger other[i].parents[k]]
        from <= i < other.len() && 0 <= k < other[i].parents.len() && !has_commit(
            g,
            other[i].commit_id,
        ) && other[i].parents[k] < from ==> has_commit(
            g,
            other[other[i].parents[k] as int].commit_id,
        )
}

/// Ids are distinct, so a commit is at one place only.
pub proof fn lemma_place(g: Seq<Entry>, i: int)
    requires
        ids_distinct(g),
        0 <= i < g.len(),
    ensures
        has_commit(g, g[i].commit_id),
        place_of(g, g[i].commit_id) == i,
{
    let id = g[i].commit_id;
    assert(is_at(g, id, i));
    let j = place_of(g, id);
    assert(is_at(g, id, j));
    if i < j {
        assert(g[i].commit_id != g[j].commit_id);
    }
    if j < i {
        assert(g[j].commit_id != g[i].commit_id);
    }
}

/// The generation number bounds those of the parents from above, tightly.
pub proof fn lemma_generation_above(g: Seq<Entry>, parents: Seq<u32>)
    ensures
        generation_above(g, parents) >= 0,
        forall|k: int|
            0 <= k < parents.len() ==> g[#[trigger] parents[k] as int].generation
                < generation_above(g, parents),
        parents.len() > 0 ==> exists|k: int|
            0 <= k < parents.len() && g[#[trigger] parents[k] as int].generation + 1
                == generation_above(g, parents),
    decreases parents.len(),
{
    if parents.len() > 0 {
        let rest = parents.drop_last();
        lemma_generation_above(g, rest);
        assert forall|k: int| 0 <= k < parents.len() implies g[#[trigger] parents[k] as int].generation
            < generation_above(g, parents) by {
            if k < rest.len() {
                assert(rest[k] == parents[k]);
            }
        }
        if generation_above(g, rest) < g[parents.last() as int].generation + 1 {
            let k = parents.len() - 1;
            assert(g[parents[k] as int].generation + 1 == generation_above(g, parents));
        } else {
            let k = choose|k: int|
                0 <= k < rest.len() && g[#[trigger] rest[k] as int].generation + 1
                    == generation_above(g, rest);
            assert(g[parents[k] as int].generation + 1 == generation_above(g, parents));
        }
    }
}

/// Only the commits that are parents matter for a generation number.
pub proof fn lemma_generation_prefix(g: Seq<Entry>, h: Seq<Entry>, parents: Seq<u32>)
    requires
        g.len() <= h.len(),
        forall|i: int| 0 <= i < g.len() ==> g[i] == h[i],
        forall|k: int| 0 <= k < parents.len() ==> #[trigger] parents[k] < g.len(),
    ensures
        generation_above(g, parents) == generation_above(h, parents),
    decreases parents.len(),
{
    if parents.len() > 0 {
        let rest = parents.drop_last();
        assert forall|k: int| 0 <= k < rest.len() implies #[trigger] rest[k] < g.len() by {
            assert(rest[k] == parents[k]);
        }
        lemma_generation_prefix(g, h, rest);
        assert(parents[parents.len() - 1] < g.len());
    }
}

/// A generation number is no greater than the position.
pub proof fn lemma_generation_bound(g: Seq<Entry>, i: int)
    requires
        parents_first(g),
        generations_right(g),
        0 <= i < g.len(),
    ensures
        g[i].generation <= i,
    decreases i,
{
    lemma_generation_above(g, g[i].parents);
    if g[i].parents.len() > 0 {
        let k = choose|k: int|
            0 <= k < g[i].parents.len() && g[#[trigger] g[i].parents[k] as int].generation + 1
                == generation_above(g, g[i].parents);
        lemma_generation_bound(g, g[i].parents[k] as int);
    }
}

/// In a valid graph the links to parents go down.
pub proof fn lemma_links_descend(g: Seq<Entry>)
    requires
        parents_first(g),
    ensures
        descending(parent_links(g)),
{
    let links = parent_links(g);
    assert forall|p: u32, k: int|
        #![trigger links[p][k]]
        links.dom().contains(p) && 0 <= k < links[p].len() implies links.dom().contains(links[p][k])
        && links[p][k] < p by {
        assert(g[p as int].parents[k] < p);
    }
}

/// Generation numbers go down along each path to an ancestor, by at least the
/// length of the path.
pub proof fn lemma_generation_path(g: Seq<Entry>, from: u32, to: u32, n: nat)
    requires
        parents_first(g),
        generations_right(g),
        from < g.len(),
        path(parent_links(g), from, to, n),
    ensures
        to < g.len(),
        g[to as int].generation + n <= g[from as int].generation,
    decreases n,
{
    if n > 0 {
        let links = parent_links(g);
        let k = lemma_first_link(links, from, to, n);
        let p = links[from][k];
        assert(g[from as int].parents[k] < from);
        lemma_generation_above(g, g[from as int].parents);
        lemma_generation_path(g, p, to, (n - 1) as nat);
    }
}

/// What adding a commit keeps: the graph stays valid, the commits that were
/// there stay at their places, and the commit is there afterwards.
pub proof fn lemma_with_commit(
    g: Seq<Entry>,
    commit_id: Seq<u8>,
    change_id: Seq<u8>,
    parent_ids: Seq<Seq<u8>>,
)
    requires
        valid_graph(g),
        g.len() < u32::MAX,
        has_all(g, parent_ids),
        parent_ids.len() <= u32::MAX,
    ensures
        valid_graph(with_commit(g, commit_id, change_id, parent_ids)),
        g.is_prefix_of(with_commit(g, commit_id, change_id, parent_ids)),
        has_commit(with_commit(g, commit_id, change_id, parent_ids), commit_id),
{
    let h = with_commit(g, commit_id, change_id, parent_ids);
    if !has_commit(g, commit_id) {
        let parents = places_of(g, parent_ids);
        let n = g.len() as int;
        assert forall|k: int| 0 <= k < parents.len() implies #[trigger] parents[k] < n by {
            assert(has_commit(g, parent_ids[k]));
            let i = place_of(g, parent_ids[k]);
            assert(is_at(g, parent_ids[k], i));
        }
        assert(generation_above(g, parents) <= n) by {
            lemma_generation_above(g, parents);
            if parents.len() > 0 {
                let k = choose|k: int|
                    0 <= k < parents.len() && g[#[trigger] parents[k] as int].generation + 1
                        == generation_above(g, parents);
                lemma_generation_bound(g, parents[k] as int);
            }
        }
        lemma_generation_above(g, parents);
        assert forall|i: int| 0 <= i < h.len() implies (#[trigger] h[i]).generation
            == generation_above(h, h[i].parents) by {
            if i < n {
                assert(h[i] == g[i]);
                assert forall|k: int| 0 <= k < g[i].parents.len() implies #[trigger] g[i].parents[k]
                    < n by {}
                lemma_generation_prefix(g, h, g[i].parents);
            } else {
                lemma_generation_prefix(g, h, parents);
            }
        }
        assert forall|i: int, j: int|
            #![trigger h[i].commit_id, h[j].commit_id]
            0 <= i < j < h.len() implies h[i].commit_id != h[j].commit_id by {
            if j < n {
                assert(g[i].commit_id != g[j].commit_id);
            } else {
                assert(!is_at(g, commit_id, i));
            }
        }
        assert forall|i: int, k: int|
            #![trigger h[i].parents[k]]
            0 <= i < h.len() && 0 <= k < h[i].parents.len() implies h[i].parents[k] < i by {
            if i < n {
                assert(h[i] == g[i]);
                assert(g[i].parents[k] < i);
            } else {
                assert(parents[k] < n);
            }
        }
        assert(is_at(h, commit_id, n));
    }
}

/// What is in a graph is in a longer graph that starts with it.
pub proof fn lemma_has_prefix(g: Seq<Entry>, h: Seq<Entry>, id: Seq<u8>)
    requires
        g.is_prefix_of(h),
        has_commit(g, id),
    ensures
        has_commit(h, id),
{
    let i = choose|i: int| is_at(g, id, i);
    assert(is_at(h, id, i));
}

/// Adding commits one after the other never takes any away.
pub proof fn lemma_with_range_grows(g: Seq<Entry>, other: Seq<Entry>, from: int, mid: int, to: int)
    requires
        from <= mid <= to,
    ensures
        with_range(g, other, from, mid).is_prefix_of(with_range(g, other, from, to)),
    decreases to - mid,
{
    if mid < to {
        lemma_with_range_grows(g, other, from, mid, to - 1);
    }
}

/// The parents of a commit are there once the commits before it were added.
proof fn lemma_parents_there(g: Seq<Entry>, h: Seq<Entry>, other: Seq<Entry>, from: int, i: int)
    requires
        parents_first(other),
        0 <= from <= i < other.len(),
        parents_at_hand(g, other, from),
        g.is_prefix_of(h),
        forall|j: int| from <= j < i ==> has_commit(h, (#[trigger] other[j]).commit_id),
        !has_commit(g, other[i].commit_id),
    ensures
        has_all(h, ids_at(other, other[i].parents)),
{
    let ids = ids_at(other, other[i].parents);
    assert forall|k: int| 0 <= k < ids.len() implies has_commit(h, #[trigger] ids[k]) by {
        let p = other[i].parents[k];
        assert(p < i);
        if p < from {
            lemma_has_prefix(g, h, other[p as int].commit_id);
        } else {
            assert(has_commit(h, other[p as int].commit_id));
        }
    }
}

/// What adding the next commit keeps: the graph stays valid, the commits that were
/// there stay at their places, and the commits up to this one are there afterwards.
proof fn lemma_range_step(
    g: Seq<Entry>,
    before: Seq<Entry>,
    h: Seq<Entry>,
    other: Seq<Entry>,
    from: int,
    i: int,
)
    requires
        valid_graph(before),
        g.is_prefix_of(before),
        parents_first(other),
        parents_countable(other),
        0 <= from <= i < other.len(),
        parents_at_hand(g, other, from),
        forall|j: int| from <= j < i ==> has_commit(before, (#[trigger] other[j]).commit_id),
        h == with_commit(
            before,
            other[i].commit_id,
            other[i].change_id,
            ids_at(other, other[i].parents),
        ),
        h.len() <= u32::MAX,
    ensures
        valid_graph(h),
        g.is_prefix_of(h),
        forall|j: int| from <= j <= i ==> has_commit(h, (#[trigger] other[j]).commit_id),
{
    let e = other[i];
    if !has_commit(before, e.commit_id) {
        if has_commit(g, e.commit_id) {
            lemma_has_prefix(g, before, e.commit_id);
        }
        lemma_parents_there(g, before, other, from, i);
        lemma_with_commit(before, e.commit_id, e.change_id, ids_at(other, e.parents));
    }
    assert forall|j: int| from <= j <= i implies has_commit(
        h,
        (#[trigger] other[j]).commit_id,
    ) by {
        if j < i {
            lemma_has_prefix(before, h, other[j].commit_id);
        }
    }
}

/// What adding commits in their order keeps: the graph stays valid, the commits
/// that were there stay at their places, and the commits are there afterwards.
pub proof fn lemma_with_range(g: Seq<Entry>, other: Seq<Entry>, from: int, to: int)
    requires
        valid_graph(g),
        valid_graph(other),
        0 <= from <= to <= other.len(),
        parents_at_hand(g, other, from),
        with_range(g, other, from, to).len() <= u32::MAX,
    ensures
        valid_graph(with_range(g, other, from, to)),
        g.is_prefix_of(with_range(g, other, from, to)),
        forall|i: int|
            from <= i < to ==> has_commit(
                with_range(g, other, from, to),
                (#[trigger] other[i]).commit_id,
            ),
    decreases to - from,
{
    if from < to {
        let before = with_range(g, other, from, to - 1);
        let h = with_range(g, other, from, to);
        lemma_with_range_grows(g, other, from, to - 1, to);
        lemma_with_range(g, other, from, to - 1);
        lemma_range_step(g, before, h, other, from, to - 1);
    }
}

/// While commits are added in their order, the next one can be added.
pub proof fn lemma_next_addable(g: Seq<Entry>, other: Seq<Entry>, from: int, i: int)
    requires
        valid_graph(g),
        valid_graph(other),
        0 <= from <= i < other.len(),
        parents_at_hand(g, other, from),
        with_range(g, other, from, other.len() as int).len() <= u32::MAX,
    ensures
        !has_commit(with_range(g, other, from, i), other[i].commit_id) ==> {
            &&& has_all(with_range(g, other, from, i), ids_at(other, other[i].parents))
            &&& with_range(g, other, from, i).len() < u32::MAX
        },
        ids_at(other, other[i].parents).len() <= u32::MAX,
{
    let now = with_range(g, other, from, i);
    let after = with_range(g, other, from, i + 1);
    let id = other[i].commit_id;
    let all = with_range(g, other, from, other.len() as int);
    assert(now.len() <= all.len()) by {
        lemma_with_range_grows(g, other, from, i, other.len() as int);
    }
    assert(after.len() <= all.len()) by {
        lemma_with_range_grows(g, other, from, i + 1, other.len() as int);
    }
    if !has_commit(now, id) {
        assert(after.len() == now.len() + 1);
        assert(has_all(now, ids_at(other, other[i].parents))) by {
            lemma_with_range(g, other, from, i);
            if has_commit(g, id) {
                lemma_has_prefix(g, now, id);
            }
            lemma_parents_there(g, now, other, from, i);
        }
    }
}

/// Adding commits in two goes is the same as in one.
pub proof fn lemma_with_range_split(g: Seq<Entry>, other: Seq<Entry>, from: int, mid: int, to: int)
    requires
        from <= mid <= to,
    ensures
        with_range(with_range(g, other, from, mid), other, mid, to) == with_range(
            g,
            other,
            from,
            to,
        ),
    decreases to - mid,
{
    if mid < to {
        lemma_with_range_split(g, other, from, mid, to - 1);
    }
}

/// Only the commits up to the last one to be added matter.
pub proof fn lemma_with_range_prefix(
    g: Seq<Entry>,
    other: Seq<Entry>,
    longer: Seq<Entry>,
    from: int,
    to: int,
)
    requires
        other.is_prefix_of(longer),
        parents_first(other),
        0 <= from,
        to <= other.len(),
    ensures
        with_range(g, other, from, to) == with_range(g, longer, from, to),
    decreases to - from,
{
    if from < to {
        let i = to - 1;
        lemma_with_range_prefix(g, other, longer, from, i);
        assert(other[i] == longer[i]);
        assert forall|k: int| 0 <= k < other[i].parents.len() implies #[trigger] ids_at(
            other,
            other[i].parents,
        )[k] == ids_at(longer, longer[i].parents)[k] by {
            assert(other[i].parents[k] < i);
        }
        assert(ids_at(other, other[i].parents) =~= ids_at(longer, longer[i].parents));
    }
}

/// Parents are still at hand once the commits up to a place were added.
proof fn lemma_still_at_hand(
    g: Seq<Entry>,
    now: Seq<Entry>,
    part: Seq<Entry>,
    other: Seq<Entry>,
    from: int,
    mid: int,
)
    requires
        parents_first(part),
        part.is_prefix_of(other),
        0 <= from <= mid <= part.len() <= other.len(),
        parents_at_hand(g, other, from),
        g.is_prefix_of(now),
        forall|i: int| from <= i < mid ==> has_commit(now, (#[trigger] other[i]).commit_id),
    ensures
        parents_at_hand(now, part, mid),
{
    assert forall|j: int, k: int|
        #![trigger part[j].parents[k]]
        mid <= j < part.len() && 0 <= k < part[j].parents.len() && !has_commit(
            now,
            part[j].commit_id,
        ) && part[j].parents[k] < mid implies has_commit(
        now,
        part[part[j].parents[k] as int].commit_id,
    ) by {
        let p = part[j].parents[k];
        assert(part[j] == other[j] && part[p as int] == other[p as int]);
        if has_commit(g, other[j].commit_id) {
            lemma_has_prefix(g, now, other[j].commit_id);
        }
        if p < from {
            assert(other[j].parents[k] < from);
            lemma_has_prefix(g, now, other[p as int].commit_id);
        } else {
            assert(has_commit(now, other[p as int].commit_id));
        }
    }
}

/// After the commits of a graph up to a place were added, the ones from there up to
/// the end of a lower part of that graph can be added.
pub proof fn lemma_with_next_range(
    g: Seq<Entry>,
    part: Seq<Entry>,
    other: Seq<Entry>,
    from: int,
    mid: int,
)
    requires
        valid_graph(g),
        valid_graph(other),
        parents_first(part),
        part.is_prefix_of(other),
        0 <= from <= mid <= part.len() <= other.len(),
        parents_at_hand(g, other, from),
        with_range(g, other, from, other.len() as int).len() <= u32::MAX,
    ensures
        ({
            let now = with_range(g, other, from, mid);
            let to = part.len() as int;
            &&& parents_at_hand(now, part, mid)
            &&& with_range(now, part, mid, to) == with_range(g, other, from, to)
            &&& with_range(now, part, mid, to).len() <= u32::MAX
        }),
{
    let now = with_range(g, other, from, mid);
    let to = part.len() as int;
    lemma_with_range_grows(g, other, from, mid, other.len() as int);
    lemma_with_range_grows(g, other, from, to, other.len() as int);
    lemma_with_range(g, other, from, mid);
    lemma_with_range_split(g, other, from, mid, to);
    lemma_with_range_prefix(now, part, other, mid, to);
    lemma_still_at_hand(g, now, part, other, from, mid);
}

/// Adding commits that are there already changes nothing.
pub proof fn lemma_with_range_present(g: Seq<Entry>, other: Seq<Entry>, from: int, to: int)
    requires
        forall|i: int| from <= i < to ==> has_commit(g, (#[trigger] other[i]).commit_id),
    ensures
        with_range(g, other, from, to) == g,
    decreases to - from,
{
    if from < to {
        lemma_with_range_present(g, other, from, to - 1);
        assert(has_commit(g, other[to - 1].commit_id));
    }
}

/// Adding the commits of a graph to the first commits of the same graph gives
/// the graph back.
pub proof fn lemma_with_range_same(other: Seq<Entry>, from: int, to: int)
    requires
        valid_graph(other),
        0 <= from <= to <= other.len(),
    ensures
        with_range(other.take(from), other, from, to) == other.take(to),
    decreases to - from,
{
    if from < to {
        let i = to - 1;
        lemma_with_range_same(other, from, i);
        let g = other.take(i);
        let e = other[i];
        if has_commit(g, e.commit_id) {
            let j = choose|j: int| is_at(g, e.commit_id, j);
            assert(other[j].commit_id != other[i].commit_id);
        }
        assert(ids_distinct(g)) by {
            assert forall|a: int, b: int|
                #![trigger g[a].commit_id, g[b].commit_id]
                0 <= a < b < g.len() implies g[a].commit_id != g[b].commit_id by {
                assert(other[a].commit_id != other[b].commit_id);
            }
        }
        let ids = ids_at(other, e.parents);
        let places = places_of(g, ids);
        assert forall|k: int| 0 <= k < e.parents.len() implies places[k] == e.parents[k] by {
            assert(e.parents[k] < i);
            lemma_place(g, e.parents[k] as int);
        }
        assert(places =~= e.parents);
        assert forall|k: int| 0 <= k < places.len() implies #[trigger] places[k] < g.len() by {
            assert(e.parents[k] < i);
        }
        lemma_generation_prefix(g, other, places);
        assert(other.take(to) =~= g.push(e));
    }
}

/// The commits of a graph can be added to the first commits of the same graph.
pub proof fn lemma_parents_at_hand(other: Seq<Entry>, from: int)
    requires
        0 <= from <= other.len(),
    ensures
        parents_at_hand(other.take(from), other, from),
{
    let g = other.take(from);
    assert forall|i: int, k: int|
        #![trigger other[i].parents[k]]
        from <= i < other.len() && 0 <= k < other[i].parents.len() && !has_commit(
            g,
            other[i].commit_id,
        ) && other[i].parents[k] < from implies has_commit(
        g,
        other[other[i].parents[k] as int].commit_id,
    ) by {
        let p = other[i].parents[k] as int;
        assert(is_at(g, other[p].commit_id, p));
    }
}

} // verus!
