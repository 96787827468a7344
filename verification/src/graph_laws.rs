//! What the commit graph of an index is: lines of parents, generation numbers, and
//! what adding and merging commits makes of it.

use crate::ids::{id_bytes, CommitId};
use crate::merging::{names_agree, shared_base};
use crate::model::{
    commit_ids, generation_above, has_all, has_commit, ids_at, is_at, lemma_generation_above,
    lemma_generation_path, lemma_with_commit, lemma_with_range, lemma_with_range_grows,
    parent_links, parents_at_hand, place_of, places_of, valid_graph, with_commit, with_range, Entry,
};
use crate::mutable::MutableIndexSegment;
use crate::paths::{any_reaches, lemma_first_link, lemma_path_step, path, reaches};
use crate::positions::IndexPosition;
use crate::readonly::ReadonlyIndexSegment;
use crate::segment::{is_position, IndexSegment};
use std::sync::Arc;
use vstd::prelude::*;

verus! {

/// Whether one of the commits has an id.
pub open spec fn is_listed(g: Seq<Entry>, id: Seq<u8>) -> bool {
    exists|i: int| 0 <= i < g.len() && (#[trigger] g[i]).commit_id == id
}

/// Whether commits are listed from child to parent: each is a parent of the one
/// before it. All but the last one are from the given set.
pub open spec fn is_lineage(g: Seq<Entry>, among: Set<u32>, line: Seq<u32>) -> bool {
    &&& line.len() > 0
    &&& forall|i: int|
        0 <= i < line.len() - 1 ==> {
            &&& among.contains(#[trigger] line[i])
            &&& line[i] < g.len()
            &&& g[line[i] as int].parents.contains(line[i + 1])
        }
}

/// Whether such a list leads from one commit to another one in `n` steps.
pub open spec fn leads(
    g: Seq<Entry>,
    among: Set<u32>,
    line: Seq<u32>,
    from: u32,
    to: u32,
    n: nat,
) -> bool {
    &&& is_lineage(g, among, line)
    &&& line.len() == n + 1
    &&& line[0] == from
    &&& line[n as int] == to
}

/// Whether a commit is another one, or an ancestor of it: one follows from the other
/// by going from child to parent.
pub open spec fn descends(g: Seq<Entry>, from: u32, to: u32) -> bool {
    exists|line: Seq<u32>, n: nat| leads(g, Set::full(), line, from, to, n)
}

/// A path of `n` links among the commits of a set is a line of `n + 1` commits, each
/// a parent of the one before it, of which all but the last are from the set.
pub proof fn law_path_among(g: Seq<Entry>, among: Set<u32>, from: u32, to: u32, n: nat)
    ensures
        path(parent_links(g).restrict(among), from, to, n) <==> exists|line: Seq<u32>|
            leads(g, among, line, from, to, n),
    decreases n,
{
    let links = parent_links(g).restrict(among);
    if path(links, from, to, n) {
        if n == 0 {
            assert(leads(g, among, seq![from], from, to, n));
        } else {
            let k = lemma_first_link(links, from, to, n);
            let next = links[from][k];
            let m = (n - 1) as nat;
            law_path_among(g, among, next, to, m);
            let rest = choose|line: Seq<u32>| leads(g, among, line, next, to, m);
            let line = seq![from] + rest;
            assert forall|i: int| 0 <= i < line.len() - 1 implies {
                &&& among.contains(#[trigger] line[i])
                &&& line[i] < g.len()
                &&& g[line[i] as int].parents.contains(line[i + 1])
            } by {
                if i == 0 {
                    assert(g[from as int].parents[k] == next);
                } else {
                    assert(line[i] == rest[i - 1]);
                }
            }
            assert(line[n as int] == rest[n - 1]);
            assert(leads(g, among, line, from, to, n));
        }
    }
    if exists|line: Seq<u32>| leads(g, among, line, from, to, n) {
        let line = choose|line: Seq<u32>| leads(g, among, line, from, to, n);
        if n > 0 {
            let rest = line.skip(1);
            assert(among.contains(line[0]));
            assert forall|i: int| 0 <= i < rest.len() - 1 implies {
                &&& among.contains(#[trigger] rest[i])
                &&& rest[i] < g.len()
                &&& g[rest[i] as int].parents.contains(rest[i + 1])
            } by {
                assert(line[i + 1] == rest[i]);
            }
            assert(leads(g, among, rest, line[1], to, (n - 1) as nat));
            law_path_among(g, among, line[1], to, (n - 1) as nat);
            let k = choose|k: int|
                0 <= k < g[from as int].parents.len() && g[from as int].parents[k] == line[1];
            assert(links[from][k] == line[1]);
            lemma_path_step(links, from, k, to, (n - 1) as nat);
        }
    }
}

/// A path of `n` links is a line of `n + 1` commits, each a parent of the one before
/// it.
pub proof fn law_path(g: Seq<Entry>, from: u32, to: u32, n: nat)
    ensures
        path(parent_links(g), from, to, n) <==> exists|line: Seq<u32>|
            leads(g, Set::full(), line, from, to, n),
{
    let links = parent_links(g);
    assert(links.restrict(Set::full()) =~= links);
    law_path_among(g, Set::full(), from, to, n);
}

/// A commit is reached if a line of commits leads to it, each a parent of the one
/// before it; and so a commit is reached from itself, and from a child of any commit
/// that it is reached from.
pub proof fn law_reaches(g: Seq<Entry>, from: u32, to: u32)
    ensures
        reaches(parent_links(g), from, to) <==> descends(g, from, to),
        from == to ==> reaches(parent_links(g), from, to),
        from != to && from < g.len() ==> (reaches(parent_links(g), from, to) <==> exists|k: int|
            0 <= k < g[from as int].parents.len() && reaches(
                parent_links(g),
                #[trigger] g[from as int].parents[k],
                to,
            )),
{
    let links = parent_links(g);
    if reaches(links, from, to) {
        let n = choose|n: nat| path(links, from, to, n);
        law_path(g, from, to, n);
        let line = choose|line: Seq<u32>| leads(g, Set::full(), line, from, to, n);
        assert(leads(g, Set::full(), line, from, to, n));
        if from != to && from < g.len() {
            let k = lemma_first_link(links, from, to, n);
            assert(path(links, links[from][k], to, (n - 1) as nat));
            assert(reaches(links, g[from as int].parents[k], to));
        }
    }
    if descends(g, from, to) {
        let (line, n) = choose|line: Seq<u32>, n: nat|
            leads(g, Set::full(), line, from, to, n);
        law_path(g, from, to, n);
    }
    if from == to {
        assert(path(links, from, to, 0));
    }
    if from != to && from < g.len() && exists|k: int|
        0 <= k < g[from as int].parents.len() && reaches(
            links,
            #[trigger] g[from as int].parents[k],
            to,
        ) {
        let k = choose|k: int|
            0 <= k < g[from as int].parents.len() && reaches(
                links,
                #[trigger] g[from as int].parents[k],
                to,
            );
        let n = choose|n: nat| path(links, g[from as int].parents[k], to, n);
        assert(links[from][k] == g[from as int].parents[k]);
        lemma_path_step(links, from, k, to, n);
    }
}

/// A commit is reached from a set if a line of parents leads to it from one of the
/// set.
pub proof fn law_any_reaches(g: Seq<Entry>, set: Set<u32>, p: u32)
    ensures
        any_reaches(parent_links(g), set, p) <==> exists|x: u32|
            set.contains(x) && #[trigger] descends(g, x, p),
{
    if any_reaches(parent_links(g), set, p) {
        let x = choose|x: u32| set.contains(x) && #[trigger] reaches(parent_links(g), x, p);
        law_reaches(g, x, p);
        assert(set.contains(x) && descends(g, x, p));
    }
    if exists|x: u32| set.contains(x) && #[trigger] descends(g, x, p) {
        let x = choose|x: u32| set.contains(x) && #[trigger] descends(g, x, p);
        law_reaches(g, x, p);
        assert(set.contains(x) && reaches(parent_links(g), x, p));
    }
}

/// Whether a generation number is that of a commit with the given parents: 0 without
/// parents, else one more than the greatest one of a parent.
pub open spec fn is_generation(g: Seq<Entry>, parents: Seq<u32>, generation: int) -> bool {
    if parents.len() == 0 {
        generation == 0
    } else {
        &&& forall|k: int|
            0 <= k < parents.len() ==> g[#[trigger] parents[k] as int].generation < generation
        &&& exists|k: int|
            0 <= k < parents.len() && g[#[trigger] parents[k] as int].generation + 1 == generation
    }
}

/// The generation number above parents is determined by theirs.
proof fn lemma_is_generation(g: Seq<Entry>, parents: Seq<u32>, generation: int)
    ensures
        is_generation(g, parents, generation) <==> generation_above(g, parents) == generation,
{
    lemma_generation_above(g, parents);
    if parents.len() > 0 {
        let k = choose|k: int|
            0 <= k < parents.len() && g[#[trigger] parents[k] as int].generation + 1
                == generation_above(g, parents);
        if is_generation(g, parents, generation) {
            assert(g[parents[k] as int].generation < generation);
            let j = choose|j: int|
                0 <= j < parents.len() && g[#[trigger] parents[j] as int].generation + 1
                    == generation;
            assert(g[parents[j] as int].generation < generation_above(g, parents));
        }
    }
}

/// A graph can be held by an index if, and only if, positions and numbers of parents
/// fit in 32 bits, parents come before their children, no id is there twice, and
/// each commit has the generation number that its parents call for.
pub proof fn law_valid_graph(g: Seq<Entry>)
    ensures
        valid_graph(g) <==> {
            &&& g.len() <= u32::MAX
            &&& forall|i: int, k: int|
                #![trigger g[i].parents[k]]
                0 <= i < g.len() && 0 <= k < g[i].parents.len() ==> g[i].parents[k] < i
            &&& forall|i: int, j: int|
                #![trigger g[i].commit_id, g[j].commit_id]
                0 <= i < g.len() && 0 <= j < g.len() && g[i].commit_id == g[j].commit_id ==> i
                    == j
            &&& forall|i: int|
                0 <= i < g.len() ==> (#[trigger] g[i]).parents.len() <= u32::MAX
                    && is_generation(g, g[i].parents, g[i].generation as int)
        },
{
    assert forall|i: int| 0 <= i < g.len() implies ((#[trigger] g[i]).generation
        == generation_above(g, g[i].parents) <==> is_generation(
        g,
        g[i].parents,
        g[i].generation as int,
    )) by {
        lemma_is_generation(g, g[i].parents, g[i].generation as int);
    }
    if valid_graph(g) {
        assert forall|i: int, j: int|
            #![trigger g[i].commit_id, g[j].commit_id]
            0 <= i < g.len() && 0 <= j < g.len() && g[i].commit_id == g[j].commit_id implies i
            == j by {
            if i < j {
                assert(g[i].commit_id != g[j].commit_id);
            } else if j < i {
                assert(g[j].commit_id != g[i].commit_id);
            }
        }
    }
}

/// The generation number of a commit is the length of the longest line of parents
/// from it.
pub proof fn law_generation(g: Seq<Entry>, p: u32)
    requires
        valid_graph(g),
        p < g.len(),
    ensures
        exists|line: Seq<u32>, root: u32, n: nat| #[trigger]
            leads(g, Set::full(), line, p, root, n) && n == g[p as int].generation,
        forall|line: Seq<u32>, to: u32, n: nat| #[trigger]
            leads(g, Set::full(), line, p, to, n) ==> n <= g[p as int].generation,
{
    let links = parent_links(g);
    let root = lemma_longest(g, p);
    let m = g[p as int].generation as nat;
    law_path(g, p, root, m);
    let longest = choose|line: Seq<u32>| leads(g, Set::full(), line, p, root, m);
    assert(leads(g, Set::full(), longest, p, root, m));
    assert forall|line: Seq<u32>, to: u32, n: nat| #[trigger]
        leads(g, Set::full(), line, p, to, n) implies n <= g[p as int].generation by {
        law_path(g, p, to, n);
        lemma_generation_path(g, p, to, n);
    }
}

/// From each commit a path of as many links as its generation number leads to a
/// commit.
proof fn lemma_longest(g: Seq<Entry>, p: u32) -> (root: u32)
    requires
        valid_graph(g),
        p < g.len(),
    ensures
        path(parent_links(g), p, root, g[p as int].generation as nat),
    decreases p,
{
    let links = parent_links(g);
    let parents = g[p as int].parents;
    lemma_generation_above(g, parents);
    assert(g[p as int].generation == generation_above(g, parents));
    if parents.len() == 0 {
        p
    } else {
        let k = choose|k: int|
            0 <= k < parents.len() && g[#[trigger] parents[k] as int].generation + 1
                == generation_above(g, parents);
        assert(g[p as int].parents[k] < p);
        let root = lemma_longest(g, parents[k]);
        assert(links[p][k] == parents[k]);
        lemma_path_step(links, p, k, root, g[parents[k] as int].generation as nat);
        root
    }
}

/// A commit is there if one of the commits has its id; it then has a position, where
/// that commit is.
pub proof fn law_position(g: Seq<Entry>, id: Seq<u8>)
    ensures
        has_commit(g, id) <==> exists|i: int|
            0 <= i < g.len() && (#[trigger] g[i]).commit_id == id,
        commit_ids(g).contains(id) <==> has_commit(g, id),
        has_commit(g, id) ==> 0 <= place_of(g, id) < g.len() && g[place_of(g, id)].commit_id
            == id,
        forall|i: int| #[trigger]
            is_at(g, id, i) <==> 0 <= i < g.len() && g[i].commit_id == id,
{
    if exists|i: int| 0 <= i < g.len() && (#[trigger] g[i]).commit_id == id {
        let i = choose|i: int| 0 <= i < g.len() && (#[trigger] g[i]).commit_id == id;
        assert(is_at(g, id, i));
    }
    if has_commit(g, id) {
        assert(is_at(g, id, place_of(g, id)));
    }
}

/// What a lookup gives is the position of the commit with the id, or nothing if no
/// commit has it.
pub proof fn law_lookup(g: Seq<Entry>, id: Seq<u8>, pos: Option<IndexPosition>)
    requires
        is_position(g, 0, id, pos),
    ensures
        match pos {
            Some(pos) => pos.0 < g.len() && g[pos.0 as int].commit_id == id,
            None => forall|i: int| 0 <= i < g.len() ==> (#[trigger] g[i]).commit_id != id,
        },
{
    law_position(g, id);
}

/// Lists of ids and positions stand for each other item by item, and all ids of a
/// list are there if each is.
pub proof fn law_id_lists(g: Seq<Entry>, ids: Seq<Seq<u8>>, given: Seq<CommitId>, places: Seq<u32>)
    ensures
        has_all(g, ids) <==> forall|k: int| 0 <= k < ids.len() ==> has_commit(g, #[trigger] ids[k]),
        places_of(g, ids).len() == ids.len(),
        ids_at(g, places).len() == places.len(),
        forall|k: int|
            0 <= k < places.len() ==> #[trigger] ids_at(g, places)[k]
                == g[places[k] as int].commit_id,
        id_bytes(given).len() == given.len(),
        forall|k: int| 0 <= k < given.len() ==> #[trigger] id_bytes(given)[k] == given[k]@,
        has_all(g, ids) && g.len() <= u32::MAX ==> forall|k: int|
            0 <= k < ids.len() ==> (#[trigger] places_of(g, ids)[k]) < g.len()
                && g[places_of(g, ids)[k] as int].commit_id == ids[k],
{
    if has_all(g, ids) && g.len() <= u32::MAX {
        assert forall|k: int| 0 <= k < ids.len() implies (#[trigger] places_of(g, ids)[k])
            < g.len() && g[places_of(g, ids)[k] as int].commit_id == ids[k] by {
            assert(has_commit(g, ids[k]));
            law_position(g, ids[k]);
        }
    }
}

/// A commit that is there is not added again. One that is not is put at the end,
/// with its change id, with the commits that have the given ids as its parents, in
/// their order, and with the generation number that they call for; the others stay
/// as they are.
pub proof fn law_commit_added(
    g: Seq<Entry>,
    commit_id: Seq<u8>,
    change_id: Seq<u8>,
    parent_ids: Seq<Seq<u8>>,
)
    requires
        valid_graph(g),
        g.len() < u32::MAX,
        forall|k: int|
            0 <= k < parent_ids.len() ==> exists|i: int|
                0 <= i < g.len() && (#[trigger] g[i]).commit_id == #[trigger] parent_ids[k],
        parent_ids.len() <= u32::MAX,
    ensures
        ({
            let h = with_commit(g, commit_id, change_id, parent_ids);
            let there = exists|i: int| 0 <= i < g.len() && (#[trigger] g[i]).commit_id == commit_id;
            let n = g.len() as int;
            &&& there ==> h == g
            &&& !there ==> {
                &&& h.len() == n + 1
                &&& forall|i: int| 0 <= i < n ==> h[i] == #[trigger] g[i]
                &&& h[n].commit_id == commit_id
                &&& h[n].change_id == change_id
                &&& h[n].parents.len() == parent_ids.len()
                &&& forall|k: int|
                    0 <= k < parent_ids.len() ==> (#[trigger] h[n].parents[k]) < n
                        && h[h[n].parents[k] as int].commit_id == parent_ids[k]
                &&& is_generation(h, h[n].parents, h[n].generation as int)
            }
        }),
{
    let h = with_commit(g, commit_id, change_id, parent_ids);
    law_position(g, commit_id);
    assert(has_all(g, parent_ids)) by {
        assert forall|k: int| 0 <= k < parent_ids.len() implies has_commit(
            g,
            #[trigger] parent_ids[k],
        ) by {
            law_position(g, parent_ids[k]);
        }
    }
    lemma_with_commit(g, commit_id, change_id, parent_ids);
    if !has_commit(g, commit_id) {
        let n = g.len() as int;
        law_valid_graph(h);
        law_id_lists(g, parent_ids, Seq::empty(), Seq::empty());
        assert(h[n].parents == places_of(g, parent_ids));
        assert forall|k: int| 0 <= k < parent_ids.len() implies (#[trigger] h[n].parents[k]) < n
            && h[h[n].parents[k] as int].commit_id == parent_ids[k] by {
            assert(places_of(g, parent_ids)[k] < g.len());
        }
    }
}

/// Whether a commit of one graph is one of another graph: the same id and change id,
/// and parents with the same ids in the same order.
pub open spec fn same_commit(g: Seq<Entry>, i: int, other: Seq<Entry>, j: int) -> bool {
    &&& g[i].commit_id == other[j].commit_id
    &&& g[i].change_id == other[j].change_id
    &&& g[i].parents.len() == other[j].parents.len()
    &&& forall|k: int|
        0 <= k < g[i].parents.len() ==> g[(#[trigger] g[i].parents[k]) as int].commit_id
            == other[other[j].parents[k] as int].commit_id
}

/// Whether a commit of one graph is one of the first `to` commits of another graph.
pub open spec fn comes_from(g: Seq<Entry>, i: int, other: Seq<Entry>, to: int) -> bool {
    exists|j: int| 0 <= j < to && #[trigger] same_commit(g, i, other, j)
}

/// Merging adds, at the end and in their order, those commits of the other graph
/// whose ids are not there, each with its change id and its parents, and nothing
/// else; the commits that were there stay as they are.
pub proof fn law_merge_adds(g: Seq<Entry>, other: Seq<Entry>, to: int)
    requires
        valid_graph(g),
        valid_graph(other),
        0 <= to <= other.len(),
        with_range(g, other, 0, to).len() <= u32::MAX,
    ensures
        ({
            let h = with_range(g, other, 0, to);
            let n = g.len() as int;
            &&& valid_graph(h)
            &&& h.len() >= n
            &&& h.len() <= n + to
            &&& forall|i: int| 0 <= i < n ==> h[i] == #[trigger] g[i]
            &&& forall|j: int|
                0 <= j < to ==> exists|i: int|
                    0 <= i < h.len() && (#[trigger] h[i]).commit_id == (
                    #[trigger] other[j]).commit_id
            &&& forall|i: int| n <= i < h.len() ==> #[trigger] comes_from(h, i, other, to)
            &&& forall|i: int, l: int, j: int, m: int|
                #![trigger same_commit(h, i, other, j), same_commit(h, l, other, m)]
                n <= i < l < h.len() && 0 <= j < to && 0 <= m < to && same_commit(h, i, other, j)
                    && same_commit(h, l, other, m) ==> j < m
        }),
{
    lemma_merged(g, other, to);
    reveal(is_merged);
}

/// What merging the first `to` commits of another graph makes of a graph.
#[verifier::opaque]
spec fn is_merged(g: Seq<Entry>, other: Seq<Entry>, to: int, h: Seq<Entry>) -> bool {
    &&& g.len() <= h.len() <= g.len() + to
    &&& forall|i: int| 0 <= i < g.len() ==> h[i] == #[trigger] g[i]
    &&& forall|j: int|
        0 <= j < to ==> exists|i: int|
            0 <= i < h.len() && (#[trigger] h[i]).commit_id == (#[trigger] other[j]).commit_id
    &&& forall|i: int| g.len() <= i < h.len() ==> #[trigger] comes_from(h, i, other, to)
    &&& forall|i: int, l: int, a: int, b: int|
        #![trigger same_commit(h, i, other, a), same_commit(h, l, other, b)]
        g.len() <= i < l < h.len() && 0 <= a < to && 0 <= b < to && same_commit(h, i, other, a)
            && same_commit(h, l, other, b) ==> a < b
}

/// Merging commit by commit.
proof fn lemma_merged(g: Seq<Entry>, other: Seq<Entry>, to: int)
    requires
        valid_graph(g),
        valid_graph(other),
        0 <= to <= other.len(),
        with_range(g, other, 0, to).len() <= u32::MAX,
    ensures
        valid_graph(with_range(g, other, 0, to)),
        is_merged(g, other, to, with_range(g, other, 0, to)),
    decreases to,
{
    let h = with_range(g, other, 0, to);
    if to > 0 {
        let before = with_range(g, other, 0, to - 1);
        lemma_with_range_grows(g, other, 0, to - 1, to);
        lemma_merged(g, other, to - 1);
        assert(valid_graph(h)) by {
            assert(parents_at_hand(g, other, 0));
            lemma_with_range(g, other, 0, to);
        }
        lemma_merge_step(g, other, before, h, to - 1);
    } else {
        reveal(is_merged);
    }
}

/// One more commit is merged.
proof fn lemma_merge_step(
    g: Seq<Entry>,
    other: Seq<Entry>,
    before: Seq<Entry>,
    h: Seq<Entry>,
    j: int,
)
    requires
        valid_graph(other),
        valid_graph(before),
        valid_graph(h),
        0 <= j < other.len(),
        h == with_commit(
            before,
            other[j].commit_id,
            other[j].change_id,
            ids_at(other, other[j].parents),
        ),
        is_merged(g, other, j, before),
    ensures
        is_merged(g, other, j + 1, h),
{
    reveal(is_merged);
    let n = before.len() as int;
    let id = other[j].commit_id;
    law_position(before, id);
    assert forall|i: int| 0 <= i < n implies h[i] == #[trigger] before[i] by {}
    assert forall|m: int| 0 <= m < j + 1 implies exists|i: int|
        0 <= i < h.len() && (#[trigger] h[i]).commit_id == (#[trigger] other[m]).commit_id by {
        if m < j {
            let i = choose|i: int|
                0 <= i < before.len() && (#[trigger] before[i]).commit_id == other[m].commit_id;
            assert(h[i].commit_id == other[m].commit_id);
        } else if has_commit(before, id) {
            assert(h[place_of(before, id)].commit_id == id);
        } else {
            assert(h[n].commit_id == id);
        }
    }
    assert forall|i: int, m: int|
        #![trigger same_commit(h, i, other, m)]
        #![trigger same_commit(before, i, other, m)]
        0 <= i < n implies (same_commit(h, i, other, m) <==> same_commit(before, i, other, m)) by {
        assert(h[i] == before[i]);
        assert forall|k: int| 0 <= k < before[i].parents.len() implies h[(
        #[trigger] before[i].parents[k]) as int] == before[before[i].parents[k] as int] by {
            assert(before[i].parents[k] < i);
        }
    }
    assert forall|i: int| g.len() <= i < h.len() implies #[trigger] comes_from(
        h,
        i,
        other,
        j + 1,
    ) by {
        if i < n {
            assert(comes_from(before, i, other, j));
            let m = choose|m: int| 0 <= m < j && #[trigger] same_commit(before, i, other, m);
            assert(same_commit(h, i, other, m));
        } else {
            lemma_new_commit(other, before, h, j);
            assert(same_commit(h, i, other, j));
        }
    }
    assert forall|i: int, l: int, a: int, b: int|
        #![trigger same_commit(h, i, other, a), same_commit(h, l, other, b)]
        g.len() <= i < l < h.len() && 0 <= a < j + 1 && 0 <= b < j + 1 && same_commit(
            h,
            i,
            other,
            a,
        ) && same_commit(h, l, other, b) implies a < b by {
        if i < n {
            assert(same_commit(before, i, other, a));
            if a == j {
                assert(before[i].commit_id == id);
                assert(has_commit(before, id));
                assert(comes_from(before, i, other, j));
                let m = choose|m: int| 0 <= m < j && #[trigger] same_commit(before, i, other, m);
                assert(other[m].commit_id == other[j].commit_id);
            }
        }
        if l < n {
            if b == j {
                assert(before[l].commit_id == id);
                assert(comes_from(before, l, other, j));
                let m = choose|m: int| 0 <= m < j && #[trigger] same_commit(before, l, other, m);
                assert(other[m].commit_id == other[j].commit_id);
            }
            assert(same_commit(before, l, other, b));
        } else {
            assert(h[l].commit_id == id);
            assert(other[b].commit_id == other[j].commit_id);
            if b < j {
                assert(other[b].commit_id != other[j].commit_id);
            }
        }
    }
}

/// A commit that is added has the parents that it has in the other graph.
proof fn lemma_new_commit(other: Seq<Entry>, before: Seq<Entry>, h: Seq<Entry>, j: int)
    requires
        valid_graph(other),
        valid_graph(before),
        valid_graph(h),
        0 <= j < other.len(),
        !has_commit(before, other[j].commit_id),
        h == with_commit(
            before,
            other[j].commit_id,
            other[j].change_id,
            ids_at(other, other[j].parents),
        ),
        forall|m: int|
            0 <= m < j ==> exists|i: int|
                0 <= i < before.len() && (#[trigger] before[i]).commit_id == (
                #[trigger] other[m]).commit_id,
    ensures
        same_commit(h, before.len() as int, other, j),
{
    let n = before.len() as int;
    let ids = ids_at(other, other[j].parents);
    assert forall|k: int| 0 <= k < ids.len() implies has_commit(before, #[trigger] ids[k]) by {
        let p = other[j].parents[k] as int;
        assert(p < j);
        assert(exists|i: int|
            0 <= i < before.len() && (#[trigger] before[i]).commit_id == other[p].commit_id);
        law_position(before, other[p].commit_id);
    }
    law_id_lists(before, ids, Seq::empty(), Seq::empty());
    assert forall|k: int| 0 <= k < h[n].parents.len() implies h[(
    #[trigger] h[n].parents[k]) as int].commit_id
        == other[other[j].parents[k] as int].commit_id by {
        assert(places_of(before, ids)[k] < before.len());
        assert(ids[k] == other[other[j].parents[k] as int].commit_id);
    }
}

impl MutableIndexSegment {
    /// Another index can be merged in if, and only if, the result is not too large and,
    /// of each commit that is to be added, the parents below the shared file are there.
    /// What is merged in are the commits above the shared file.
    pub proof fn law_merge_owed(&self, other: Arc<ReadonlyIndexSegment>)
        ensures
            ({
                let (g, h) = (self.entries(), other.entries());
                let from = match shared_base(self.parent(), Some(other)) {
                    Some(file) => file.entries().len() as int,
                    None => 0,
                };
                &&& self.merged(other) == with_range(g, h, from, h.len() as int)
                &&& self.fits_merge(other) <==> {
                    &&& self.merged(other).len() <= u32::MAX
                    &&& forall|i: int, k: int|
                        #![trigger h[i].parents[k]]
                        from <= i < h.len() && 0 <= k < h[i].parents.len() && h[i].parents[k]
                            < from && !is_listed(g, h[i].commit_id) ==> is_listed(
                            g,
                            h[h[i].parents[k] as int].commit_id,
                        )
                }
            }),
    {
        let (g, h) = (self.entries(), other.entries());
        assert forall|id: Seq<u8>| #[trigger] is_listed(g, id) <==> has_commit(g, id) by {
            law_position(g, id);
        }
    }

    /// Whatever the files of the other index are called, as long as names agree, its
    /// commits can be merged in if there are not too many, and merging adds all that
    /// are not there.
    pub proof fn law_can_be_merged(&self, other: Arc<ReadonlyIndexSegment>)
        requires
            self.valid(),
            other.valid(),
            names_agree(self.parent(), Some(other)),
            self.entries().len() + other.entries().len() <= u32::MAX,
        ensures
            self.fits_merge(other),
            self.merged(other).len() <= self.entries().len() + other.entries().len(),
            forall|j: int|
                0 <= j < other.entries().len() ==> exists|i: int|
                    0 <= i < self.merged(other).len() && (
                    #[trigger] self.merged(other)[i]).commit_id == (
                    #[trigger] other.entries()[j]).commit_id,
    {
        let (g, h) = (self.entries(), other.entries());
        self.lemma_valid();
        other.lemma_valid();
        self.law_merged(other);
        lemma_merge_bound(g, h, h.len() as int);
        law_merge_adds(g, h, h.len() as int);
    }

    /// An index that is on top of no file takes in all commits.
    pub proof fn law_merge_into_new(&self, other: Arc<ReadonlyIndexSegment>)
        requires
            self.valid(),
            other.valid(),
            self.parent() is None,
            self.entries().len() + other.entries().len() <= u32::MAX,
        ensures
            self.fits_merge(other),
            self.entries().len() == 0 ==> self.merged(other).len() == other.entries().len(),
            forall|j: int|
                0 <= j < other.entries().len() ==> exists|i: int|
                    0 <= i < self.merged(other).len() && (
                    #[trigger] self.merged(other)[i]).commit_id == (
                    #[trigger] other.entries()[j]).commit_id,
    {
        let (g, h) = (self.entries(), other.entries());
        assert(names_agree(self.parent(), Some(other)));
        self.law_can_be_merged(other);
        self.law_merged(other);
        other.lemma_valid();
        if g.len() == 0 {
            lemma_all_added(g, h, h.len() as int);
        }
    }
}

/// No more commits are there after a merge than before and in the other graph.
proof fn lemma_merge_bound(g: Seq<Entry>, other: Seq<Entry>, to: int)
    requires
        0 <= to,
    ensures
        with_range(g, other, 0, to).len() <= g.len() + to,
    decreases to,
{
    if to > 0 {
        lemma_merge_bound(g, other, to - 1);
    }
}

/// All commits of a graph are added to nothing.
proof fn lemma_all_added(g: Seq<Entry>, other: Seq<Entry>, to: int)
    requires
        g.len() == 0,
        valid_graph(other),
        0 <= to <= other.len(),
    ensures
        with_range(g, other, 0, to).len() == to,
        forall|i: int|
            0 <= i < to ==> (#[trigger] with_range(g, other, 0, to)[i]).commit_id
                == other[i].commit_id,
    decreases to,
{
    if to > 0 {
        let before = with_range(g, other, 0, to - 1);
        lemma_all_added(g, other, to - 1);
        let id = other[to - 1].commit_id;
        if has_commit(before, id) {
            let i = place_of(before, id);
            assert(is_at(before, id, i));
            assert(before[i].commit_id == other[i].commit_id);
            assert(other[i].commit_id != other[to - 1].commit_id);
        }
    }
}

} // verus!
