//! What walks visit, in terms of lines of parents.

use crate::descendants::{any_root_below, descendants_in};
use crate::descendants_index::{descendants_at, descends_in_range, is_parent_in};
use crate::entry::IndexEntry;
use crate::graph_laws::{descends, law_any_reaches, law_path, law_path_among, law_reaches, leads};
use crate::model::{lemma_links_descend, parent_links, valid_graph, Entry};
use crate::paths::{any_reaches, lemma_path_descends, path, reaches};
use crate::positions::IndexPosition;
use crate::query_laws::{descends_from, law_positions};
use crate::rev_walk::{
    at_distance, from_lowest, has_place, lists_down, not_before_all, position_set, RevWalk,
};
use core::ops::Range;
use vstd::prelude::*;

verus! {

/// Whether a line of parents leads to a commit from one of the listed ones.
pub open spec fn descends_from_any(
    g: Seq<Entry>,
    positions: Seq<IndexPosition>,
    p: u32,
) -> bool {
    exists|i: int| 0 <= i < positions.len() && descends(g, (#[trigger] positions[i]).0, p)
}

/// A line of parents leads from a set of listed commits if it leads from one of the
/// list.
proof fn lemma_from_list(g: Seq<Entry>, positions: Seq<IndexPosition>, p: u32)
    ensures
        any_reaches(parent_links(g), position_set(positions), p) <==> descends_from_any(
            g,
            positions,
            p,
        ),
{
    law_any_reaches(g, position_set(positions), p);
    law_positions(positions, g);
    if descends_from(g, position_set(positions), p) {
        let x = choose|x: u32| position_set(positions).contains(x) && #[trigger] descends(g, x, p);
        let i = choose|i: int| 0 <= i < positions.len() && (#[trigger] positions[i]).0 == x;
        assert(descends(g, positions[i].0, p));
    }
    if descends_from_any(g, positions, p) {
        let i = choose|i: int|
            0 <= i < positions.len() && descends(g, (#[trigger] positions[i]).0, p);
        assert(position_set(positions).contains(positions[i].0));
    }
}

/// A walk visits a commit if, and only if, a line of parents leads to it from a wanted
/// commit and it is not barred.
pub proof fn law_walk(walk: RevWalk<'_>, p: u32)
    ensures
        walk.remaining().contains(p) <==> descends_from(walk.entries(), walk.wanted(), p)
            && !walk.barred().contains(p),
{
    law_any_reaches(walk.entries(), walk.wanted(), p);
}

/// A walk from wanted commits without unwanted ones visits a commit if, and only if, a
/// line of parents leads to it from a wanted commit, and none from an unwanted one.
pub proof fn law_walk_revs(
    walk: RevWalk<'_>,
    wanted: Seq<IndexPosition>,
    unwanted: Seq<IndexPosition>,
    p: u32,
)
    requires
        walk.wanted() == position_set(wanted),
        forall|q: u32| #[trigger]
            walk.barred().contains(q) <==> any_reaches(
                parent_links(walk.entries()),
                position_set(unwanted),
                q,
            ),
    ensures
        walk.remaining().contains(p) <==> descends_from_any(walk.entries(), wanted, p)
            && !descends_from_any(walk.entries(), unwanted, p),
{
    law_walk(walk, p);
    law_any_reaches(walk.entries(), walk.wanted(), p);
    lemma_from_list(walk.entries(), wanted, p);
    lemma_from_list(walk.entries(), unwanted, p);
}

/// Whether a line of parents of a number of steps in a range leads to a commit from
/// one of a set.
pub open spec fn descends_within(
    g: Seq<Entry>,
    set: Set<u32>,
    start: int,
    end: int,
    p: u32,
) -> bool {
    exists|x: u32, line: Seq<u32>, n: nat|
        set.contains(x) && #[trigger] leads(g, Set::full(), line, x, p, n) && start <= n < end
}

/// A walk filtered by a range of generations visits a commit if, and only if, it is
/// not barred and a line of parents of a number of steps in the range leads to it from
/// a wanted commit. So with a start above 0 a wanted commit is visited only if it is
/// an ancestor of another one.
pub proof fn law_generation_range(walk: RevWalk<'_>, range: Range<u32>, p: u32)
    ensures
        walk.at_generations(range).contains(p) <==> !walk.barred().contains(p)
            && descends_within(
            walk.entries(),
            walk.wanted(),
            range.start as int,
            range.end as int,
            p,
        ),
        walk.wf() && range.start > 0 && walk.at_generations(range).contains(p) ==> exists|x: u32|
            walk.wanted().contains(x) && x != p && #[trigger] descends(walk.entries(), x, p),
{
    let g = walk.entries();
    let links = parent_links(g);
    let set = walk.wanted();
    if at_distance(links, set, range, p) {
        let (x, n) = choose|x: u32, n: nat|
            #![trigger set.contains(x), path(links, x, p, n)]
            set.contains(x) && path(links, x, p, n) && range.start <= n < range.end;
        law_path(g, x, p, n);
        let line = choose|line: Seq<u32>| leads(g, Set::full(), line, x, p, n);
        assert(set.contains(x) && leads(g, Set::full(), line, x, p, n));
        if walk.wf() && range.start > 0 {
            walk.lemma_remaining();
            lemma_links_descend(g);
            lemma_path_descends(links, x, p, n);
            assert(reaches(links, x, p));
            law_reaches(g, x, p);
            assert(set.contains(x) && x != p && descends(g, x, p));
        }
    }
    if descends_within(g, set, range.start as int, range.end as int, p) {
        let (x, line, n) = choose|x: u32, line: Seq<u32>, n: nat|
            set.contains(x) && #[trigger] leads(g, Set::full(), line, x, p, n) && range.start
                <= n < range.end;
        law_path(g, x, p, n);
        assert(set.contains(x) && path(links, x, p, n));
    }
}

/// Two ranges of generations, one after the other, visit together what the range from
/// the start of the first to the end of the second visits.
pub proof fn law_ranges_join(walk: RevWalk<'_>, a: Range<u32>, b: Range<u32>, both: Range<u32>)
    requires
        a.start <= a.end,
        a.end == b.start,
        b.start <= b.end,
        both.start == a.start,
        both.end == b.end,
    ensures
        walk.at_generations(both) == walk.at_generations(a).union(walk.at_generations(b)),
{
    let g = walk.entries();
    let set = walk.wanted();
    assert forall|p: u32|
        walk.at_generations(both).contains(p) <==> walk.at_generations(a).contains(p)
            || walk.at_generations(b).contains(p) by {
        law_generation_range(walk, a, p);
        law_generation_range(walk, b, p);
        law_generation_range(walk, both, p);
        if descends_within(g, set, both.start as int, both.end as int, p) {
            let (x, line, n) = choose|x: u32, line: Seq<u32>, n: nat|
                set.contains(x) && #[trigger] leads(g, Set::full(), line, x, p, n) && both.start
                    <= n < both.end;
            assert(set.contains(x) && leads(g, Set::full(), line, x, p, n));
        }
    }
    assert(walk.at_generations(both) =~= walk.at_generations(a).union(walk.at_generations(b)));
}

/// A walk that stops at roots lists, by descending positions, the commits of the walk
/// that do not come before all roots, and no others.
pub proof fn law_until_roots(
    walk: RevWalk<'_>,
    roots: Seq<IndexPosition>,
    visited: Seq<IndexEntry<'_>>,
)
    requires
        lists_down(visited, walk.entries(), from_lowest(walk.remaining(), roots)),
    ensures
        forall|i: int, j: int|
            #![trigger visited[i], visited[j]]
            0 <= i < j < visited.len() ==> visited[i].place() > visited[j].place(),
        forall|i: int|
            0 <= i < visited.len() ==> (#[trigger] visited[i]).is_in(walk.entries()),
        forall|p: u32|
            (exists|i: int| 0 <= i < visited.len() && (#[trigger] visited[i]).place() == p) <==> (
            #[trigger] walk.remaining().contains(p)) && exists|k: int|
                0 <= k < roots.len() && (#[trigger] roots[k]).0 <= p,
{
    assert forall|p: u32|
        (exists|i: int| 0 <= i < visited.len() && (#[trigger] visited[i]).place() == p) <==> (
        #[trigger] walk.remaining().contains(p)) && exists|k: int|
            0 <= k < roots.len() && (#[trigger] roots[k]).0 <= p by {
        assert(from_lowest(walk.remaining(), roots).contains(p) <==> has_place(visited, p));
        assert(not_before_all(roots, p) <==> exists|k: int|
            0 <= k < roots.len() && (#[trigger] roots[k]).0 <= p);
    }
}

/// Walking back from roots visits a commit if, and only if, the walk visits it and a
/// line of parents leads from it to a root that the walk visits too.
pub proof fn law_descendants(walk: RevWalk<'_>, roots: Seq<IndexPosition>, p: u32)
    ensures
        descendants_in(
            parent_links(walk.entries()),
            walk.remaining(),
            position_set(roots),
        ).contains(p) <==> walk.remaining().contains(p) && exists|k: int|
            0 <= k < roots.len() && walk.remaining().contains((#[trigger] roots[k]).0) && descends(
                walk.entries(),
                p,
                roots[k].0,
            ),
{
    let g = walk.entries();
    let links = parent_links(g);
    let walked = walk.remaining();
    let set = position_set(roots);
    law_positions(roots, g);
    if any_root_below(links, walked, set, p) {
        let r = choose|r: u32|
            set.contains(r) && walked.contains(r) && #[trigger] reaches(links, p, r);
        law_reaches(g, p, r);
        let k = choose|k: int| 0 <= k < roots.len() && (#[trigger] roots[k]).0 == r;
        assert(walked.contains(roots[k].0) && descends(g, p, roots[k].0));
    }
    if exists|k: int|
        0 <= k < roots.len() && walked.contains((#[trigger] roots[k]).0) && descends(
            g,
            p,
            roots[k].0,
        ) {
        let k = choose|k: int|
            0 <= k < roots.len() && walked.contains((#[trigger] roots[k]).0) && descends(
                g,
                p,
                roots[k].0,
            );
        law_reaches(g, p, roots[k].0);
        assert(set.contains(roots[k].0));
    }
}

/// Whether a line of parents of a number of steps in a range leads from a commit to a
/// root, where all commits before the root are walked, and the root is walked or a
/// parent of a walked commit.
pub open spec fn descends_to_root(
    g: Seq<Entry>,
    walked: Set<u32>,
    roots: Set<u32>,
    start: int,
    end: int,
    p: u32,
) -> bool {
    exists|r: u32, line: Seq<u32>, n: nat|
        roots.contains(r) && #[trigger] leads(g, walked, line, p, r, n) && start <= n < end && (
        walked.contains(r) || exists|d: u32| #[trigger]
            walked.contains(d) && g[d as int].parents.contains(r))
}

/// Walking back from roots within a range of generations visits a commit if, and only
/// if, a line of parents of a number of steps in the range leads from it to a root
/// through the walk. So with a start above 0 a root is visited only if it is walked and
/// has another root below it.
pub proof fn law_descendants_range(
    g: Seq<Entry>,
    walked: Set<u32>,
    roots: Set<u32>,
    range: Range<u32>,
    p: u32,
)
    ensures
        descendants_at(g, walked, roots, range).contains(p) <==> descends_to_root(
            g,
            walked,
            roots,
            range.start as int,
            range.end as int,
            p,
        ),
        valid_graph(g) && range.start > 0 && descendants_at(
            g,
            walked,
            roots,
            range,
        ).contains(p) ==> walked.contains(p) && exists|r: u32|
            roots.contains(r) && r != p && #[trigger] descends(g, p, r),
{
    let links = parent_links(g).restrict(walked);
    if descends_in_range(g, walked, roots, range, p) {
        let (r, n) = choose|r: u32, n: nat|
            #![trigger roots.contains(r), path(links, p, r, n)]
            roots.contains(r) && (walked.contains(r) || is_parent_in(g, walked, r)) && path(
                links,
                p,
                r,
                n,
            ) && range.start <= n < range.end;
        law_path_among(g, walked, p, r, n);
        let line = choose|line: Seq<u32>| leads(g, walked, line, p, r, n);
        assert(roots.contains(r) && leads(g, walked, line, p, r, n));
        if valid_graph(g) && range.start > 0 {
            assert(walked.contains(line[0]));
            assert(leads(g, Set::full(), line, p, r, n));
            assert(descends(g, p, r));
            law_path(g, p, r, n);
            lemma_links_descend(g);
            lemma_path_descends(parent_links(g), p, r, n);
            assert(roots.contains(r) && r != p && descends(g, p, r));
        }
    }
    if descends_to_root(g, walked, roots, range.start as int, range.end as int, p) {
        let (r, line, n) = choose|r: u32, line: Seq<u32>, n: nat|
            roots.contains(r) && #[trigger] leads(g, walked, line, p, r, n) && range.start <= n
                < range.end && (walked.contains(r) || exists|d: u32| #[trigger]
                walked.contains(d) && g[d as int].parents.contains(r));
        law_path_among(g, walked, p, r, n);
        assert(roots.contains(r) && path(links, p, r, n));
        assert(walked.contains(r) || is_parent_in(g, walked, r));
    }
}

/// Two ranges of generations, one after the other, visit together what the range from
/// the start of the first to the end of the second visits, on the way back from roots
/// too.
pub proof fn law_descendant_ranges_join(
    g: Seq<Entry>,
    walked: Set<u32>,
    roots: Set<u32>,
    a: Range<u32>,
    b: Range<u32>,
    both: Range<u32>,
)
    requires
        a.start <= a.end,
        a.end == b.start,
        b.start <= b.end,
        both.start == a.start,
        both.end == b.end,
    ensures
        descendants_at(g, walked, roots, both) == descendants_at(g, walked, roots, a).union(
            descendants_at(g, walked, roots, b),
        ),
{
    let (da, db) = (descendants_at(g, walked, roots, a), descendants_at(g, walked, roots, b));
    let all = descendants_at(g, walked, roots, both);
    assert forall|p: u32| all.contains(p) <==> da.contains(p) || db.contains(p) by {
        law_descendants_range(g, walked, roots, a, p);
        law_descendants_range(g, walked, roots, b, p);
        law_descendants_range(g, walked, roots, both, p);
        if descends_to_root(g, walked, roots, both.start as int, both.end as int, p) {
            let (r, line, n) = choose|r: u32, line: Seq<u32>, n: nat|
                roots.contains(r) && #[trigger] leads(g, walked, line, p, r, n) && both.start <= n
                    < both.end && (walked.contains(r) || exists|d: u32| #[trigger]
                    walked.contains(d) && g[d as int].parents.contains(r));
            assert(roots.contains(r) && leads(g, walked, line, p, r, n));
        }
    }
    assert(all =~= da.union(db));
}

} // verus!
