//! What the statistics of an index count.

use crate::composite::segment_levels;
use crate::entry::SegmentRef;
use crate::merging::in_stack;
use crate::model::Entry;
use crate::readonly::{file_levels, ReadonlyIndexSegment};
use crate::segment::IndexSegment;
use crate::stats::{
    change_ids, count_heads, count_merges, is_parent, level_views, max_generation, IndexLevelStats,
};
use std::sync::Arc;
use vstd::prelude::*;
use vstd::seq_lib::seq_to_set_is_finite;

verus! {

/// The greatest generation number is that of a commit, and no commit has a greater
/// one; without commits it is 0.
pub proof fn law_max_generation(g: Seq<Entry>)
    ensures
        forall|i: int| 0 <= i < g.len() ==> (#[trigger] g[i]).generation <= max_generation(g),
        g.len() > 0 ==> exists|i: int|
            0 <= i < g.len() && (#[trigger] g[i]).generation == max_generation(g),
        g.len() == 0 ==> max_generation(g) == 0,
    decreases g.len(),
{
    if g.len() > 0 {
        let rest = g.drop_last();
        law_max_generation(rest);
        assert forall|i: int| 0 <= i < g.len() implies (#[trigger] g[i]).generation
            <= max_generation(g) by {
            if i < rest.len() {
                assert(rest[i] == g[i]);
            }
        }
        if max_generation(rest) < g.last().generation {
            assert(g[g.len() - 1].generation == max_generation(g));
        } else if rest.len() > 0 {
            let i = choose|i: int|
                0 <= i < rest.len() && (#[trigger] rest[i]).generation == max_generation(rest);
            assert(g[i].generation == max_generation(g));
        } else {
            assert(g[0].generation == max_generation(g));
        }
    }
}

/// The first `n` positions of commits that no commit has as a parent.
pub open spec fn childless(g: Seq<Entry>, n: int) -> Set<int> {
    Set::new(
        |p: int|
            0 <= p < n && forall|i: int|
                0 <= i < g.len() ==> !(#[trigger] g[i]).parents.contains(p as u32),
    )
}

/// As many heads are counted as there are commits that no commit has as a parent.
pub proof fn law_count_heads(g: Seq<Entry>)
    requires
        g.len() <= u32::MAX,
    ensures
        childless(g, g.len() as int).finite(),
        count_heads(g, g.len() as int) == childless(g, g.len() as int).len(),
{
    lemma_count_heads_to(g, g.len() as int);
}

/// The same for the first `n` commits.
proof fn lemma_count_heads_to(g: Seq<Entry>, n: int)
    requires
        0 <= n <= u32::MAX,
    ensures
        childless(g, n).finite(),
        count_heads(g, n) == childless(g, n).len(),
    decreases n,
{
    if n == 0 {
        assert(childless(g, n) =~= Set::empty());
    } else {
        let p = n - 1;
        lemma_count_heads_to(g, p);
        if is_parent(g, p) {
            let (i, k) = choose|i: int, k: int|
                #![trigger g[i].parents[k]]
                0 <= i < g.len() && 0 <= k < g[i].parents.len() && g[i].parents[k] == p;
            assert(g[i].parents.contains(p as u32));
            assert(childless(g, n) =~= childless(g, p));
        } else {
            assert forall|i: int| 0 <= i < g.len() implies !(#[trigger] g[i]).parents.contains(
                p as u32,
            ) by {
                if g[i].parents.contains(p as u32) {
                    let k = choose|k: int|
                        0 <= k < g[i].parents.len() && g[i].parents[k] == p as u32;
                    assert(g[i].parents[k] == p);
                }
            }
            assert(childless(g, n) =~= childless(g, p).insert(p));
        }
    }
}

/// The positions of commits with more than one parent.
pub open spec fn merges(g: Seq<Entry>) -> Set<int> {
    Set::new(|p: int| 0 <= p < g.len() && g[p].parents.len() >= 2)
}

/// As many merges are counted as there are commits with more than one parent.
pub proof fn law_count_merges(g: Seq<Entry>)
    ensures
        merges(g).finite(),
        count_merges(g) == merges(g).len(),
    decreases g.len(),
{
    if g.len() == 0 {
        assert(merges(g) =~= Set::empty());
    } else {
        let rest = g.drop_last();
        law_count_merges(rest);
        assert forall|p: int| 0 <= p < rest.len() implies rest[p] == g[p] by {}
        if g.last().parents.len() > 1 {
            assert(merges(g) =~= merges(rest).insert(g.len() - 1));
        } else {
            assert(merges(g) =~= merges(rest));
        }
    }
}

/// The change ids that are counted are those that a commit has.
pub proof fn law_change_ids(g: Seq<Entry>, id: Seq<u8>)
    ensures
        change_ids(g).finite(),
        change_ids(g).contains(id) <==> exists|i: int|
            0 <= i < g.len() && (#[trigger] g[i]).change_id == id,
{
    let ids = g.map_values(|e: Entry| e.change_id);
    seq_to_set_is_finite(ids);
    if ids.contains(id) {
        let i = choose|i: int| 0 <= i < ids.len() && ids[i] == id;
        assert(g[i].change_id == id);
    }
    if exists|i: int| 0 <= i < g.len() && (#[trigger] g[i]).change_id == id {
        let i = choose|i: int| 0 <= i < g.len() && (#[trigger] g[i]).change_id == id;
        assert(ids[i] == id);
    }
}

/// Whether a level is that of a file of a stack, where the bottom file is at level 0.
pub open spec fn is_level_of(
    stack: Arc<ReadonlyIndexSegment>,
    i: int,
    level: (int, Option<Seq<char>>),
) -> bool {
    exists|file: Arc<ReadonlyIndexSegment>| #[trigger]
        in_stack(Some(stack), file) && file.levels() == i + 1 && level == (
            file.local().len() as int,
            Some(file.name_text()),
        )
}

/// The levels of a stack are its files from the bottom, each with its own number of
/// commits and its name.
pub proof fn law_file_levels(stack: Arc<ReadonlyIndexSegment>)
    ensures
        file_levels(Some(stack)).len() == stack.levels(),
        forall|i: int|
            0 <= i < file_levels(Some(stack)).len() ==> is_level_of(
                stack,
                i,
                #[trigger] file_levels(Some(stack))[i],
            ),
    decreases stack.levels(),
{
    let levels = file_levels(Some(stack));
    stack.lemma_entries();
    assert(in_stack(Some(stack), stack));
    match stack.parent() {
        Some(parent) => {
            law_file_levels(parent);
            assert forall|i: int| 0 <= i < levels.len() implies is_level_of(
                stack,
                i,
                #[trigger] levels[i],
            ) by {
                if i < levels.len() - 1 {
                    let below = file_levels(Some(parent));
                    assert(is_level_of(parent, i, below[i]));
                    let file = choose|file: Arc<ReadonlyIndexSegment>| #[trigger]
                        in_stack(Some(parent), file) && file.levels() == i + 1 && below[i] == (
                            file.local().len() as int,
                            Some(file.name_text()),
                        );
                    assert(in_stack(Some(stack), file));
                } else {
                    assert(is_level_of(stack, i, levels[i]));
                }
            }
        },
        None => {
            reveal_with_fuel(file_levels, 2);
        },
    }
}

/// The levels of an index are those of the files that it is on top of, and then its
/// own commits; and what the statistics say of them is what they are.
pub proof fn law_levels(segment: SegmentRef<'_>, levels: Seq<IndexLevelStats>)
    requires
        level_views(levels) == segment_levels(segment),
    ensures
        levels.len() > 0,
        levels.last().num_commits == segment.local().len(),
        match levels.last().name {
            Some(name) => segment.file_name() == Some(name@),
            None => segment.file_name() is None,
        },
        segment.parent() is None ==> levels.len() == 1,
        segment.parent() matches Some(parent) ==> levels.len() == parent.levels() + 1 && forall|
            i: int,
        |
            0 <= i < levels.len() - 1 ==> (#[trigger] levels[i]).name is Some && is_level_of(
                parent,
                i,
                (levels[i].num_commits as int, Some(levels[i].name->0@)),
            ),
{
    let views = level_views(levels);
    assert(views.last() == (segment.local().len() as int, segment.file_name()));
    assert(views[levels.len() - 1].0 == levels.last().num_commits);
    match segment.parent() {
        Some(parent) => {
            law_file_levels(parent);
            assert forall|i: int| 0 <= i < levels.len() - 1 implies (
            #[trigger] levels[i]).name is Some && is_level_of(
                parent,
                i,
                (levels[i].num_commits as int, Some(levels[i].name->0@)),
            ) by {
                assert(views[i] == file_levels(Some(parent))[i]);
                assert(is_level_of(parent, i, file_levels(Some(parent))[i]));
            }
        },
        None => {},
    }
}

} // verus!
