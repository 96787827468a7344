//! Questions about commits that are given by their ids, and walks.

use crate::ancestry::{are_heads, common_ancestor_set, is_below};
use crate::composite::CompositeIndex;
use crate::ids::{id_bytes, CommitId};
use crate::model::{
    has_all, has_commit, ids_at, is_at, lemma_links_descend, lemma_place, parent_links, place_of,
    places_of, valid_graph, Entry,
};
use crate::paths::{any_reaches, lemma_reaches_descends, reaches};
use crate::positions::IndexPosition;
use crate::rev_walk::{position_set, positions_inside, RevWalk};
use crate::sort::{lemma_same_images, lemma_same_items, sorted};
use vstd::prelude::*;

verus! {

/// The positions of the commits with the given ids, as a set.
pub open spec fn place_set(g: Seq<Entry>, ids: Seq<Seq<u8>>) -> Set<u32> {
    Set::new(|p: u32| places_of(g, ids).contains(p))
}

/// Whether the given ids, in the order of their commits and each once, are those
/// of the commits of a set that are not ancestors of others of the set.
pub open spec fn are_head_ids(g: Seq<Entry>, set: Set<u32>, ids: Seq<Seq<u8>>) -> bool {
    &&& has_all(g, ids)
    &&& forall|i: int, j: int|
        #![trigger ids[i], ids[j]]
        0 <= i < j < ids.len() ==> place_of(g, ids[i]) < place_of(g, ids[j])
    &&& forall|p: u32|
        p < g.len() ==> (#[trigger] places_of(g, ids).contains(p) <==> set.contains(p)
            && !is_below(g, set, p))
}

/// Positions, as plain numbers.
pub open spec fn numbers(positions: Seq<IndexPosition>) -> Seq<u32> {
    positions.map_values(|pos: IndexPosition| pos.0)
}

/// The set of the given positions is the set of their numbers.
proof fn lemma_numbers(positions: Seq<IndexPosition>)
    ensures
        position_set(positions) == Set::new(|p: u32| numbers(positions).contains(p)),
{
    let set = Set::new(|p: u32| numbers(positions).contains(p));
    assert forall|p: u32| position_set(positions).contains(p) <==> set.contains(p) by {
        if positions.contains(IndexPosition(p)) {
            let i = choose|i: int| 0 <= i < positions.len() && positions[i] == IndexPosition(p);
            assert(numbers(positions)[i] == p);
        }
        if numbers(positions).contains(p) {
            let i = choose|i: int| 0 <= i < positions.len() && numbers(positions)[i] == p;
            assert(positions[i] == IndexPosition(p));
        }
    }
    assert(position_set(positions) =~= set);
}

impl<'a> CompositeIndex<'a> {
    /// The positions of the commits with the given ids.
    fn positions_of(&self, ids: &[CommitId]) -> (positions: Vec<IndexPosition>)
        requires
            self.valid(),
            has_all(self.entries(), id_bytes(ids@)),
        ensures
            numbers(positions@) == places_of(self.entries(), id_bytes(ids@)),
            positions_inside(positions@, self.entries()),
            position_set(positions@) == place_set(self.entries(), id_bytes(ids@)),
    {
        let ghost g = self.entries();
        let ghost places = places_of(g, id_bytes(ids@));
        proof {
            self.lemma_valid();
        }
        let mut positions: Vec<IndexPosition> = Vec::new();
        let mut i: usize = 0;
        assert(numbers(positions@) =~= places.take(0));
        while i < ids.len()
            invariant
                i <= ids@.len(),
                ids.len() == ids@.len(),
                self.valid(),
                g == self.entries(),
                valid_graph(g),
                places == places_of(g, id_bytes(ids@)),
                has_all(g, id_bytes(ids@)),
                positions_inside(positions@, g),
                numbers(positions@) == places.take(i as int),
            decreases ids@.len() - i,
        {
            proof {
                assert(id_bytes(ids@)[i as int] == ids@[i as int]@);
                assert(has_commit(g, id_bytes(ids@)[i as int]));
            }
            let pos = self.commit_id_to_pos(&ids[i]).unwrap();
            let ghost before = positions@;
            positions.push(pos);
            proof {
                lemma_place(g, pos.0 as int);
                assert(numbers(positions@) =~= numbers(before).push(pos.0));
                assert(places.take(i + 1) =~= places.take(i as int).push(pos.0));
            }
            i += 1;
        }
        proof {
            assert(places.take(i as int) =~= places);
            lemma_numbers(positions@);
            assert(position_set(positions@) =~= place_set(g, id_bytes(ids@)));
        }
        positions
    }

    /// The ids of the commits at the given positions.
    fn ids_of(&self, positions: &[IndexPosition]) -> (ids: Vec<CommitId>)
        requires
            self.valid(),
            positions_inside(positions@, self.entries()),
        ensures
            id_bytes(ids@) == ids_at(self.entries(), numbers(positions@)),
    {
        let ghost g = self.entries();
        let ghost expected = ids_at(g, numbers(positions@));
        let mut ids: Vec<CommitId> = Vec::new();
        let mut i: usize = 0;
        assert(id_bytes(ids@) =~= expected.take(0));
        while i < positions.len()
            invariant
                i <= positions@.len(),
                positions.len() == positions@.len(),
                self.valid(),
                g == self.entries(),
                expected == ids_at(g, numbers(positions@)),
                positions_inside(positions@, g),
                id_bytes(ids@) == expected.take(i as int),
            decreases positions@.len() - i,
        {
            assert(positions@[i as int].0 < g.len());
            let id = self.entry_by_pos(positions[i]).commit_id();
            let ghost before = ids@;
            ids.push(id);
            proof {
                assert(id@ == expected[i as int]);
                assert(id_bytes(ids@) =~= id_bytes(before).push(id@));
                assert(expected.take(i + 1) =~= expected.take(i as int).push(id@));
            }
            i += 1;
        }
        assert(expected.take(i as int) =~= expected);
        ids
    }

    /// Whether a commit is an ancestor of another one, or the same.
    pub fn is_ancestor(&self, ancestor_id: &CommitId, descendant_id: &CommitId) -> (result: bool)
        requires
            self.valid(),
            has_commit(self.entries(), ancestor_id@),
            has_commit(self.entries(), descendant_id@),
        ensures
            result == reaches(
                parent_links(self.entries()),
                place_of(self.entries(), descendant_id@) as u32,
                place_of(self.entries(), ancestor_id@) as u32,
            ),
    {
        proof {
            self.lemma_valid();
        }
        match (self.commit_id_to_pos(ancestor_id), self.commit_id_to_pos(descendant_id)) {
            (Some(ancestor_pos), Some(descendant_pos)) => {
                proof {
                    lemma_place(self.entries(), ancestor_pos.0 as int);
                    lemma_place(self.entries(), descendant_pos.0 as int);
                }
                self.is_ancestor_pos(ancestor_pos, descendant_pos)
            },
            _ => {
                assert(false);
                false
            },
        }
    }

    /// The common ancestors of two sets of commits that are not ancestors of
    /// other common ancestors, in the order of their positions.
    pub fn common_ancestors(&self, set1: &[CommitId], set2: &[CommitId]) -> (ids: Vec<CommitId>)
        requires
            self.valid(),
            has_all(self.entries(), id_bytes(set1@)),
            has_all(self.entries(), id_bytes(set2@)),
        ensures
            are_head_ids(
                self.entries(),
                common_ancestor_set(
                    self.entries(),
                    place_set(self.entries(), id_bytes(set1@)),
                    place_set(self.entries(), id_bytes(set2@)),
                ),
                id_bytes(ids@),
            ),
    {
        proof {
            self.lemma_valid();
        }
        let positions1 = self.positions_of(set1);
        let positions2 = self.positions_of(set2);
        let heads = self.common_ancestors_pos(positions1.as_slice(), positions2.as_slice());
        let ghost common = common_ancestor_set(
            self.entries(),
            place_set(self.entries(), id_bytes(set1@)),
            place_set(self.entries(), id_bytes(set2@)),
        );
        proof {
            lemma_common_inside(
                self.entries(),
                positions1@,
                position_set(positions2@),
            );
            lemma_heads_inside(self.entries(), common, heads@);
        }
        let ids = self.ids_of(heads.as_slice());
        proof {
            lemma_head_ids(self.entries(), common, heads@, id_bytes(ids@));
        }
        ids
    }

    /// Those of the given commits that are not ancestors of others of them, in
    /// the order of their positions.
    pub fn heads(&self, candidate_ids: &[CommitId]) -> (ids: Vec<CommitId>)
        requires
            self.valid(),
            has_all(self.entries(), id_bytes(candidate_ids@)),
        ensures
            are_head_ids(
                self.entries(),
                place_set(self.entries(), id_bytes(candidate_ids@)),
                id_bytes(ids@),
            ),
    {
        proof {
            self.lemma_valid();
        }
        let positions = self.positions_of(candidate_ids);
        let heads = self.heads_pos(positions.as_slice());
        let ghost set = place_set(self.entries(), id_bytes(candidate_ids@));
        proof {
            assert forall|p: u32| #[trigger] set.contains(p) implies p < self.entries().len() by {
                assert(position_set(positions@).contains(p));
                let i = choose|i: int|
                    0 <= i < positions@.len() && positions@[i] == IndexPosition(p);
                assert(positions@[i].0 < self.entries().len());
            }
            lemma_heads_inside(self.entries(), set, heads@);
        }
        let ids = self.ids_of(heads.as_slice());
        proof {
            lemma_head_ids(self.entries(), set, heads@, id_bytes(ids@));
        }
        ids
    }

    /// The given commits, with parents before their children.
    pub fn topo_order(&self, input: &[CommitId]) -> (ids: Vec<CommitId>)
        requires
            self.valid(),
            has_all(self.entries(), id_bytes(input@)),
        ensures
            id_bytes(ids@).to_multiset() == id_bytes(input@).to_multiset(),
            forall|i: int, j: int|
                #![trigger ids@[i], ids@[j]]
                0 <= i < j < ids@.len() ==> place_of(self.entries(), ids@[i]@) <= place_of(
                    self.entries(),
                    ids@[j]@,
                ),
    {
        let ghost g = self.entries();
        proof {
            self.lemma_valid();
        }
        let positions = self.positions_of(input);
        let places = position_numbers(positions.as_slice());
        let ordered = sorted(places.as_slice());
        proof {
            lemma_same_items(ordered@, places@);
        }
        let mut ordered_positions: Vec<IndexPosition> = Vec::new();
        let mut i: usize = 0;
        while i < ordered.len()
            invariant
                i <= ordered@.len(),
                numbers(ordered_positions@) == ordered@.take(i as int),
            decreases ordered@.len() - i,
        {
            let ghost before = ordered_positions@;
            ordered_positions.push(IndexPosition(ordered[i]));
            assert(numbers(ordered_positions@) =~= numbers(before).push(ordered@[i as int]));
            i += 1;
            assert(numbers(ordered_positions@) =~= ordered@.take(i as int));
        }
        proof {
            assert(ordered@.take(i as int) =~= ordered@);
            assert forall|k: int| 0 <= k < ordered_positions@.len() implies (
            #[trigger] ordered_positions@[k]).0 < g.len() by {
                assert(numbers(ordered_positions@)[k] == ordered@[k]);
                assert(ordered@.contains(ordered@[k]));
                assert(places@.contains(ordered@[k]));
                let m = choose|m: int| 0 <= m < places@.len() && places@[m] == ordered@[k];
                assert(positions@[m].0 < g.len());
            }
        }
        let ids = self.ids_of(ordered_positions.as_slice());
        proof {
            let f = |p: u32| g[p as int].commit_id;
            lemma_same_images(ordered@, places@, f);
            assert(ordered@.map_values(f) =~= id_bytes(ids@));
            assert(places@.map_values(f) =~= id_bytes(input@)) by {
                assert forall|k: int| 0 <= k < input@.len() implies g[places@[k] as int].commit_id
                    == #[trigger] id_bytes(input@)[k] by {
                    assert(has_commit(g, id_bytes(input@)[k]));
                    let at = place_of(g, id_bytes(input@)[k]);
                    assert(is_at(g, id_bytes(input@)[k], at));
                    assert(places@[k] == at);
                }
            }
            assert forall|i: int, j: int|
                #![trigger ids@[i], ids@[j]]
                0 <= i < j < ids@.len() implies place_of(g, ids@[i]@) <= place_of(
                g,
                ids@[j]@,
            ) by {
                assert(id_bytes(ids@)[i] == ids@[i]@ && id_bytes(ids@)[j] == ids@[j]@);
                assert(ordered_positions@[i].0 < g.len() && ordered_positions@[j].0 < g.len());
                assert(numbers(ordered_positions@)[i] == ordered@[i]);
                assert(numbers(ordered_positions@)[j] == ordered@[j]);
                lemma_place(g, ordered@[i] as int);
                lemma_place(g, ordered@[j] as int);
            }
        }
        ids
    }

    /// Walks from the wanted commits to their ancestors, without the unwanted
    /// commits and their ancestors.
    pub fn walk_revs(&self, wanted: &[IndexPosition], unwanted: &[IndexPosition]) -> (walk: RevWalk<
        'a,
    >)
        requires
            self.valid(),
            positions_inside(wanted@, self.entries()),
            positions_inside(unwanted@, self.entries()),
        ensures
            walk.wf(),
            walk.entries() == self.entries(),
            walk.wanted() == position_set(wanted@),
            forall|p: u32| #[trigger]
                walk.barred().contains(p) <==> any_reaches(
                    parent_links(self.entries()),
                    position_set(unwanted@),
                    p,
                ),
    {
        let mut walk = RevWalk::new(*self);
        walk.extend_wanted(wanted);
        assert(walk.wanted() =~= position_set(wanted@));
        walk.extend_unwanted(unwanted);
        walk
    }
}

/// Positions, as plain numbers.
fn position_numbers(positions: &[IndexPosition]) -> (result: Vec<u32>)
    ensures
        result@ == numbers(positions@),
{
    let mut result: Vec<u32> = Vec::new();
    let mut i: usize = 0;
    while i < positions.len()
        invariant
            i <= positions@.len(),
            positions.len() == positions@.len(),
            result@ == numbers(positions@).take(i as int),
        decreases positions@.len() - i,
    {
        result.push(positions[i].0);
        i += 1;
        assert(result@ =~= numbers(positions@).take(i as int));
    }
    assert(result@ =~= numbers(positions@));
    result
}

/// Heads of commits of the index are commits of the index.
proof fn lemma_heads_inside(g: Seq<Entry>, set: Set<u32>, heads: Seq<IndexPosition>)
    requires
        are_heads(g, set, heads),
        forall|p: u32| #[trigger] set.contains(p) ==> p < g.len(),
    ensures
        positions_inside(heads, g),
{
    assert forall|i: int| 0 <= i < heads.len() implies (#[trigger] heads[i]).0 < g.len() by {
        let p = heads[i].0;
        assert(heads[i] == IndexPosition(p));
        assert(heads.contains(IndexPosition(p)));
        assert(set.contains(p));
    }
}

/// Common ancestors are commits of the index.
proof fn lemma_common_inside(g: Seq<Entry>, positions: Seq<IndexPosition>, other: Set<u32>)
    requires
        valid_graph(g),
        positions_inside(positions, g),
    ensures
        forall|p: u32| #[trigger]
            common_ancestor_set(g, position_set(positions), other).contains(p) ==> p < g.len(),
{
    let links = parent_links(g);
    lemma_links_descend(g);
    assert forall|p: u32| #[trigger]
        common_ancestor_set(g, position_set(positions), other).contains(p) implies p < g.len() by {
        let q = choose|q: u32|
            position_set(positions).contains(q) && #[trigger] reaches(links, q, p);
        let i = choose|i: int| 0 <= i < positions.len() && positions[i] == IndexPosition(q);
        assert(positions[i].0 < g.len());
        lemma_reaches_descends(links, q, p);
    }
}

/// Heads by position are heads by id.
proof fn lemma_head_ids(
    g: Seq<Entry>,
    set: Set<u32>,
    heads: Seq<IndexPosition>,
    ids: Seq<Seq<u8>>,
)
    requires
        valid_graph(g),
        are_heads(g, set, heads),
        positions_inside(heads, g),
        ids == ids_at(g, numbers(heads)),
    ensures
        are_head_ids(g, set, ids),
{
    let places = places_of(g, ids);
    assert forall|i: int| 0 <= i < ids.len() implies has_commit(g, #[trigger] ids[i]) && place_of(
        g,
        ids[i],
    ) == heads[i].0 && places[i] == heads[i].0 by {
        assert(heads[i].0 < g.len());
        lemma_place(g, heads[i].0 as int);
    }
    assert forall|p: u32| p < g.len() implies (#[trigger] places.contains(p) <==> set.contains(p)
        && !is_below(g, set, p)) by {
        assert(heads.contains(IndexPosition(p)) <==> set.contains(p) && !is_below(g, set, p));
        if places.contains(p) {
            let i = choose|i: int| 0 <= i < places.len() && places[i] == p;
            assert(ids[i] == ids[i]);
            assert(heads[i] == IndexPosition(p));
        }
        if heads.contains(IndexPosition(p)) {
            let i = choose|i: int| 0 <= i < heads.len() && heads[i] == IndexPosition(p);
            assert(has_commit(g, ids[i]));
            assert(places[i] == p);
        }
    }
    assert forall|i: int, j: int|
        #![trigger ids[i], ids[j]]
        0 <= i < j < ids.len() implies place_of(g, ids[i]) < place_of(g, ids[j]) by {
        assert(heads[i].0 < heads[j].0);
        assert(has_commit(g, ids[i]) && has_commit(g, ids[j]));
    }
}

} // verus!
