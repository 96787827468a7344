//! Walks from commits to those of their descendants that another walk visits.

use crate::entry::IndexEntry;
use crate::model::{lemma_links_descend, parent_links, valid_graph, Entry};
use crate::paths::{
    lemma_reaches_descends, lemma_reaches_link, lemma_reaches_self, lemma_reaches_transitive,
    lemma_reaches_via, reaches,
};
use crate::positions::IndexPosition;
use crate::rev_walk::{from_lowest, has_place, position_set, RevWalk};
use std::collections::HashSet;
use vstd::prelude::*;
use vstd::std_specs::iter::IteratorSpec;

verus! {

/// The nodes of a walk from which a path leads to a root that is a node of the
/// walk too.
pub open spec fn descendants_in(
    links: Map<u32, Seq<u32>>,
    walked: Set<u32>,
    roots: Set<u32>,
) -> Set<u32> {
    Set::new(|p: u32| walked.contains(p) && any_root_below(links, walked, roots, p))
}

/// Whether a path leads from a node to a root that is a node of the walk.
pub open spec fn any_root_below(
    links: Map<u32, Seq<u32>>,
    walked: Set<u32>,
    roots: Set<u32>,
    p: u32,
) -> bool {
    exists|r: u32| roots.contains(r) && walked.contains(r) && #[trigger] reaches(links, p, r)
}

/// Whether one of the given nodes is among the targets.
pub open spec fn any_in(nodes: Seq<u32>, targets: Set<u32>) -> bool {
    exists|k: int| 0 <= k < nodes.len() && targets.contains(#[trigger] nodes[k])
}

/// Whether the candidates, by descending positions, that are to be visited are
/// the targets that were not visited yet: the roots, and the candidates that have
/// a parent among the targets.
spec fn is_walk_back(
    g: Seq<Entry>,
    v: Seq<IndexEntry<'_>>,
    roots: Set<u32>,
    reached: Set<u32>,
    targets: Set<u32>,
) -> bool {
    &&& valid_graph(g)
    &&& forall|i: int| 0 <= i < v.len() ==> (#[trigger] v[i]).is_in(g)
    &&& forall|i: int, j: int|
        #![trigger v[i], v[j]]
        0 <= i < j < v.len() ==> v[i].place() > v[j].place()
    &&& forall|i: int|
        0 <= i < v.len() ==> (targets.contains((#[trigger] v[i]).place()) <==> roots.contains(
            v[i].place(),
        ) || any_in(v[i].model().parents, targets))
    &&& forall|p: u32| #[trigger]
        targets.contains(p) ==> reached.contains(p) || has_place(v, p)
    &&& forall|p: u32| #[trigger]
        reached.contains(p) ==> targets.contains(p) && !has_place(v, p)
}

/// A walk from roots to their descendants, in order of ascending position.
pub struct RevWalkDescendants<'a> {
    // By descending positions
    candidate_entries: Vec<IndexEntry<'a>>,
    root_positions: HashSet<u32>,
    reachable_positions: HashSet<u32>,
    commits: Ghost<Seq<Entry>>,
    // All that the walk visits
    targets: Ghost<Set<u32>>,
}

impl<'a> Clone for RevWalkDescendants<'a> {
    fn clone(&self) -> (walk: Self)
        ensures
            walk.wf() == self.wf(),
            walk.entries() == self.entries(),
            walk.visited() == self.visited(),
            walk.remaining() == self.remaining(),
    {
        let mut candidate_entries: Vec<IndexEntry<'a>> = Vec::new();
        let mut i: usize = 0;
        while i < self.candidate_entries.len()
            invariant
                i <= self.candidate_entries@.len(),
                candidate_entries@ == self.candidate_entries@.take(i as int),
            decreases self.candidate_entries@.len() - i,
        {
            candidate_entries.push(self.candidate_entries[i]);
            i += 1;
            assert(candidate_entries@ =~= self.candidate_entries@.take(i as int));
        }
        assert(candidate_entries@ =~= self.candidate_entries@);
        RevWalkDescendants {
            candidate_entries,
            root_positions: clone_set(&self.root_positions),
            reachable_positions: clone_set(&self.reachable_positions),
            commits: self.commits,
            targets: self.targets,
        }
    }
}

impl<'a> RevWalkDescendants<'a> {
    /// Whether the walk is one in a valid index.
    pub closed spec fn wf(&self) -> bool {
        is_walk_back(
            self.commits@,
            self.candidate_entries@,
            self.root_positions@,
            self.reachable_positions@,
            self.targets@,
        )
    }

    /// The commits of the index.
    pub closed spec fn entries(&self) -> Seq<Entry> {
        self.commits@
    }

    /// The positions of the commits that were visited.
    pub closed spec fn visited(&self) -> Set<u32> {
        self.reachable_positions@
    }

    /// The positions of the commits that are yet to be visited.
    pub closed spec fn remaining(&self) -> Set<u32> {
        self.targets@.difference(self.reachable_positions@)
    }

    /// Visits the next commit.
    pub fn next(&mut self) -> (entry: Option<IndexEntry<'a>>)
        requires
            old(self).wf(),
        ensures
            final(self).wf(),
            final(self).entries() == old(self).entries(),
            match entry {
                Some(entry) => {
                    let pos = entry.place();
                    &&& entry.is_in(old(self).entries())
                    &&& old(self).remaining().contains(pos)
                    &&& forall|p: u32| #[trigger] old(self).remaining().contains(p) ==> pos <= p
                    &&& final(self).remaining() == old(self).remaining().remove(pos)
                    &&& final(self).visited() == old(self).visited().insert(pos)
                },
                None => {
                    &&& old(self).remaining() == Set::<u32>::empty()
                    &&& final(self).remaining() == Set::<u32>::empty()
                    &&& final(self).visited() == old(self).visited()
                },
            },
    {
        broadcast use vstd::std_specs::hash::group_hash_axioms;

        loop
            invariant
                self.wf(),
                self.commits@ == old(self).commits@,
                self.targets@ == old(self).targets@,
                self.reachable_positions@ == old(self).reachable_positions@,
            decreases self.candidate_entries@.len(),
        {
            let ghost v = self.candidate_entries@;
            let ghost targets = self.targets@;
            let ghost reached = self.reachable_positions@;
            match self.candidate_entries.pop() {
                Some(candidate) => {
                    let ghost w = self.candidate_entries@;
                    let pos: u32 = candidate.position().0;
                    proof {
                        assert(v[v.len() - 1] == candidate);
                        assert(w =~= v.drop_last());
                        lemma_popped(v, w, candidate);
                        lemma_parents_reached(
                            self.commits@,
                            v,
                            candidate,
                            targets,
                            reached,
                        );
                    }
                    let reachable = self.root_positions.contains(&pos)
                        || self.has_reachable_parent(&candidate);
                    if reachable {
                        self.reachable_positions.insert(pos);
                        proof {
                            assert(self.remaining() =~= old(self).remaining().remove(pos));
                            assert forall|p: u32| #[trigger]
                                old(self).remaining().contains(p) implies pos <= p by {
                                assert(has_place(v, p));
                            }
                        }
                        return Some(candidate);
                    }
                },
                None => {
                    proof {
                        assert forall|p: u32| !self.remaining().contains(p) by {
                            if targets.contains(p) {
                                assert(reached.contains(p) || has_place(v, p));
                            }
                        }
                        assert(self.remaining() =~= Set::<u32>::empty());
                    }
                    return None;
                },
            }
        }
    }

    /// Whether a parent of a commit was visited.
    fn has_reachable_parent(&self, entry: &IndexEntry<'a>) -> (result: bool)
        requires
            entry.wf(),
        ensures
            result == any_in(entry.model().parents, self.reachable_positions@),
    {
        broadcast use vstd::std_specs::hash::group_hash_axioms;

        let positions = entry.parent_positions();
        let ghost parents = entry.model().parents;
        let mut i: usize = 0;
        while i < positions.len()
            invariant
                i <= positions@.len(),
                positions@ == parents,
                parents == entry.model().parents,
                forall|k: int|
                    0 <= k < i ==> !self.reachable_positions@.contains(#[trigger] parents[k]),
            decreases positions@.len() - i,
        {
            let parent_pos: u32 = positions.get(i).0;
            if self.reachable_positions.contains(&parent_pos) {
                assert(self.reachable_positions@.contains(parents[i as int]));
                return true;
            }
            i += 1;
        }
        false
    }

    /// Builds a set of index positions reachable from the roots.
    ///
    /// This is equivalent to collecting the positions of the entries of the new
    /// walk, but returns the internal buffer instead.
    pub fn collect_positions_set(self) -> (positions: HashSet<u32>)
        requires
            self.wf(),
        ensures
            positions@ == self.visited().union(self.remaining()),
    {
        let ghost all = self.visited().union(self.remaining());
        let mut walk = self;
        let ghost mut bound: int = 0;
        loop
            invariant
                walk.wf(),
                walk.visited().union(walk.remaining()) == all,
                all == self.visited().union(self.remaining()),
                0 <= bound <= u32::MAX + 1,
                forall|p: u32| #[trigger] walk.remaining().contains(p) ==> bound <= p,
            decreases u32::MAX + 1 - bound,
        {
            let ghost before = walk;
            match walk.next() {
                Some(entry) => {
                    proof {
                        let pos = entry.place();
                        assert(walk.visited().union(walk.remaining()) =~= before.visited().union(
                            before.remaining(),
                        ));
                        bound = pos + 1;
                    }
                },
                None => {
                    assert(walk.visited() =~= all);
                    return walk.reachable_positions;
                },
            }
        }
    }
}

/// What is left of the candidates when the last one is taken out.
proof fn lemma_popped(v: Seq<IndexEntry<'_>>, w: Seq<IndexEntry<'_>>, last: IndexEntry<'_>)
    requires
        v.len() > 0,
        last == v[v.len() - 1],
        w == v.drop_last(),
        forall|i: int, j: int|
            #![trigger v[i], v[j]]
            0 <= i < j < v.len() ==> v[i].place() > v[j].place(),
    ensures
        forall|p: u32| #[trigger] has_place(v, p) <==> has_place(w, p) || p == last.place(),
        !has_place(w, last.place()),
        forall|p: u32| #[trigger] has_place(v, p) ==> last.place() <= p,
{
    assert forall|p: u32| #[trigger] has_place(v, p) <==> has_place(w, p) || p == last.place() by {
        if has_place(v, p) {
            let i = choose|i: int| 0 <= i < v.len() && (#[trigger] v[i]).place() == p;
            if i < w.len() {
                assert(w[i].place() == p);
            }
        }
        if has_place(w, p) {
            let i = choose|i: int| 0 <= i < w.len() && (#[trigger] w[i]).place() == p;
            assert(v[i].place() == p);
        }
        assert(v[v.len() - 1].place() == last.place());
    }
    if has_place(w, last.place()) {
        let i = choose|i: int| 0 <= i < w.len() && (#[trigger] w[i]).place() == last.place();
        assert(v[i].place() > v[v.len() - 1].place());
    }
    assert forall|p: u32| #[trigger] has_place(v, p) implies last.place() <= p by {
        let i = choose|i: int| 0 <= i < v.len() && (#[trigger] v[i]).place() == p;
        if i < v.len() - 1 {
            assert(v[i].place() > v[v.len() - 1].place());
        }
    }
}

/// The parents of the last candidate that are to be visited were visited.
proof fn lemma_parents_reached(
    g: Seq<Entry>,
    v: Seq<IndexEntry<'_>>,
    last: IndexEntry<'_>,
    targets: Set<u32>,
    reached: Set<u32>,
)
    requires
        valid_graph(g),
        last.is_in(g),
        forall|p: u32| #[trigger] has_place(v, p) ==> last.place() <= p,
        forall|p: u32| #[trigger]
            targets.contains(p) ==> reached.contains(p) || has_place(v, p),
        forall|p: u32| #[trigger] reached.contains(p) ==> targets.contains(p),
    ensures
        any_in(last.model().parents, reached) <==> any_in(last.model().parents, targets),
{
    let parents = last.model().parents;
    last.lemma_parent_ids(g);
    if any_in(parents, reached) {
        let k = choose|k: int| 0 <= k < parents.len() && reached.contains(#[trigger] parents[k]);
        assert(targets.contains(parents[k]));
    }
    if any_in(parents, targets) {
        let k = choose|k: int| 0 <= k < parents.len() && targets.contains(#[trigger] parents[k]);
        assert(g[last.place() as int].parents[k] < last.place());
        assert(reached.contains(parents[k]));
    }
}

impl<'a> RevWalk<'a> {
    /// A commit of a walk on the way to another one: what is between them is
    /// walked too.
    pub proof fn lemma_between(&self, p: u32, q: u32, r: u32)
        requires
            self.wf(),
            self.remaining().contains(p),
            self.remaining().contains(r),
            reaches(parent_links(self.entries()), p, q),
            reaches(parent_links(self.entries()), q, r),
        ensures
            self.remaining().contains(q),
    {
        let links = parent_links(self.entries());
        self.lemma_remaining();
        let w = choose|w: u32| self.wanted().contains(w) && #[trigger] reaches(links, w, p);
        lemma_reaches_transitive(links, w, p, q);
        assert(!self.barred().contains(r));
        if self.barred().contains(q) {
            assert(self.barred().contains(r));
        }
    }

    /// A commit of a walk has a root below it if it is one or a parent of it has
    /// a root below it and is walked.
    proof fn lemma_descendant_step(&self, roots: Set<u32>, p: u32)
        requires
            self.wf(),
            self.remaining().contains(p),
        ensures
            ({
                let links = parent_links(self.entries());
                let targets = descendants_in(links, self.remaining(), roots);
                targets.contains(p) <==> roots.contains(p) || any_in(
                    self.entries()[p as int].parents,
                    targets,
                )
            }),
    {
        let links = parent_links(self.entries());
        let walked = self.remaining();
        let targets = descendants_in(links, walked, roots);
        let parents = self.entries()[p as int].parents;
        self.lemma_remaining();
        assert(p < self.entries().len());
        assert(links.dom().contains(p) && links[p] == parents);
        if roots.contains(p) {
            lemma_reaches_self(links, p);
        }
        if any_in(parents, targets) {
            let k = choose|k: int|
                0 <= k < parents.len() && targets.contains(#[trigger] parents[k]);
            let r = choose|r: u32|
                roots.contains(r) && walked.contains(r) && #[trigger] reaches(
                    links,
                    parents[k],
                    r,
                );
            lemma_reaches_via(links, p, k, r);
        }
        if targets.contains(p) && !roots.contains(p) {
            let r = choose|r: u32|
                roots.contains(r) && walked.contains(r) && #[trigger] reaches(links, p, r);
            let k = lemma_reaches_link(links, p, r);
            lemma_reaches_self(links, parents[k]);
            lemma_reaches_via(links, p, k, parents[k]);
            self.lemma_between(p, parents[k], r);
            assert(targets.contains(parents[k]));
        }
    }

    /// Fully consumes the walk and walks back from the roots.
    ///
    /// The returned walk visits entries in order of ascending index position.
    pub fn descendants(self, root_positions: &[IndexPosition]) -> (walk: RevWalkDescendants<'a>)
        requires
            self.wf(),
        ensures
            walk.wf(),
            walk.entries() == self.entries(),
            walk.visited() == Set::<u32>::empty(),
            walk.remaining() == descendants_in(
                parent_links(self.entries()),
                self.remaining(),
                position_set(root_positions@),
            ),
    {
        broadcast use vstd::std_specs::hash::group_hash_axioms;

        let ghost g = self.entries();
        let ghost links = parent_links(g);
        let ghost walked = self.remaining();
        let ghost roots = position_set(root_positions@);
        let ghost targets = descendants_in(links, walked, roots);
        proof {
            self.lemma_remaining();
            lemma_links_descend(g);
        }
        let root_set = to_set(root_positions);
        let candidate_entries = self.take_until_roots(root_positions);
        let reachable_positions: HashSet<u32> = HashSet::new();
        let walk = RevWalkDescendants {
            candidate_entries,
            root_positions: root_set,
            reachable_positions,
            commits: Ghost(g),
            targets: Ghost(targets),
        };
        proof {
            let v = candidate_entries@;
            let taken = from_lowest(walked, root_positions@);
            assert forall|i: int| 0 <= i < v.len() implies (targets.contains(
                (#[trigger] v[i]).place(),
            ) <==> {
                ||| root_set@.contains(v[i].place())
                ||| any_in(v[i].model().parents, targets)
            }) by {
                let p = v[i].place();
                assert(has_place(v, p));
                assert(taken.contains(p));
                self.lemma_descendant_step(roots, p);
                v[i].lemma_parent_ids(g);
            }
            assert forall|p: u32| #[trigger] targets.contains(p) implies has_place(v, p) by {
                let r = choose|r: u32|
                    roots.contains(r) && walked.contains(r) && #[trigger] reaches(links, p, r);
                lemma_reaches_descends(links, p, r);
                let i = choose|i: int|
                    0 <= i < root_positions@.len() && root_positions@[i] == IndexPosition(r);
                assert(root_positions@[i].0 <= p);
                assert(taken.contains(p));
            }
            assert(walk.remaining() =~= targets);
        }
        walk
    }
}

/// The same set again.
fn clone_set(set: &HashSet<u32>) -> (result: HashSet<u32>)
    ensures
        result@ == set@,
{
    broadcast use vstd::std_specs::hash::group_hash_axioms;

    let mut result: HashSet<u32> = HashSet::new();
    for pos in iter: set.iter()
        invariant
            forall|p: u32| #[trigger]
                result@.contains(p) <==> exists|k: int|
                    0 <= k < iter.index() && *(#[trigger] iter.seq()[k]) == p,
    {
        result.insert(*pos);
        proof {
            let k = iter.index();
            assert(*iter.seq()[k] == *pos);
        }
    }
    proof {
        let all = set.iter().remaining();
        assert forall|p: u32| result@.contains(p) <==> set@.contains(p) by {
            assert(set@.contains(p) <==> all.unref().contains(p));
            if all.unref().contains(p) {
                let k = choose|k: int| 0 <= k < all.len() && all.unref()[k] == p;
                assert(*all[k] == p);
            }
            if result@.contains(p) {
                let k = choose|k: int| 0 <= k < all.len() && *(#[trigger] all[k]) == p;
                assert(all.unref()[k] == p);
            }
        }
        assert(result@ =~= set@);
    }
    result
}

/// The given positions, as a set.
fn to_set(positions: &[IndexPosition]) -> (set: HashSet<u32>)
    ensures
        set@ == position_set(positions@),
{
    broadcast use vstd::std_specs::hash::group_hash_axioms;

    let mut set: HashSet<u32> = HashSet::new();
    let mut i: usize = 0;
    while i < positions.len()
        invariant
            i <= positions@.len(),
            positions.len() == positions@.len(),
            set@ == position_set(positions@.take(i as int)),
        decreases positions@.len() - i,
    {
        let ghost before = set@;
        set.insert(positions[i].0);
        proof {
            let now = positions@.take(i as int);
            let next = positions@.take(i + 1);
            assert(next =~= now.push(positions@[i as int]));
            assert forall|p: u32| position_set(next).contains(p) <==> before.contains(p) || p
                == positions@[i as int].0 by {
                if now.contains(IndexPosition(p)) {
                    let k = choose|k: int| 0 <= k < now.len() && now[k] == IndexPosition(p);
                    assert(next[k] == IndexPosition(p));
                }
                assert(next[i as int] == positions@[i as int]);
                if next.contains(IndexPosition(p)) {
                    let k = choose|k: int| 0 <= k < next.len() && next[k] == IndexPosition(p);
                    if k < i {
                        assert(now[k] == IndexPosition(p));
                    }
                }
            }
            assert(set@ =~= position_set(next));
        }
        i += 1;
    }
    assert(positions@.take(i as int) =~= positions@);
    set
}

} // verus!
