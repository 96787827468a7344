//! Walks from commits to their descendants at given distances.

use crate::composite::CompositeIndex;
use crate::entry::IndexEntry;
use crate::generation_walk::{in_generations, wanted_in_range, RevWalkGenerationRangeImpl};
use crate::model::{parent_links, Entry};
use crate::paths::{lemma_first_link, lemma_last_link, lemma_path_append, lemma_path_step, path};
use crate::positions::{IndexPosition, SmallIndexPositionsVec};
use crate::queue::{
    lemma_inserted, lemma_no_items, unwanted_item, wanted_item, AnyDistance, RevWalkQueue,
    RevWalkWorkItem,
};
use crate::rev_walk::{
    from_lowest, has_place, is_wanted_key, not_before_all, position_set, RevWalk, RevWalkIndex,
};
use crate::walk::{bars, held};
use core::ops::Range;
use std::collections::HashMap;
use vstd::prelude::*;

verus! {

/// The key of a commit in a walk by ascending positions.
pub open spec fn reverse(p: u32) -> u32 {
    (u32::MAX - p) as u32
}

/// The lists that a map holds.
pub open spec fn child_lists(m: Map<u32, SmallIndexPositionsVec>) -> Map<u32, Seq<u32>> {
    Map::new(|p: u32| m.contains_key(p), |p: u32| m[p]@)
}

/// Whether a commit is a parent of one of the given commits.
pub open spec fn is_parent_in(g: Seq<Entry>, places: Set<u32>, p: u32) -> bool {
    exists|d: u32| #[trigger] places.contains(d) && g[d as int].parents.contains(p)
}

/// Whether a child key stands for a commit among the given ones that has the
/// given parent.
spec fn is_child(g: Seq<Entry>, places: Set<u32>, p: u32, key: u32) -> bool {
    &&& places.contains(reverse(key))
    &&& g[reverse(key) as int].parents.contains(p)
}

/// Whether a commit has a list, and is in the lists of its first `n` parents.
spec fn is_listed(g: Seq<Entry>, lists: Map<u32, Seq<u32>>, d: u32, n: int) -> bool {
    &&& lists.dom().contains(d)
    &&& forall|k: int|
        0 <= k < n ==> {
            let p = #[trigger] g[d as int].parents[k];
            lists.dom().contains(p) && lists[p].contains(reverse(d))
        }
}

/// Whether lists hold the children among the given commits of each of these and
/// of their parents.
spec fn are_children(g: Seq<Entry>, places: Set<u32>, lists: Map<u32, Seq<u32>>) -> bool {
    &&& forall|p: u32, k: int|
        #![trigger lists[p][k]]
        lists.dom().contains(p) && 0 <= k < lists[p].len() ==> is_child(
            g,
            places,
            p,
            lists[p][k],
        )
    &&& forall|d: u32| #[trigger]
        places.contains(d) ==> is_listed(g, lists, d, g[d as int].parents.len() as int)
    &&& forall|p: u32| #[trigger]
        lists.dom().contains(p) ==> places.contains(p) || is_parent_in(g, places, p)
}

/// While a commit is put in: it has a list, and is in the lists of its first `n`
/// parents.
spec fn are_children_up_to(
    g: Seq<Entry>,
    places: Set<u32>,
    lists: Map<u32, Seq<u32>>,
    d: u32,
    n: int,
) -> bool {
    let more = places.insert(d);
    &&& forall|p: u32, k: int|
        #![trigger lists[p][k]]
        lists.dom().contains(p) && 0 <= k < lists[p].len() ==> is_child(g, more, p, lists[p][k])
    &&& forall|e: u32| #[trigger]
        places.contains(e) ==> is_listed(g, lists, e, g[e as int].parents.len() as int)
    &&& is_listed(g, lists, d, n)
    &&& forall|p: u32| #[trigger]
        lists.dom().contains(p) ==> more.contains(p) || is_parent_in(g, more, p)
}

/// Gives a commit a list, if it has none.
fn mark(children_map: &mut HashMap<u32, SmallIndexPositionsVec>, pos: u32)
    ensures
        child_lists(final(children_map)@) == (if child_lists(
            old(children_map)@,
        ).dom().contains(pos) {
            child_lists(old(children_map)@)
        } else {
            child_lists(old(children_map)@).insert(pos, Seq::empty())
        }),
{
    broadcast use vstd::std_specs::hash::group_hash_axioms;

    if !children_map.contains_key(&pos) {
        children_map.insert(pos, SmallIndexPositionsVec::new());
    }
    proof {
        let lists = child_lists(old(children_map)@);
        if lists.dom().contains(pos) {
            assert(child_lists(children_map@) =~= lists);
        } else {
            assert(child_lists(children_map@) =~= lists.insert(pos, Seq::empty()));
        }
    }
}

/// Puts a child into the list of a commit.
fn add_child(children_map: &mut HashMap<u32, SmallIndexPositionsVec>, pos: u32, key: u32)
    ensures
        ({
            let lists = child_lists(old(children_map)@);
            let list = if lists.dom().contains(pos) {
                lists[pos]
            } else {
                Seq::empty()
            };
            child_lists(final(children_map)@) == lists.insert(pos, list.push(key))
        }),
{
    broadcast use vstd::std_specs::hash::group_hash_axioms;

    let ghost lists = child_lists(children_map@);
    let mut children = match children_map.remove(&pos) {
        Some(children) => children,
        None => SmallIndexPositionsVec::new(),
    };
    let ghost list = children@;
    children.push(IndexPosition(key));
    children_map.insert(pos, children);
    assert(child_lists(children_map@) =~= lists.insert(pos, list.push(key)));
}

/// Marking a commit, before it is put into the lists of its parents.
proof fn lemma_marked(
    g: Seq<Entry>,
    places: Set<u32>,
    lists: Map<u32, Seq<u32>>,
    marked: Map<u32, Seq<u32>>,
    d: u32,
)
    requires
        are_children(g, places, lists),
        marked == (if lists.dom().contains(d) {
            lists
        } else {
            lists.insert(d, Seq::empty())
        }),
    ensures
        are_children_up_to(g, places, marked, d, 0),
{
    let more = places.insert(d);
    assert forall|p: u32, k: int|
        #![trigger marked[p][k]]
        marked.dom().contains(p) && 0 <= k < marked[p].len() implies is_child(
        g,
        more,
        p,
        marked[p][k],
    ) by {
        assert(marked[p][k] == lists[p][k]);
        assert(is_child(g, places, p, lists[p][k]));
    }
    assert forall|e: u32| #[trigger] places.contains(e) implies is_listed(
        g,
        marked,
        e,
        g[e as int].parents.len() as int,
    ) by {
        assert(is_listed(g, lists, e, g[e as int].parents.len() as int));
        assert forall|k: int| 0 <= k < g[e as int].parents.len() implies {
            let p = #[trigger] g[e as int].parents[k];
            marked.dom().contains(p) && marked[p].contains(reverse(e))
        } by {
            let p = g[e as int].parents[k];
            assert(lists.dom().contains(p) && lists[p].contains(reverse(e)));
        }
    }
    assert forall|p: u32| #[trigger] marked.dom().contains(p) implies more.contains(p)
        || is_parent_in(g, more, p) by {
        if p != d && !places.contains(p) {
            assert(is_parent_in(g, places, p));
            let e = choose|e: u32| #[trigger]
                places.contains(e) && g[e as int].parents.contains(p);
            assert(more.contains(e));
        }
    }
}

/// Putting a commit into the list of its next parent.
proof fn lemma_child_added(
    g: Seq<Entry>,
    places: Set<u32>,
    lists: Map<u32, Seq<u32>>,
    added: Map<u32, Seq<u32>>,
    d: u32,
    n: int,
)
    requires
        are_children_up_to(g, places, lists, d, n),
        0 <= n < g[d as int].parents.len(),
        ({
            let pos = g[d as int].parents[n];
            let list = if lists.dom().contains(pos) {
                lists[pos]
            } else {
                Seq::empty()
            };
            added == lists.insert(pos, list.push(reverse(d)))
        }),
    ensures
        are_children_up_to(g, places, added, d, n + 1),
{
    let more = places.insert(d);
    let pos = g[d as int].parents[n];
    let list = if lists.dom().contains(pos) {
        lists[pos]
    } else {
        Seq::empty()
    };
    let key = reverse(d);
    assert(added[pos] == list.push(key));
    assert(added[pos][list.len() as int] == key);
    assert(added[pos].contains(key));
    assert(reverse(key) == d);
    assert forall|p: u32, k: int|
        #![trigger added[p][k]]
        added.dom().contains(p) && 0 <= k < added[p].len() implies is_child(
        g,
        more,
        p,
        added[p][k],
    ) by {
        if p == pos && k == list.len() {
            assert(g[d as int].parents.contains(pos));
        } else {
            assert(added[p][k] == lists[p][k]);
            assert(is_child(g, more, p, lists[p][k]));
        }
    }
    lemma_still_listed(g, lists, added, d, n);
    assert forall|k: int| 0 <= k < n + 1 implies {
        let p = #[trigger] g[d as int].parents[k];
        added.dom().contains(p) && added[p].contains(reverse(d))
    } by {
        if k < n {
            assert(is_listed(g, added, d, n));
        }
    }
    assert forall|e: u32| #[trigger] places.contains(e) implies is_listed(
        g,
        added,
        e,
        g[e as int].parents.len() as int,
    ) by {
        lemma_still_listed(g, lists, added, e, g[e as int].parents.len() as int);
    }
    assert forall|p: u32| #[trigger] added.dom().contains(p) implies more.contains(p)
        || is_parent_in(g, more, p) by {
        if p == pos {
            assert(more.contains(d) && g[d as int].parents.contains(pos));
        } else {
            assert(lists.dom().contains(p));
        }
    }
}

/// A commit stays listed when lists grow.
proof fn lemma_still_listed(
    g: Seq<Entry>,
    lists: Map<u32, Seq<u32>>,
    more: Map<u32, Seq<u32>>,
    d: u32,
    n: int,
)
    requires
        is_listed(g, lists, d, n),
        forall|p: u32| #[trigger]
            lists.dom().contains(p) ==> more.dom().contains(p) && lists[p].is_prefix_of(more[p]),
    ensures
        is_listed(g, more, d, n),
{
    assert(lists.dom().contains(d));
    assert forall|k: int| 0 <= k < n implies {
        let p = #[trigger] g[d as int].parents[k];
        more.dom().contains(p) && more[p].contains(reverse(d))
    } by {
        let p = g[d as int].parents[k];
        assert(lists.dom().contains(p) && lists[p].contains(reverse(d)));
        let i = choose|i: int| 0 <= i < lists[p].len() && lists[p][i] == reverse(d);
        assert(more[p][i] == reverse(d));
    }
}

/// A commit is in once it is in the lists of all its parents.
proof fn lemma_child_done(g: Seq<Entry>, places: Set<u32>, lists: Map<u32, Seq<u32>>, d: u32)
    requires
        are_children_up_to(g, places, lists, d, g[d as int].parents.len() as int),
    ensures
        are_children(g, places.insert(d), lists),
{
}

/// The commits of a walk with the children that they have in the walk, to be
/// walked from parents to children.
pub struct RevWalkDescendantsIndex<'a> {
    index: CompositeIndex<'a>,
    children_map: HashMap<u32, SmallIndexPositionsVec>,
    // The positions of the commits of the walk
    places: Ghost<Set<u32>>,
}

impl<'a> RevWalkDescendantsIndex<'a> {
    /// The positions of the commits of the walk.
    pub closed spec fn walked(&self) -> Set<u32> {
        self.places@
    }

    /// Finds the children of the given commits and of their parents.
    pub fn build(index: CompositeIndex<'a>, entries: &Vec<IndexEntry<'a>>) -> (result: Self)
        requires
            index.valid(),
            forall|i: int|
                0 <= i < entries@.len() ==> (#[trigger] entries@[i]).is_in(index.entries()),
        ensures
            result.walkable(),
            result.commits() == index.entries(),
            forall|p: u32| #[trigger] result.walked().contains(p) <==> has_place(entries@, p),
    {
        broadcast use vstd::std_specs::hash::group_hash_axioms;

        let ghost g = index.entries();
        let mut children_map: HashMap<u32, SmallIndexPositionsVec> = HashMap::new();
        let ghost mut places: Set<u32> = Set::empty();
        let mut i: usize = 0;
        while i < entries.len()
            invariant
                i <= entries@.len(),
                g == index.entries(),
                index.valid(),
                forall|j: int| 0 <= j < entries@.len() ==> (#[trigger] entries@[j]).is_in(g),
                are_children(g, places, child_lists(children_map@)),
                forall|p: u32| #[trigger]
                    places.contains(p) <==> has_place(entries@.take(i as int), p),
            decreases entries@.len() - i,
        {
            let entry = entries[i];
            let pos: u32 = entry.position().0;
            let key: u32 = u32::MAX - pos;
            let positions = entry.parent_positions();
            let ghost parents = g[pos as int].parents;
            proof {
                entry.lemma_parent_ids(g);
            }
            let ghost before = child_lists(children_map@);
            mark(&mut children_map, pos);
            proof {
                lemma_marked(g, places, before, child_lists(children_map@), pos);
            }
            let mut k: usize = 0;
            while k < positions.len()
                invariant
                    k <= positions@.len(),
                    positions@ == parents,
                    parents == g[pos as int].parents,
                    key == reverse(pos),
                    are_children_up_to(g, places, child_lists(children_map@), pos, k as int),
                decreases positions@.len() - k,
            {
                let ghost lists = child_lists(children_map@);
                add_child(&mut children_map, positions.get(k).0, key);
                proof {
                    lemma_child_added(
                        g,
                        places,
                        lists,
                        child_lists(children_map@),
                        pos,
                        k as int,
                    );
                }
                k += 1;
            }
            proof {
                lemma_child_done(g, places, child_lists(children_map@), pos);
                let now = entries@.take(i as int);
                let next = entries@.take(i + 1);
                assert(next =~= now.push(entry));
                assert forall|p: u32| #[trigger] has_place(next, p) <==> has_place(now, p) || p
                    == pos by {
                    if has_place(now, p) {
                        let j = choose|j: int|
                            0 <= j < now.len() && (#[trigger] now[j]).place() == p;
                        assert(next[j].place() == p);
                    }
                    assert(next[i as int].place() == pos);
                    if has_place(next, p) {
                        let j = choose|j: int|
                            0 <= j < next.len() && (#[trigger] next[j]).place() == p;
                        if j < i {
                            assert(now[j].place() == p);
                        }
                    }
                }
                places = places.insert(pos);
            }
            i += 1;
        }
        proof {
            assert(entries@.take(i as int) =~= entries@);
            assert forall|p: u32| #[trigger] places.contains(p) implies p < g.len() by {
                assert(has_place(entries@, p));
                let j = choose|j: int|
                    0 <= j < entries@.len() && (#[trigger] entries@[j]).place() == p;
            }
        }
        RevWalkDescendantsIndex { index, children_map, places: Ghost(places) }
    }

    /// Whether a commit is one of the walk, or a parent of one.
    pub fn contains_pos(&self, pos: IndexPosition) -> (result: bool)
        requires
            self.walkable(),
        ensures
            result == (self.walked().contains(pos.0) || is_parent_in(
                self.commits(),
                self.walked(),
                pos.0,
            )),
            result == self.links().dom().contains(reverse(pos.0)),
    {
        broadcast use vstd::std_specs::hash::group_hash_axioms;

        proof {
            self.lemma_in_links(pos.0);
            assert(reverse(reverse(pos.0)) == pos.0);
        }
        self.children_map.contains_key(&pos.0)
    }
}

/// Commits with their positions, counted down from the greatest, as keys, linked
/// to their children.
impl<'a> RevWalkIndex<'a> for RevWalkDescendantsIndex<'a> {
    closed spec fn links(&self) -> Map<u32, Seq<u32>> {
        Map::new(
            |key: u32| child_lists(self.children_map@).dom().contains(reverse(key)),
            |key: u32| child_lists(self.children_map@)[reverse(key)],
        )
    }

    closed spec fn commits(&self) -> Seq<Entry> {
        self.index.entries()
    }

    open spec fn place(&self, key: u32) -> u32 {
        reverse(key)
    }

    closed spec fn walkable(&self) -> bool {
        &&& self.index.valid()
        &&& are_children(self.index.entries(), self.places@, child_lists(self.children_map@))
        &&& forall|p: u32| #[trigger]
            self.places@.contains(p) ==> p < self.index.entries().len()
    }

    proof fn lemma_walkable(&self) {
        let links = self.links();
        let lists = child_lists(self.children_map@);
        let g = self.index.entries();
        self.index.lemma_valid();
        assert forall|x: u32, k: int|
            #![trigger links[x][k]]
            links.dom().contains(x) && 0 <= k < links[x].len() implies links.dom().contains(
            links[x][k],
        ) && links[x][k] < x by {
            let p = reverse(x);
            let y = links[x][k];
            let d = reverse(y);
            assert(y == lists[p][k]);
            assert(is_child(g, self.places@, p, y));
            assert(is_listed(g, lists, d, g[d as int].parents.len() as int));
            let i = choose|i: int|
                0 <= i < g[d as int].parents.len() && g[d as int].parents[i] == p;
            assert(g[d as int].parents[i] < d);
            assert(reverse(reverse(y)) == y);
        }
    }

    fn entry_by_key(&self, key: u32) -> (entry: IndexEntry<'a>) {
        proof {
            self.lemma_key(key);
        }
        self.index.entry_by_pos(IndexPosition(u32::MAX - key))
    }

    fn adjacent_keys(&self, key: u32, entry: &IndexEntry<'a>) -> (keys: SmallIndexPositionsVec) {
        broadcast use vstd::std_specs::hash::group_hash_axioms;

        let pos: u32 = u32::MAX - key;
        self.children_map.get(&pos).unwrap().clone()
    }
}

impl<'a> RevWalkDescendantsIndex<'a> {
    /// The commits of the walk and their parents are in the index.
    proof fn lemma_in_links(&self, p: u32)
        requires
            self.walkable(),
        ensures
            self.links().dom().contains(reverse(p)) <==> self.walked().contains(p)
                || is_parent_in(self.commits(), self.walked(), p),
            self.links().dom().contains(reverse(p)) <==> self.children_map@.contains_key(p),
    {
        let lists = child_lists(self.children_map@);
        let g = self.commits();
        assert(reverse(reverse(p)) == p);
        if self.places@.contains(p) {
            assert(is_listed(g, lists, p, g[p as int].parents.len() as int));
        }
        if is_parent_in(g, self.places@, p) {
            let d = choose|d: u32| #[trigger]
                self.places@.contains(d) && g[d as int].parents.contains(p);
            assert(is_listed(g, lists, d, g[d as int].parents.len() as int));
            let k = choose|k: int|
                0 <= k < g[d as int].parents.len() && g[d as int].parents[k] == p;
            assert(lists.dom().contains(g[d as int].parents[k]));
        }
    }

    /// Keys stand for commits.
    proof fn lemma_key(&self, key: u32)
        requires
            self.walkable(),
            self.links().dom().contains(key),
        ensures
            reverse(key) < self.commits().len(),
    {
        let p = reverse(key);
        let g = self.index.entries();
        self.index.lemma_valid();
        if !self.places@.contains(p) {
            assert(is_parent_in(g, self.places@, p));
            let d = choose|d: u32| #[trigger]
                self.places@.contains(d) && g[d as int].parents.contains(p);
            let i = choose|i: int|
                0 <= i < g[d as int].parents.len() && g[d as int].parents[i] == p;
            assert(g[d as int].parents[i] < d);
        }
    }
}

/// Whether a path of a length in a range leads from a commit to a root. All
/// commits on the path but the root are nodes of a walk; the root is one, or a
/// parent of one.
pub open spec fn descends_in_range(
    g: Seq<Entry>,
    walked: Set<u32>,
    roots: Set<u32>,
    range: Range<u32>,
    p: u32,
) -> bool {
    exists|r: u32, n: nat|
        #![trigger roots.contains(r), path(parent_links(g).restrict(walked), p, r, n)]
        roots.contains(r) && (walked.contains(r) || is_parent_in(g, walked, r)) && path(
            parent_links(g).restrict(walked),
            p,
            r,
            n,
        ) && range.start <= n < range.end
}

/// The roots and their descendants in a walk at distances in a range.
pub open spec fn descendants_at(
    g: Seq<Entry>,
    walked: Set<u32>,
    roots: Set<u32>,
    range: Range<u32>,
) -> Set<u32> {
    Set::new(|p: u32| descends_in_range(g, walked, roots, range, p))
}

impl<'a> RevWalkDescendantsIndex<'a> {
    /// The paths from parents to children are those from children to parents, in
    /// reverse. The commits of the index are those of a walk from a lowest
    /// position on.
    proof fn lemma_reversed_path(
        &self,
        walked: Set<u32>,
        roots: Seq<IndexPosition>,
        p: u32,
        r: u32,
        n: nat,
    )
        requires
            self.walkable(),
            self.walked() == from_lowest(walked, roots),
            forall|q: u32| #[trigger] walked.contains(q) ==> q < self.commits().len(),
            not_before_all(roots, r),
        ensures
            path(self.links(), reverse(r), reverse(p), n) <==> path(
                parent_links(self.commits()).restrict(walked),
                p,
                r,
                n,
            ),
        decreases n,
    {
        let g = self.commits();
        let up = self.links();
        let down = parent_links(g).restrict(walked);
        let lists = child_lists(self.children_map@);
        self.index.lemma_valid();
        assert(reverse(reverse(r)) == r);
        assert(reverse(reverse(p)) == p);
        if n > 0 {
            if path(up, reverse(r), reverse(p), n) {
                let k = lemma_first_link(up, reverse(r), reverse(p), n);
                let y = up[reverse(r)][k];
                let c = reverse(y);
                assert(reverse(c) == y);
                assert(y == lists[r][k]);
                assert(is_child(g, self.places@, r, y));
                assert(from_lowest(walked, roots).contains(c));
                self.lemma_reversed_path(walked, roots, p, c, (n - 1) as nat);
                let i = choose|i: int|
                    0 <= i < g[c as int].parents.len() && g[c as int].parents[i] == r;
                assert(down.dom().contains(c) && down[c][i] == r);
                lemma_path_append(down, p, c, i, (n - 1) as nat);
                assert((n - 1 + 1) as nat == n);
            }
            if path(down, p, r, n) {
                let (c, i) = lemma_last_link(down, p, r, n);
                assert(walked.contains(c));
                assert(g[c as int].parents[i] == r && r < c);
                let j = choose|j: int| 0 <= j < roots.len() && (#[trigger] roots[j]).0 <= r;
                assert(roots[j].0 <= c);
                assert(from_lowest(walked, roots).contains(c));
                self.lemma_reversed_path(walked, roots, p, c, (n - 1) as nat);
                assert(self.places@.contains(c));
                assert(is_listed(g, lists, c, g[c as int].parents.len() as int));
                assert(lists[r].contains(reverse(c)));
                let k = choose|k: int| 0 <= k < lists[r].len() && lists[r][k] == reverse(c);
                assert(up.dom().contains(reverse(r)) && up[reverse(r)][k] == reverse(c));
                lemma_path_step(up, reverse(r), k, reverse(p), (n - 1) as nat);
                assert((n - 1 + 1) as nat == n);
            }
        }
    }

    /// Roots are in the index if they are commits of the walk or parents of such.
    proof fn lemma_root(&self, walked: Set<u32>, roots: Seq<IndexPosition>, r: u32)
        requires
            self.walkable(),
            self.walked() == from_lowest(walked, roots),
            forall|q: u32| #[trigger] walked.contains(q) ==> q < self.commits().len(),
            not_before_all(roots, r),
        ensures
            (self.walked().contains(r) || is_parent_in(self.commits(), self.walked(), r))
                <==> (walked.contains(r) || is_parent_in(self.commits(), walked, r)),
    {
        let g = self.commits();
        self.index.lemma_valid();
        if is_parent_in(g, self.walked(), r) {
            let d = choose|d: u32| #[trigger]
                self.walked().contains(d) && g[d as int].parents.contains(r);
            assert(walked.contains(d));
        }
        if is_parent_in(g, walked, r) {
            let d = choose|d: u32| #[trigger]
                walked.contains(d) && g[d as int].parents.contains(r);
            let i = choose|i: int|
                0 <= i < g[d as int].parents.len() && g[d as int].parents[i] == r;
            assert(g[d as int].parents[i] < d);
            let j = choose|j: int| 0 <= j < roots.len() && (#[trigger] roots[j]).0 <= r;
            assert(roots[j].0 <= d);
            assert(self.walked().contains(d));
        }
    }
}

/// A walk from roots to their descendants at distances in a range, in order of
/// ascending position.
pub struct RevWalkDescendantsGenerationRange<'a>(
    RevWalkGenerationRangeImpl<RevWalkDescendantsIndex<'a>>,
);

impl<'a> Clone for RevWalkDescendantsGenerationRange<'a> {
    fn clone(&self) -> (walk: Self)
        ensures
            walk.wf() == self.wf(),
            walk.entries() == self.entries(),
            walk.remaining() == self.remaining(),
    {
        let index = RevWalkDescendantsIndex {
            index: self.0.index.index,
            children_map: self.0.index.children_map.clone(),
            places: self.0.index.places,
        };
        let walk = RevWalkDescendantsGenerationRange(
            RevWalkGenerationRangeImpl {
                index,
                queue: self.0.queue.clone(),
                generation_end: self.0.generation_end,
            },
        );
        assert(index.links() =~= self.0.index.links());
        assert(walk.remaining() =~= self.remaining());
        walk
    }
}

impl<'a> RevWalkDescendantsGenerationRange<'a> {
    /// Whether the walk is one in a valid index.
    pub closed spec fn wf(&self) -> bool {
        self.0.wf()
    }

    /// The commits of the index.
    pub closed spec fn entries(&self) -> Seq<Entry> {
        self.0.index.commits()
    }

    /// The positions of the commits that are yet to be visited.
    pub closed spec fn remaining(&self) -> Set<u32> {
        Set::new(|p: u32| self.0.keys().contains(reverse(p)))
    }

    /// Visits the next commit.
    pub fn next(&mut self) -> (entry: Option<IndexEntry<'a>>)
        requires
            old(self).wf(),
        ensures
            final(self).wf(),
            final(self).entries() == old(self).entries(),
            match entry {
                Some(entry) => {
                    let pos = entry.place();
                    &&& entry.is_in(old(self).entries())
                    &&& old(self).remaining().contains(pos)
                    &&& forall|p: u32| #[trigger] old(self).remaining().contains(p) ==> pos <= p
                    &&& final(self).remaining() == old(self).remaining().remove(pos)
                },
                None => {
                    &&& old(self).remaining() == Set::<u32>::empty()
                    &&& final(self).remaining() == Set::<u32>::empty()
                },
            },
    {
        let result = self.0.next();
        match result {
            Some((x, entry)) => {
                proof {
                    let pos = entry.place();
                    assert(reverse(pos) == x);
                    assert forall|p: u32| #[trigger] old(self).remaining().contains(p) implies pos
                        <= p by {
                        assert(old(self).0.keys().contains(reverse(p)));
                    }
                    assert(self.remaining() =~= old(self).remaining().remove(pos));
                }
                Some(entry)
            },
            None => {
                assert(old(self).remaining() =~= Set::<u32>::empty());
                assert(self.remaining() =~= Set::<u32>::empty());
                None
            },
        }
    }
}

impl<'a> RevWalk<'a> {
    /// Fully consumes the walk and walks back from the roots within a range of
    /// generations.
    ///
    /// The returned walk visits entries in order of ascending index position.
    pub fn descendants_filtered_by_generation(
        self,
        root_positions: &[IndexPosition],
        generation_range: Range<u32>,
    ) -> (walk: RevWalkDescendantsGenerationRange<'a>)
        requires
            self.wf(),
        ensures
            walk.wf(),
            walk.entries() == self.entries(),
            walk.remaining() == descendants_at(
                self.entries(),
                self.remaining(),
                position_set(root_positions@),
                generation_range,
            ),
    {
        let ghost g = self.entries();
        let ghost walked = self.remaining();
        let ghost roots = position_set(root_positions@);
        proof {
            self.lemma_remaining();
        }
        let index = self.index();
        let entries = self.take_until_roots(root_positions);
        let descendants_index = RevWalkDescendantsIndex::build(index, &entries);
        proof {
            assert forall|p: u32| descendants_index.walked().contains(p) <==> from_lowest(
                walked,
                root_positions@,
            ).contains(p) by {
                assert(has_place(entries@, p) <==> descendants_index.walked().contains(p));
            }
            assert(descendants_index.walked() =~= from_lowest(walked, root_positions@));
        }
        let mut queue: RevWalkQueue<AnyDistance> = RevWalkQueue::new();
        proof {
            lemma_no_items(queue@);
        }
        let ghost links = descendants_index.links();
        let mut i: usize = 0;
        while i < root_positions.len()
            invariant
                i <= root_positions@.len(),
                root_positions.len() == root_positions@.len(),
                descendants_index.walkable(),
                links == descendants_index.links(),
                queue.wf(),
                forall|item: RevWalkWorkItem<AnyDistance>| #[trigger]
                    queue@.contains(item) ==> links.dom().contains(item.pos) && item
                        == wanted_item(item.pos, AnyDistance) && root_positions@.contains(
                        IndexPosition(reverse(item.pos)),
                    ),
                forall|k: int|
                    0 <= k < i ==> (links.dom().contains(
                        reverse((#[trigger] root_positions@[k]).0),
                    ) ==> queue@.contains(
                        wanted_item(reverse(root_positions@[k].0), AnyDistance),
                    )),
            decreases root_positions@.len() - i,
        {
            let pos = root_positions[i];
            let ghost before = queue@;
            // Do not add unreachable roots which shouldn't be visited
            if descendants_index.contains_pos(pos) {
                let key: u32 = u32::MAX - pos.0;
                proof {
                    lemma_inserted(before, wanted_item(key, AnyDistance));
                    assert(reverse(key) == pos.0);
                    assert(root_positions@[i as int] == pos);
                    assert(root_positions@.contains(IndexPosition(reverse(key))));
                }
                queue.push_wanted(key, AnyDistance);
            }
            i += 1;
        }
        let ghost items = held(queue@);
        let walk = RevWalkDescendantsGenerationRange(
            RevWalkGenerationRangeImpl::new(descendants_index, queue, generation_range),
        );
        proof {
            assert forall|x: u32| #[trigger] is_wanted_key(items, x) <==> roots.contains(
                reverse(x),
            ) && links.dom().contains(x) by {
                if is_wanted_key(items, x) {
                    let t = choose|t: AnyDistance| items.contains(#[trigger] wanted_item(x, t));
                    assert(queue@.contains(wanted_item(x, t)));
                }
                if roots.contains(reverse(x)) && links.dom().contains(x) {
                    let k = choose|k: int|
                        0 <= k < root_positions@.len() && root_positions@[k] == IndexPosition(
                            reverse(x),
                        );
                    assert(reverse(root_positions@[k].0) == x);
                    assert(items.contains(wanted_item(x, AnyDistance)));
                }
            }
            assert forall|p: u32| walk.remaining().contains(p) <==> descends_in_range(
                g,
                walked,
                roots,
                generation_range,
                p,
            ) by {
                lemma_visited_descendants(
                    descendants_index,
                    walked,
                    root_positions@,
                    items,
                    generation_range,
                    p,
                );
            }
            assert(walk.remaining() =~= descendants_at(g, walked, roots, generation_range));
        }
        walk
    }
}

/// The keys that are visited are those of the roots and their descendants at
/// distances in the range.
proof fn lemma_visited_descendants(
    index: RevWalkDescendantsIndex<'_>,
    walked: Set<u32>,
    roots: Seq<IndexPosition>,
    items: Set<RevWalkWorkItem<AnyDistance>>,
    range: Range<u32>,
    p: u32,
)
    requires
        index.walkable(),
        index.walked() == from_lowest(walked, roots),
        forall|q: u32| #[trigger] walked.contains(q) ==> q < index.commits().len(),
        forall|x: u32| #[trigger]
            is_wanted_key(items, x) <==> position_set(roots).contains(reverse(x))
                && index.links().dom().contains(x),
        forall|x: u32| !#[trigger] items.contains(unwanted_item::<AnyDistance>(x)),
    ensures
        in_generations(index.links(), items, range).contains(reverse(p)) <==> descends_in_range(
            index.commits(),
            walked,
            position_set(roots),
            range,
            p,
        ),
{
    let g = index.commits();
    let links = index.links();
    let down = parent_links(g).restrict(walked);
    let root_set = position_set(roots);
    assert(!bars(links, items, reverse(p)));
    if wanted_in_range(links, items, range, reverse(p)) {
        let (x, n) = choose|x: u32, n: nat|
            #![trigger is_wanted_key(items, x), path(links, x, reverse(p), n)]
            is_wanted_key(items, x) && path(links, x, reverse(p), n) && range.start <= n
                < range.end;
        let r = reverse(x);
        assert(reverse(r) == x);
        lemma_is_root(roots, r);
        index.lemma_in_links(r);
        index.lemma_root(walked, roots, r);
        index.lemma_reversed_path(walked, roots, p, r, n);
        assert(root_set.contains(r) && path(down, p, r, n));
    }
    if descends_in_range(g, walked, root_set, range, p) {
        let (r, n) = choose|r: u32, n: nat|
            #![trigger root_set.contains(r), path(down, p, r, n)]
            root_set.contains(r) && (walked.contains(r) || is_parent_in(g, walked, r)) && path(
                down,
                p,
                r,
                n,
            ) && range.start <= n < range.end;
        assert(reverse(reverse(r)) == r);
        lemma_is_root(roots, r);
        index.lemma_in_links(r);
        index.lemma_root(walked, roots, r);
        index.lemma_reversed_path(walked, roots, p, r, n);
        assert(is_wanted_key(items, reverse(r)));
    }
}

/// A root is not before all roots.
proof fn lemma_is_root(roots: Seq<IndexPosition>, r: u32)
    requires
        position_set(roots).contains(r),
    ensures
        not_before_all(roots, r),
{
    let i = choose|i: int| 0 <= i < roots.len() && roots[i] == IndexPosition(r);
    assert(roots[i].0 <= r);
}

} // verus!
