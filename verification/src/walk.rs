//! What a work queue stands for, and how the steps of a walk change it.

use crate::paths::{
    descending, lemma_first_link, lemma_path_descends, lemma_path_step, lemma_reaches_descends,
    lemma_reaches_link, lemma_reaches_self, lemma_reaches_via, path, reaches,
};
use crate::queue::{unwanted_item, wanted_item, RevWalkWorkItem, WalkTag};
use vstd::multiset::Multiset;
use vstd::prelude::*;

verus! {

/// The items of a queue, as a set.
pub open spec fn held<T>(items: Multiset<RevWalkWorkItem<T>>) -> Set<RevWalkWorkItem<T>> {
    Set::new(|item: RevWalkWorkItem<T>| items.contains(item))
}

/// Whether a wanted key, with its tag, asks for a node to be visited.
pub open spec fn asks<T: WalkTag>(
    links: Map<u32, Seq<u32>>,
    items: Set<RevWalkWorkItem<T>>,
    goal: int,
    x: u32,
    t: T,
    p: u32,
    n: nat,
) -> bool {
    &&& items.contains(wanted_item(x, t))
    &&& path(links, x, p, n)
    &&& t.hits(n as int, goal)
}

/// Whether a node is at a right distance from a wanted key.
pub open spec fn wants<T: WalkTag>(
    links: Map<u32, Seq<u32>>,
    items: Set<RevWalkWorkItem<T>>,
    goal: int,
    p: u32,
) -> bool {
    exists|x: u32, t: T, n: nat| asks(links, items, goal, x, t, p, n)
}

/// Whether an unwanted key reaches a node.
pub open spec fn bars<T>(
    links: Map<u32, Seq<u32>>,
    items: Set<RevWalkWorkItem<T>>,
    p: u32,
) -> bool {
    exists|x: u32|
        items.contains(#[trigger] unwanted_item::<T>(x)) && reaches(links, x, p)
}

/// The nodes that a walk with the given items has yet to visit.
pub open spec fn to_visit<T: WalkTag>(
    links: Map<u32, Seq<u32>>,
    items: Set<RevWalkWorkItem<T>>,
    goal: int,
) -> Set<u32> {
    Set::new(|p: u32| wants(links, items, goal, p) && !bars(links, items, p))
}

/// Whether the keys of all items are nodes, none above `x`.
pub open spec fn keys_up_to<T>(
    links: Map<u32, Seq<u32>>,
    items: Set<RevWalkWorkItem<T>>,
    x: int,
) -> bool {
    forall|item: RevWalkWorkItem<T>| #[trigger]
        items.contains(item) ==> links.dom().contains(item.pos) && item.pos <= x
}

/// Whether a tag for the nodes that the key `x` links to asks for nothing that
/// the tags of `x` do not ask for.
pub open spec fn derived_tag<T: WalkTag>(
    items: Set<RevWalkWorkItem<T>>,
    x: u32,
    goal: int,
    s: T,
) -> bool {
    forall|n: int| #[trigger]
        s.hits(n, goal) && n >= 0 ==> exists|t: T| #[trigger]
            items.contains(wanted_item(x, t)) && t.hits(n + 1, goal)
}

/// Whether an item stands for a node that `x` links to, with a tag that asks for
/// nothing new.
pub open spec fn derived_item<T: WalkTag>(
    links: Map<u32, Seq<u32>>,
    items: Set<RevWalkWorkItem<T>>,
    x: u32,
    goal: int,
    item: RevWalkWorkItem<T>,
) -> bool {
    exists|k: int, s: T|
        0 <= k < links[x].len() && item == #[trigger] wanted_item(links[x][k], s) && derived_tag(
            items,
            x,
            goal,
            s,
        )
}

/// Whether the nodes that `x` links to have the given tag.
pub open spec fn tagged_links<T>(
    links: Map<u32, Seq<u32>>,
    items: Set<RevWalkWorkItem<T>>,
    x: u32,
    s: T,
) -> bool {
    forall|k: int|
        0 <= k < links[x].len() ==> items.contains(wanted_item(#[trigger] links[x][k], s))
}

/// Whether what is asked for at distance `n` from `x` is asked for at distance
/// `n - 1` from the nodes that `x` links to.
pub open spec fn passed_on<T: WalkTag>(
    links: Map<u32, Seq<u32>>,
    items: Set<RevWalkWorkItem<T>>,
    x: u32,
    goal: int,
    n: int,
) -> bool {
    exists|s: T| #[trigger] s.hits(n - 1, goal) && tagged_links(links, items, x, s)
}

/// Nodes to be visited are not above the keys.
pub proof fn lemma_visit_bound<T: WalkTag>(
    links: Map<u32, Seq<u32>>,
    items: Set<RevWalkWorkItem<T>>,
    goal: int,
    x: int,
    p: u32,
)
    requires
        descending(links),
        keys_up_to(links, items, x),
    ensures
        wants(links, items, goal, p) ==> links.dom().contains(p) && p <= x,
        bars(links, items, p) ==> links.dom().contains(p) && p <= x,
{
    if wants(links, items, goal, p) {
        let (y, t, n) = choose|y: u32, t: T, n: nat| asks(links, items, goal, y, t, p, n);
        lemma_path_descends(links, y, p, n);
    }
    if bars(links, items, p) {
        let y = choose|y: u32|
            items.contains(#[trigger] unwanted_item::<T>(y)) && reaches(links, y, p);
        lemma_reaches_descends(links, y, p);
    }
}

/// A step of a walk from a wanted key: the items of the key are replaced by
/// items for the nodes that it links to. The key's own node, which is the
/// greatest that can be to be visited, is done with.
pub proof fn lemma_wanted_step<T: WalkTag>(
    links: Map<u32, Seq<u32>>,
    before: Set<RevWalkWorkItem<T>>,
    after: Set<RevWalkWorkItem<T>>,
    goal: int,
    x: u32,
)
    requires
        descending(links),
        links.dom().contains(x),
        keys_up_to(links, before, x as int),
        !before.contains(unwanted_item(x)),
        forall|item: RevWalkWorkItem<T>| #[trigger]
            before.contains(item) && item.pos != x ==> after.contains(item),
        forall|item: RevWalkWorkItem<T>| #[trigger]
            after.contains(item) ==> before.contains(item) && item.pos != x || derived_item(
                links,
                before,
                x,
                goal,
                item,
            ),
        forall|t: T, n: int|
            before.contains(wanted_item(x, t)) && #[trigger] t.hits(n, goal) && n >= 1
                ==> passed_on(links, after, x, goal, n),
    ensures
        keys_up_to(links, after, x - 1),
        to_visit(links, after, goal) == to_visit(links, before, goal).remove(x),
        to_visit(links, before, goal).contains(x) <==> exists|t: T| #[trigger]
            before.contains(wanted_item(x, t)) && t.hits(0, goal),
        forall|p: u32| #[trigger] bars(links, after, p) <==> bars(links, before, p),
{
    assert forall|item: RevWalkWorkItem<T>| #[trigger]
        after.contains(item) implies links.dom().contains(item.pos) && item.pos <= x - 1 by {
        if derived_item(links, before, x, goal, item) {
            let (k, s) = choose|k: int, s: T|
                0 <= k < links[x].len() && item == #[trigger] wanted_item(links[x][k], s)
                    && derived_tag(before, x, goal, s);
            assert(links[x][k] < x);
        }
    }
    assert forall|p: u32| #[trigger] bars(links, after, p) <==> bars(links, before, p) by {
        if bars(links, after, p) {
            let y = choose|y: u32|
                after.contains(#[trigger] unwanted_item::<T>(y)) && reaches(links, y, p);
            assert(before.contains(unwanted_item(y)));
        }
        if bars(links, before, p) {
            let y = choose|y: u32|
                before.contains(#[trigger] unwanted_item::<T>(y)) && reaches(links, y, p);
            assert(after.contains(unwanted_item(y)));
        }
    }
    lemma_visit_bound(links, after, goal, x - 1, x);
    assert forall|p: u32| wants(links, after, goal, p) implies wants(links, before, goal, p) by {
        let (y, t, n) = choose|y: u32, t: T, n: nat| asks(links, after, goal, y, t, p, n);
        let item = wanted_item(y, t);
        if before.contains(item) {
            assert(asks(links, before, goal, y, t, p, n));
        } else {
            let (k, s) = choose|k: int, s: T|
                0 <= k < links[x].len() && item == #[trigger] wanted_item(links[x][k], s)
                    && derived_tag(before, x, goal, s);
            assert(s == t && y == links[x][k]);
            assert(s.hits(n as int, goal));
            let u = choose|u: T| #[trigger]
                before.contains(wanted_item(x, u)) && u.hits(n as int + 1, goal);
            lemma_path_step(links, x, k, p, n);
            assert(asks(links, before, goal, x, u, p, n + 1));
        }
    }
    assert forall|p: u32| p != x && wants(links, before, goal, p) implies wants(
        links,
        after,
        goal,
        p,
    ) by {
        let (y, t, n) = choose|y: u32, t: T, n: nat| asks(links, before, goal, y, t, p, n);
        let item = wanted_item(y, t);
        assert(before.contains(item));
        if y == x {
            let k = lemma_first_link(links, x, p, n);
            assert(passed_on(links, after, x, goal, n as int));
            let s = choose|s: T| #[trigger]
                s.hits(n - 1, goal) && tagged_links(links, after, x, s);
            assert(asks(links, after, goal, links[x][k], s, p, (n - 1) as nat));
        } else {
            assert(after.contains(item));
            assert(asks(links, after, goal, y, t, p, n));
        }
    }
    assert(to_visit(links, after, goal) =~= to_visit(links, before, goal).remove(x));
    // The key's own node
    if bars(links, before, x) {
        let y = choose|y: u32|
            before.contains(#[trigger] unwanted_item::<T>(y)) && reaches(links, y, x);
        lemma_reaches_descends(links, y, x);
    }
    if exists|t: T| #[trigger] before.contains(wanted_item(x, t)) && t.hits(0, goal) {
        let t = choose|t: T| #[trigger] before.contains(wanted_item(x, t)) && t.hits(0, goal);
        assert(asks(links, before, goal, x, t, x, 0));
    }
    if wants(links, before, goal, x) {
        let (y, t, n) = choose|y: u32, t: T, n: nat| asks(links, before, goal, y, t, x, n);
        assert(before.contains(wanted_item(y, t)));
        lemma_path_descends(links, y, x, n);
        assert(n == 0 && y == x);
    }
}

/// A step of a walk from an unwanted key: the items of the key are replaced by
/// unwanted items for the nodes that it links to. What is to be visited stays
/// the same.
pub proof fn lemma_unwanted_step<T: WalkTag>(
    links: Map<u32, Seq<u32>>,
    before: Set<RevWalkWorkItem<T>>,
    after: Set<RevWalkWorkItem<T>>,
    goal: int,
    x: u32,
)
    requires
        descending(links),
        links.dom().contains(x),
        keys_up_to(links, before, x as int),
        before.contains(unwanted_item(x)),
        forall|item: RevWalkWorkItem<T>| #[trigger]
            before.contains(item) && item.pos != x ==> after.contains(item),
        forall|item: RevWalkWorkItem<T>| #[trigger]
            after.contains(item) ==> before.contains(item) && item.pos != x || exists|k: int|
                0 <= k < links[x].len() && item == unwanted_item::<T>(#[trigger] links[x][k]),
        forall|k: int|
            0 <= k < links[x].len() ==> after.contains(
                unwanted_item(#[trigger] links[x][k]),
            ),
    ensures
        keys_up_to(links, after, x - 1),
        to_visit(links, after, goal) == to_visit(links, before, goal),
        forall|p: u32| p < x ==> (#[trigger] bars(links, after, p) <==> bars(links, before, p)),
{
    assert forall|item: RevWalkWorkItem<T>| #[trigger]
        after.contains(item) implies links.dom().contains(item.pos) && item.pos <= x - 1 by {
        if !before.contains(item) {
            let k = choose|k: int|
                0 <= k < links[x].len() && item == unwanted_item::<T>(#[trigger] links[x][k]);
            assert(links[x][k] < x);
        }
    }
    assert forall|p: u32| bars(links, after, p) implies #[trigger] bars(links, before, p) by {
        let y = choose|y: u32|
            after.contains(#[trigger] unwanted_item::<T>(y)) && reaches(links, y, p);
        let item = unwanted_item::<T>(y);
        if !before.contains(item) {
            let k = choose|k: int|
                0 <= k < links[x].len() && item == unwanted_item::<T>(#[trigger] links[x][k]);
            lemma_reaches_via(links, x, k, p);
            assert(before.contains(unwanted_item(x)));
        }
    }
    assert forall|p: u32| p != x && bars(links, before, p) implies #[trigger] bars(
        links,
        after,
        p,
    ) by {
        let y = choose|y: u32|
            before.contains(#[trigger] unwanted_item::<T>(y)) && reaches(links, y, p);
        if y == x {
            let k = lemma_reaches_link(links, x, p);
            assert(after.contains(unwanted_item(links[x][k])));
        } else {
            assert(after.contains(unwanted_item(y)));
        }
    }
    lemma_reaches_self(links, x);
    assert(bars(links, before, x));
    lemma_visit_bound(links, after, goal, x - 1, x);
    assert forall|p: u32| wants(links, after, goal, p) implies wants(links, before, goal, p) by {
        let (y, t, n) = choose|y: u32, t: T, n: nat| asks(links, after, goal, y, t, p, n);
        assert(before.contains(wanted_item(y, t)));
        assert(asks(links, before, goal, y, t, p, n));
    }
    assert forall|p: u32|
        wants(links, before, goal, p) && !bars(links, before, p) implies wants(
        links,
        after,
        goal,
        p,
    ) by {
        let (y, t, n) = choose|y: u32, t: T, n: nat| asks(links, before, goal, y, t, p, n);
        if y == x {
            assert(reaches(links, x, p));
            assert(before.contains(unwanted_item(x)));
        }
        assert(after.contains(wanted_item(y, t)));
        assert(asks(links, after, goal, y, t, p, n));
    }
    assert(to_visit(links, after, goal) =~= to_visit(links, before, goal));
}

/// Without wanted items nothing is to be visited.
pub proof fn lemma_exhausted<T: WalkTag>(
    links: Map<u32, Seq<u32>>,
    items: Set<RevWalkWorkItem<T>>,
    goal: int,
)
    requires
        forall|item: RevWalkWorkItem<T>| #[trigger]
            items.contains(item) ==> item.state is Unwanted,
    ensures
        to_visit(links, items, goal) == Set::<u32>::empty(),
{
    assert forall|p: u32| !to_visit(links, items, goal).contains(p) by {
        if wants(links, items, goal, p) {
            let (y, t, n) = choose|y: u32, t: T, n: nat| asks(links, items, goal, y, t, p, n);
            assert(items.contains(wanted_item(y, t)));
        }
    }
    assert(to_visit(links, items, goal) =~= Set::<u32>::empty());
}

/// If only unwanted items are left besides those of an unwanted key, nothing is
/// to be visited.
pub proof fn lemma_only_unwanted<T: WalkTag>(
    links: Map<u32, Seq<u32>>,
    items: Set<RevWalkWorkItem<T>>,
    goal: int,
    x: u32,
)
    requires
        items.contains(unwanted_item(x)),
        forall|item: RevWalkWorkItem<T>| #[trigger]
            items.contains(item) && item.pos != x ==> item.state is Unwanted,
    ensures
        to_visit(links, items, goal) == Set::<u32>::empty(),
{
    assert forall|p: u32| !to_visit(links, items, goal).contains(p) by {
        if wants(links, items, goal, p) {
            let (y, t, n) = choose|y: u32, t: T, n: nat| asks(links, items, goal, y, t, p, n);
            assert(items.contains(wanted_item(y, t)));
            assert(reaches(links, x, p));
            assert(items.contains(unwanted_item(x)));
        }
    }
    assert(to_visit(links, items, goal) =~= Set::<u32>::empty());
}

} // verus!
