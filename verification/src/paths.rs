//! Paths in an acyclic graph whose nodes are `u32` keys and whose links go
//! from a key to smaller keys.

use vstd::prelude::*;

verus! {

/// Whether a path of exactly `n` links leads from `from` to `to`.
pub open spec fn path(links: Map<u32, Seq<u32>>, from: u32, to: u32, n: nat) -> bool
    decreases n,
{
    if n == 0 {
        from == to
    } else {
        links.dom().contains(from) && exists|k: int|
            0 <= k < links[from].len() && path(
                links,
                #[trigger] links[from][k],
                to,
                (n - 1) as nat,
            )
    }
}

/// Whether a path of any number of links, none included, leads from `from` to
/// `to`.
pub open spec fn reaches(links: Map<u32, Seq<u32>>, from: u32, to: u32) -> bool {
    exists|n: nat| path(links, from, to, n)
}

/// Whether a path leads from one of the keys to `to`.
pub open spec fn any_reaches(links: Map<u32, Seq<u32>>, from: Set<u32>, to: u32) -> bool {
    exists|p: u32| from.contains(p) && #[trigger] reaches(links, p, to)
}

/// Whether every link goes to a smaller key that is a node too.
pub open spec fn descending(links: Map<u32, Seq<u32>>) -> bool {
    forall|p: u32, k: int|
        #![trigger links[p][k]]
        links.dom().contains(p) && 0 <= k < links[p].len() ==> links.dom().contains(links[p][k])
            && links[p][k] < p
}

/// A path starts with a link, unless it is empty.
pub proof fn lemma_path_step(links: Map<u32, Seq<u32>>, from: u32, k: int, to: u32, n: nat)
    requires
        links.dom().contains(from),
        0 <= k < links[from].len(),
        path(links, links[from][k], to, n),
    ensures
        path(links, from, to, n + 1),
{
    assert((n + 1 - 1) as nat == n);
}

/// The first link of a path that is not empty.
pub proof fn lemma_first_link(links: Map<u32, Seq<u32>>, from: u32, to: u32, n: nat) -> (k: int)
    requires
        path(links, from, to, n),
        n > 0,
    ensures
        links.dom().contains(from),
        0 <= k < links[from].len(),
        path(links, links[from][k], to, (n - 1) as nat),
{
    choose|k: int|
        0 <= k < links[from].len() && path(links, #[trigger] links[from][k], to, (n - 1) as nat)
}

/// Two paths, end to end, make one.
pub proof fn lemma_path_concat(
    links: Map<u32, Seq<u32>>,
    a: u32,
    b: u32,
    c: u32,
    n: nat,
    m: nat,
)
    requires
        path(links, a, b, n),
        path(links, b, c, m),
    ensures
        path(links, a, c, n + m),
    decreases n,
{
    if n > 0 {
        let k = lemma_first_link(links, a, b, n);
        lemma_path_concat(links, links[a][k], b, c, (n - 1) as nat, m);
        lemma_path_step(links, a, k, c, (n - 1 + m) as nat);
    }
}

/// Each link of a path goes down by at least one, among the nodes.
pub proof fn lemma_path_descends(links: Map<u32, Seq<u32>>, from: u32, to: u32, n: nat)
    requires
        descending(links),
        links.dom().contains(from),
        path(links, from, to, n),
    ensures
        links.dom().contains(to),
        to + n <= from,
    decreases n,
{
    if n > 0 {
        let k = lemma_first_link(links, from, to, n);
        lemma_path_descends(links, links[from][k], to, (n - 1) as nat);
    }
}

/// What a key reaches is a node, and not above it.
pub proof fn lemma_reaches_descends(links: Map<u32, Seq<u32>>, from: u32, to: u32)
    requires
        descending(links),
        links.dom().contains(from),
        reaches(links, from, to),
    ensures
        links.dom().contains(to),
        to <= from,
{
    let n = choose|n: nat| path(links, from, to, n);
    lemma_path_descends(links, from, to, n);
}

/// Every key reaches itself.
pub proof fn lemma_reaches_self(links: Map<u32, Seq<u32>>, p: u32)
    ensures
        reaches(links, p, p),
{
    assert(path(links, p, p, 0));
}

/// What a linked key reaches, the key itself reaches.
pub proof fn lemma_reaches_via(links: Map<u32, Seq<u32>>, from: u32, k: int, to: u32)
    requires
        links.dom().contains(from),
        0 <= k < links[from].len(),
        reaches(links, links[from][k], to),
    ensures
        reaches(links, from, to),
{
    let n = choose|n: nat| path(links, links[from][k], to, n);
    lemma_path_step(links, from, k, to, n);
}

/// What a key reaches, other than itself, it reaches through a link.
pub proof fn lemma_reaches_link(links: Map<u32, Seq<u32>>, from: u32, to: u32) -> (k: int)
    requires
        reaches(links, from, to),
        from != to,
    ensures
        links.dom().contains(from),
        0 <= k < links[from].len(),
        reaches(links, links[from][k], to),
{
    let n = choose|n: nat| path(links, from, to, n);
    lemma_first_link(links, from, to, n)
}

/// Reaching is transitive.
pub proof fn lemma_reaches_transitive(links: Map<u32, Seq<u32>>, a: u32, b: u32, c: u32)
    requires
        reaches(links, a, b),
        reaches(links, b, c),
    ensures
        reaches(links, a, c),
{
    let n = choose|n: nat| path(links, a, b, n);
    let m = choose|m: nat| path(links, b, c, m);
    lemma_path_concat(links, a, b, c, n, m);
}

/// A path goes on with a link.
pub proof fn lemma_path_append(links: Map<u32, Seq<u32>>, from: u32, mid: u32, k: int, n: nat)
    requires
        path(links, from, mid, n),
        links.dom().contains(mid),
        0 <= k < links[mid].len(),
    ensures
        path(links, from, links[mid][k], n + 1),
{
    assert(path(links, links[mid][k], links[mid][k], 0));
    lemma_path_step(links, mid, k, links[mid][k], 0);
    lemma_path_concat(links, from, mid, links[mid][k], n, 1);
}

/// The last link of a path that is not empty.
pub proof fn lemma_last_link(links: Map<u32, Seq<u32>>, from: u32, to: u32, n: nat) -> (r: (
    u32,
    int,
))
    requires
        path(links, from, to, n),
        n > 0,
    ensures
        path(links, from, r.0, (n - 1) as nat),
        links.dom().contains(r.0),
        0 <= r.1 < links[r.0].len(),
        links[r.0][r.1] == to,
    decreases n,
{
    let k = lemma_first_link(links, from, to, n);
    if n == 1 {
        (from, k)
    } else {
        let r = lemma_last_link(links, links[from][k], to, (n - 1) as nat);
        lemma_path_step(links, from, k, r.0, (n - 2) as nat);
        assert((n - 2 + 1) as nat == (n - 1) as nat);
        r
    }
}

} // verus!
