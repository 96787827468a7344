//! What holds of an index as a whole.

use crate::ancestry::{are_heads, common_ancestor_set, is_below};
use crate::byte_order::{lex_le, lex_lt, lex_lt_asymmetric, lex_lt_irreflexive};
use crate::composite::{is_next_id, is_previous_id, is_shortest_unique_len};
use crate::descendants::{any_root_below, descendants_in};
use crate::descendants_index::{descendants_at, descends_in_range, is_parent_in};
use crate::format::{index_file, is_lookup_table};
use crate::hex_digits::{
    all_hex, common_len, digit_at, digit_char, digits_to_bytes, hex_digits, hex_text, hex_value,
    is_hex_byte, lemma_common_len, text_digits,
};
use crate::ids::{prefix_matches, resolves, Resolution};
use crate::model::{
    commit_ids, has_all, has_commit, is_at, lemma_generation_path, lemma_links_descend, lemma_place,
    lemma_with_commit, lemma_with_range, lemma_with_range_present, parent_links, parents_at_hand,
    place_of, valid_graph, with_commit, with_range, Entry,
};
use crate::paths::{
    any_reaches, lemma_first_link, lemma_last_link, lemma_path_descends, lemma_path_step,
    lemma_reaches_descends, lemma_reaches_self, lemma_reaches_transitive, lemma_reaches_via, path,
    reaches,
};
use crate::positions::IndexPosition;
use crate::readonly::{is_halving, ReadonlyIndexSegment};
use crate::rev_walk::RevWalk;
use crate::save::blake2b512;
use crate::segment::{lemma_table_place, IndexSegment};
use crate::stats::is_parent;
use core::ops::Range;
use std::sync::Arc;
use vstd::arithmetic::power2::{lemma_pow2_pos, lemma_pow2_unfold, pow2};
use vstd::prelude::*;
use vstd::utf8::{encode_utf8, is_ascii_chars_encode_utf8};

verus! {

/// Adding a commit a second time changes nothing, whatever is said of it.
pub proof fn law_add_twice(
    g: Seq<Entry>,
    commit_id: Seq<u8>,
    change_id: Seq<u8>,
    parent_ids: Seq<Seq<u8>>,
    other_change_id: Seq<u8>,
    other_parent_ids: Seq<Seq<u8>>,
)
    requires
        valid_graph(g),
        g.len() < u32::MAX,
        has_all(g, parent_ids),
        parent_ids.len() <= u32::MAX,
    ensures
        ({
            let h = with_commit(g, commit_id, change_id, parent_ids);
            with_commit(h, commit_id, other_change_id, other_parent_ids) == h
        }),
{
    lemma_with_commit(g, commit_id, change_id, parent_ids);
}

/// Commits keep their positions when a commit is added, and the index stays a
/// valid graph that has the commit.
pub proof fn law_positions_kept(
    g: Seq<Entry>,
    commit_id: Seq<u8>,
    change_id: Seq<u8>,
    parent_ids: Seq<Seq<u8>>,
    id: Seq<u8>,
)
    requires
        valid_graph(g),
        g.len() < u32::MAX,
        has_all(g, parent_ids),
        parent_ids.len() <= u32::MAX,
        has_commit(g, id),
    ensures
        ({
            let h = with_commit(g, commit_id, change_id, parent_ids);
            &&& valid_graph(h)
            &&& has_commit(h, commit_id)
            &&& has_commit(h, id)
            &&& place_of(h, id) == place_of(g, id)
            &&& h[place_of(h, id)] == g[place_of(g, id)]
        }),
{
    let h = with_commit(g, commit_id, change_id, parent_ids);
    lemma_with_commit(g, commit_id, change_id, parent_ids);
    let i = place_of(g, id);
    assert(is_at(g, id, i));
    assert(h[i] == g[i]);
    lemma_place(h, i);
}

/// A merged index has the commits of both, keeps the positions of its own, and
/// merging the same index again changes nothing.
pub proof fn law_merge(g: Seq<Entry>, other: Seq<Entry>)
    requires
        valid_graph(g),
        valid_graph(other),
        with_range(g, other, 0, other.len() as int).len() <= u32::MAX,
    ensures
        ({
            let h = with_range(g, other, 0, other.len() as int);
            &&& valid_graph(h)
            &&& g.is_prefix_of(h)
            &&& forall|i: int|
                0 <= i < other.len() ==> has_commit(h, (#[trigger] other[i]).commit_id)
            &&& with_range(h, other, 0, other.len() as int) == h
        }),
{
    let n = other.len() as int;
    let h = with_range(g, other, 0, n);
    assert(parents_at_hand(g, other, 0));
    lemma_with_range(g, other, 0, n);
    lemma_with_range_present(h, other, 0, n);
}

/// An ancestor has a smaller position and a smaller generation number.
pub proof fn law_ancestors_first(g: Seq<Entry>, descendant: u32, ancestor: u32)
    requires
        valid_graph(g),
        descendant < g.len(),
        reaches(parent_links(g), descendant, ancestor),
        descendant != ancestor,
    ensures
        ancestor < descendant,
        g[ancestor as int].generation < g[descendant as int].generation,
{
    let links = parent_links(g);
    lemma_links_descend(g);
    lemma_reaches_descends(links, descendant, ancestor);
    let n = choose|n: nat| path(links, descendant, ancestor, n);
    lemma_generation_path(g, descendant, ancestor, n);
    assert(n > 0);
}

/// Two commits are ancestors of each other only if they are the same, and
/// ancestors of ancestors are ancestors.
pub proof fn law_ancestry_order(g: Seq<Entry>, a: u32, b: u32, c: u32)
    requires
        valid_graph(g),
        a < g.len(),
        b < g.len(),
    ensures
        reaches(parent_links(g), a, a),
        reaches(parent_links(g), a, b) && reaches(parent_links(g), b, a) ==> a == b,
        reaches(parent_links(g), a, b) && reaches(parent_links(g), b, c) ==> reaches(
            parent_links(g),
            a,
            c,
        ),
{
    let links = parent_links(g);
    lemma_links_descend(g);
    lemma_reaches_self(links, a);
    if reaches(links, a, b) && reaches(links, b, a) {
        lemma_reaches_descends(links, a, b);
        lemma_reaches_descends(links, b, a);
    }
    if reaches(links, a, b) && reaches(links, b, c) {
        lemma_reaches_transitive(links, a, b, c);
    }
}

/// Each commit of a set is a head of the set or an ancestor of one.
pub proof fn law_heads_cover(g: Seq<Entry>, set: Set<u32>, heads: Seq<IndexPosition>, p: u32)
    requires
        valid_graph(g),
        forall|q: u32| #[trigger] set.contains(q) ==> q < g.len(),
        are_heads(g, set, heads),
        set.contains(p),
    ensures
        exists|h: u32|
            heads.contains(IndexPosition(h)) && #[trigger] reaches(parent_links(g), h, p),
    decreases g.len() - p,
{
    let links = parent_links(g);
    lemma_links_descend(g);
    if is_below(g, set, p) {
        let c = choose|c: u32| set.contains(c) && c != p && #[trigger] reaches(links, c, p);
        lemma_reaches_descends(links, c, p);
        law_heads_cover(g, set, heads, c);
        let h = choose|h: u32|
            heads.contains(IndexPosition(h)) && #[trigger] reaches(links, h, c);
        lemma_reaches_transitive(links, h, c, p);
    } else {
        lemma_reaches_self(links, p);
        assert(heads.contains(IndexPosition(p)) && reaches(links, p, p));
    }
}

/// No head of a set is an ancestor of another one.
pub proof fn law_heads_apart(
    g: Seq<Entry>,
    set: Set<u32>,
    heads: Seq<IndexPosition>,
    a: IndexPosition,
    b: IndexPosition,
)
    requires
        are_heads(g, set, heads),
        heads.contains(a),
        heads.contains(b),
        a != b,
    ensures
        !reaches(parent_links(g), a.0, b.0),
{
    assert(a == IndexPosition(a.0) && b == IndexPosition(b.0));
    assert(heads.contains(IndexPosition(a.0)) && heads.contains(IndexPosition(b.0)));
    if reaches(parent_links(g), a.0, b.0) {
        assert(is_below(g, set, b.0));
    }
}

/// The common ancestors of two sets do not depend on the order of the sets, and a
/// commit of one set that the other one descends from is a common ancestor.
pub proof fn law_common_ancestors(g: Seq<Entry>, a: Set<u32>, b: Set<u32>, p: u32)
    ensures
        common_ancestor_set(g, a, b) == common_ancestor_set(g, b, a),
        a.contains(p) && any_reaches(parent_links(g), b, p) ==> common_ancestor_set(
            g,
            a,
            b,
        ).contains(p),
{
    lemma_reaches_self(parent_links(g), p);
    assert(common_ancestor_set(g, a, b) =~= common_ancestor_set(g, b, a));
}

/// A commit that is there is found by as many digits of its id as tell it from
/// all others, but by no fewer.
pub proof fn law_shortest_prefix_resolves(g: Seq<Entry>, id: Seq<u8>, len: int, n: int)
    requires
        has_commit(g, id),
        is_shortest_unique_len(g, id, len),
        0 <= n <= hex_digits(id).len(),
    ensures
        n >= len ==> resolves(
            commit_ids(g),
            hex_digits(id).take(n),
            Resolution::SingleMatch(id),
        ),
        n < len ==> resolves(commit_ids(g), hex_digits(id).take(n), Resolution::AmbiguousMatch),
{
    let ids = commit_ids(g);
    let digits = hex_digits(id);
    let prefix = digits.take(n);
    assert(digits.take(prefix.len() as int) =~= prefix);
    assert(ids.contains(id) && prefix_matches(prefix, id));
    if n >= len {
        assert forall|other: Seq<u8>| #[trigger]
            ids.contains(other) && prefix_matches(prefix, other) implies other == id by {
            let i = choose|i: int| is_at(g, other, i);
            if other != id {
                let others = hex_digits(other);
                assert(g[i].commit_id != id);
                lemma_common_len(digits, others);
                let c = common_len(digits, others) as int;
                assert(c < n);
                assert(others.take(n)[c] == prefix[c]);
                assert(digits[c] == others[c]);
            }
        }
    } else {
        let i = choose|i: int|
            0 <= i < g.len() && (#[trigger] g[i]).commit_id != id && common_len(
                digits,
                hex_digits(g[i].commit_id),
            ) + 1 == len;
        let other = g[i].commit_id;
        let others = hex_digits(other);
        lemma_common_len(digits, others);
        assert forall|k: int| 0 <= k < n implies others[k] == prefix[k] by {
            assert(digits[k] == others[k]);
        }
        assert(others.take(n) =~= prefix);
        assert(is_at(g, other, i));
        assert(ids.contains(other) && prefix_matches(prefix, other));
        assert(ids.contains(id) && ids.contains(other));
    }
}

/// A prefix has one resolution.
pub proof fn law_one_resolution(
    ids: Set<Seq<u8>>,
    prefix: Seq<u8>,
    r: Resolution,
    s: Resolution,
)
    requires
        resolves(ids, prefix, r),
        resolves(ids, prefix, s),
    ensures
        r == s,
{
    match (r, s) {
        (Resolution::SingleMatch(a), Resolution::SingleMatch(b)) => {
            assert(ids.contains(a) && ids.contains(b));
        },
        (Resolution::AmbiguousMatch, _) => {
            let (a, b) = choose|a: Seq<u8>, b: Seq<u8>|
                #![trigger ids.contains(a), ids.contains(b)]
                a != b && ids.contains(a) && ids.contains(b) && prefix_matches(prefix, a)
                    && prefix_matches(prefix, b);
            assert(ids.contains(a) && ids.contains(b));
        },
        (_, Resolution::AmbiguousMatch) => {
            let (a, b) = choose|a: Seq<u8>, b: Seq<u8>|
                #![trigger ids.contains(a), ids.contains(b)]
                a != b && ids.contains(a) && ids.contains(b) && prefix_matches(prefix, a)
                    && prefix_matches(prefix, b);
            assert(ids.contains(a) && ids.contains(b));
        },
        _ => {},
    }
}

/// There is one lookup table for given commits, so that the same commits on top
/// of a file of the same name always make the same index file, with the same name.
pub proof fn law_same_commits_same_file(
    parent_name: Option<Seq<u8>>,
    g: Seq<Entry>,
    base: int,
    a: Seq<(Seq<u8>, u32)>,
    b: Seq<(Seq<u8>, u32)>,
)
    requires
        is_lookup_table(a, g, base),
        is_lookup_table(b, g, base),
    ensures
        a == b,
        index_file(parent_name, g, a) == index_file(parent_name, g, b),
        hex_text(blake2b512(index_file(parent_name, g, a))) == hex_text(
            blake2b512(index_file(parent_name, g, b)),
        ),
{
    lemma_tables_agree(g, base, a, b, a.len() as int);
    assert(a =~= b);
}

/// The first `n` items of two lookup tables for the same commits are the same.
proof fn lemma_tables_agree(
    g: Seq<Entry>,
    base: int,
    a: Seq<(Seq<u8>, u32)>,
    b: Seq<(Seq<u8>, u32)>,
    n: int,
)
    requires
        is_lookup_table(a, g, base),
        is_lookup_table(b, g, base),
        0 <= n <= a.len(),
    ensures
        forall|i: int| 0 <= i < n ==> a[i] == b[i],
    decreases n,
{
    if n > 0 {
        let i = n - 1;
        lemma_tables_agree(g, base, a, b, i);
        // Where the item of each table is in the other one
        let j = lemma_table_place(b, g, base, a[i].1 - base);
        let k = lemma_table_place(a, g, base, b[i].1 - base);
        assert(b[j] == a[i]);
        assert(a[k] == b[i]);
        lex_lt_irreflexive(a[i].0);
        lex_lt_irreflexive(b[i].0);
        if j < i {
            assert(a[j] == b[j]);
            assert(lex_lt(a[j].0, a[i].0));
        }
        if k < i {
            assert(a[k] == b[k]);
            assert(lex_lt(b[k].0, b[i].0));
        }
        if j > i && k > i {
            assert(lex_lt(b[i].0, b[j].0));
            assert(lex_lt(a[i].0, a[k].0));
            lex_lt_asymmetric(a[i].0, b[i].0);
        }
        assert(a[i] == b[i]);
    }
}

/// A stack of files in which each has at least twice as many commits as the one
/// on top of it has few files: their number is not above the logarithm, to base
/// two, of one more than the number of commits.
pub proof fn law_few_files(file: Arc<ReadonlyIndexSegment>)
    requires
        is_halving(Some(file)),
        file.local().len() > 0,
    ensures
        pow2(file.levels()) <= file.entries().len() + 1,
{
    lemma_stack_size(file, file.local().len() as int);
    let p = pow2(file.levels()) as int;
    let k = file.local().len() as int;
    lemma_pow2_pos(file.levels());
    assert(k * (p - 1) >= p - 1) by (nonlinear_arith)
        requires
            k >= 1,
            p >= 1,
    ;
}

/// The number of commits in a stack of files, each with at least twice as many
/// commits as the one on top of it.
proof fn lemma_stack_size(file: Arc<ReadonlyIndexSegment>, k: int)
    requires
        is_halving(Some(file)),
        0 < k <= file.local().len(),
    ensures
        file.entries().len() >= k * (pow2(file.levels()) - 1),
    decreases file.levels(),
{
    file.lemma_entries();
    let n = file.levels();
    lemma_pow2_unfold(n);
    match file.parent() {
        Some(parent) => {
            lemma_stack_size(parent, 2 * k);
            let p = pow2(parent.levels()) as int;
            assert(pow2(n) == 2 * p) by {
                assert((n - 1) as nat == parent.levels());
            }
            assert(k + 2 * k * (p - 1) >= k * (2 * p - 1)) by (nonlinear_arith);
            assert(file.entries().len() == parent.entries().len() + file.local().len());
        },
        None => {
            vstd::arithmetic::power2::lemma2_to64();
            assert(pow2(1) == 2);
        },
    }
}

/// A walk filtered by all generations visits what the whole walk visits, and one
/// filtered by the first generation visits what is wanted.
pub proof fn law_all_generations(walk: RevWalk<'_>, all: Range<u32>, first: Range<u32>)
    requires
        walk.wf(),
        all.start == 0,
        all.end >= walk.entries().len(),
        first.start == 0,
        first.end == 1,
    ensures
        walk.at_generations(all) == walk.remaining(),
        walk.at_generations(first) == walk.wanted().difference(walk.barred()),
{
    let links = parent_links(walk.entries());
    let wanted = walk.wanted();
    walk.lemma_remaining();
    lemma_links_descend(walk.entries());
    assert forall|p: u32| walk.at_generations(all).contains(p) <==> walk.remaining().contains(
        p,
    ) by {
        if walk.at_generations(all).contains(p) {
            let (x, n) = choose|x: u32, n: nat|
                #![trigger wanted.contains(x), path(links, x, p, n)]
                wanted.contains(x) && path(links, x, p, n) && all.start <= n < all.end;
            assert(wanted.contains(x) && reaches(links, x, p));
        }
        if walk.remaining().contains(p) {
            let x = choose|x: u32| wanted.contains(x) && #[trigger] reaches(links, x, p);
            let n = choose|n: nat| path(links, x, p, n);
            lemma_path_descends(links, x, p, n);
            assert(wanted.contains(x) && path(links, x, p, n));
        }
    }
    assert(walk.at_generations(all) =~= walk.remaining());
    assert forall|p: u32| walk.at_generations(first).contains(p) <==> wanted.difference(
        walk.barred(),
    ).contains(p) by {
        if walk.at_generations(first).contains(p) {
            let (x, n) = choose|x: u32, n: nat|
                #![trigger wanted.contains(x), path(links, x, p, n)]
                wanted.contains(x) && path(links, x, p, n) && first.start <= n < first.end;
            assert(n == 0 && x == p);
        }
        if wanted.contains(p) {
            assert(path(links, p, p, 0));
        }
    }
    assert(walk.at_generations(first) =~= wanted.difference(walk.barred()));
}

/// Walking back from roots that are all walked, within all generations, visits
/// what walking back without a limit visits.
pub proof fn law_all_descendants(walk: RevWalk<'_>, roots: Set<u32>, all: Range<u32>)
    requires
        walk.wf(),
        forall|r: u32| #[trigger] roots.contains(r) ==> walk.remaining().contains(r),
        all.start == 0,
        all.end >= walk.entries().len(),
    ensures
        descendants_at(walk.entries(), walk.remaining(), roots, all) == descendants_in(
            parent_links(walk.entries()),
            walk.remaining(),
            roots,
        ),
{
    let g = walk.entries();
    let links = parent_links(g);
    let walked = walk.remaining();
    let inner = links.restrict(walked);
    walk.lemma_remaining();
    lemma_links_descend(g);
    assert forall|p: u32| descends_in_range(g, walked, roots, all, p) <==> walked.contains(p)
        && any_root_below(links, walked, roots, p) by {
        if descends_in_range(g, walked, roots, all, p) {
            let (r, n) = choose|r: u32, n: nat|
                #![trigger roots.contains(r), path(inner, p, r, n)]
                roots.contains(r) && (walked.contains(r) || is_parent_in(g, walked, r)) && path(
                    inner,
                    p,
                    r,
                    n,
                ) && all.start <= n < all.end;
            lemma_path_widened(links, walked, p, r, n);
            assert(walked.contains(r));
            assert(reaches(links, p, r));
        }
        if walked.contains(p) && any_root_below(links, walked, roots, p) {
            let r = choose|r: u32|
                roots.contains(r) && walked.contains(r) && #[trigger] reaches(links, p, r);
            let n = choose|n: nat| path(links, p, r, n);
            lemma_path_descends(links, p, r, n);
            lemma_path_narrowed(walk, p, r, n);
            assert(roots.contains(r) && path(inner, p, r, n));
        }
    }
    assert(descendants_at(g, walked, roots, all) =~= descendants_in(links, walked, roots));
}

/// A path among the nodes of a walk is a path, and starts in the walk if it is
/// not empty.
proof fn lemma_path_widened(
    links: Map<u32, Seq<u32>>,
    walked: Set<u32>,
    from: u32,
    to: u32,
    n: nat,
)
    requires
        path(links.restrict(walked), from, to, n),
    ensures
        path(links, from, to, n),
        n > 0 ==> walked.contains(from),
        n == 0 ==> from == to,
    decreases n,
{
    if n > 0 {
        let k = lemma_first_link(links.restrict(walked), from, to, n);
        lemma_path_widened(links, walked, links[from][k], to, (n - 1) as nat);
        lemma_path_step(links, from, k, to, (n - 1) as nat);
        assert((n - 1 + 1) as nat == n);
    }
}

/// A path between commits of a walk stays among them.
proof fn lemma_path_narrowed(walk: RevWalk<'_>, from: u32, to: u32, n: nat)
    requires
        walk.wf(),
        walk.remaining().contains(from),
        walk.remaining().contains(to),
        path(parent_links(walk.entries()), from, to, n),
    ensures
        path(parent_links(walk.entries()).restrict(walk.remaining()), from, to, n),
    decreases n,
{
    let links = parent_links(walk.entries());
    let inner = links.restrict(walk.remaining());
    if n > 0 {
        let k = lemma_first_link(links, from, to, n);
        let mid = links[from][k];
        lemma_reaches_self(links, mid);
        lemma_reaches_via(links, from, k, mid);
        assert(reaches(links, mid, to));
        walk.lemma_between(from, mid, to);
        lemma_path_narrowed(walk, mid, to, (n - 1) as nat);
        lemma_path_step(inner, from, k, to, (n - 1) as nat);
        assert((n - 1 + 1) as nat == n);
    }
}

/// The hexadecimal text of an id can be read back, and gives the id.
pub proof fn law_hex_round_trip(id: Seq<u8>)
    ensures
        ({
            let text = encode_utf8(hex_text(id));
            &&& text.len() % 2 == 0
            &&& all_hex(text)
            &&& text_digits(text) == hex_digits(id)
            &&& digits_to_bytes(text_digits(text)) == id
        }),
{
    let chars = hex_text(id);
    let text = encode_utf8(chars);
    let digits = hex_digits(id);
    assert forall|i: int| 0 <= i < chars.len() implies '\0' <= #[trigger] chars[i]
        <= '\u{7f}' by {
        assert(digit_at(id, i) < 16);
        assert(chars[i] == digit_char(digit_at(id, i)));
    }
    is_ascii_chars_encode_utf8(chars);
    assert forall|i: int| 0 <= i < text.len() implies is_hex_byte(#[trigger] text[i]) && hex_value(
        text[i],
    ) == digits[i] by {
        assert(digit_at(id, i) < 16);
        assert(chars[i] == digit_char(digits[i]));
        assert(text[i] == chars[i] as u8);
    }
    assert(text_digits(text) =~= digits);
    assert forall|i: int| 0 <= i < id.len() implies digits_to_bytes(digits)[i] == id[i] by {
        assert(digits[2 * i] == digit_at(id, 2 * i));
        assert(digits[2 * i + 1] == digit_at(id, 2 * i + 1));
    }
    assert(digits_to_bytes(digits) =~= id);
}

/// In ids that are ordered by position, no descendant comes before its ancestor.
pub proof fn law_topo_order(g: Seq<Entry>, ids: Seq<Seq<u8>>, i: int, j: int)
    requires
        valid_graph(g),
        has_all(g, ids),
        forall|a: int, b: int|
            #![trigger ids[a], ids[b]]
            0 <= a < b < ids.len() ==> place_of(g, ids[a]) <= place_of(g, ids[b]),
        0 <= i < j < ids.len(),
        ids[i] != ids[j],
    ensures
        !reaches(parent_links(g), place_of(g, ids[i]) as u32, place_of(g, ids[j]) as u32),
{
    let (a, b) = (place_of(g, ids[i]), place_of(g, ids[j]));
    assert(has_commit(g, ids[i]) && has_commit(g, ids[j]));
    assert(is_at(g, ids[i], a) && is_at(g, ids[j], b));
    if reaches(parent_links(g), a as u32, b as u32) {
        law_ancestors_first(g, a as u32, b as u32);
    }
}

/// The id that follows the one before an id is that id.
pub proof fn law_neighbors(
    g: Seq<Entry>,
    id: Seq<u8>,
    prev: Seq<u8>,
    after_prev: Option<Seq<u8>>,
)
    requires
        has_commit(g, id),
        is_previous_id(g, id, Some(prev)),
        is_next_id(g, prev, after_prev),
    ensures
        after_prev == Some(id),
{
    let i = choose|i: int| is_at(g, id, i);
    assert(lex_lt(prev, g[i].commit_id));
    let next = after_prev.unwrap();
    let j = choose|j: int| is_at(g, next, j);
    assert(g[j].commit_id == next);
    if next != id {
        assert(lex_lt(next, id));
        assert(lex_le(g[j].commit_id, prev));
        lex_lt_asymmetric(prev, next);
        lex_lt_irreflexive(prev);
    }
}

/// The heads of all commits are the commits that are not parents.
pub proof fn law_heads_of_all(g: Seq<Entry>, p: u32)
    requires
        valid_graph(g),
        p < g.len(),
    ensures
        is_below(g, Set::new(|q: u32| q < g.len()), p) <==> is_parent(g, p as int),
{
    let links = parent_links(g);
    let all = Set::new(|q: u32| q < g.len());
    lemma_links_descend(g);
    if is_parent(g, p as int) {
        let (i, k) = choose|i: int, k: int|
            #![trigger g[i].parents[k]]
            0 <= i < g.len() && 0 <= k < g[i].parents.len() && g[i].parents[k] == p as int;
        let c = i as u32;
        assert(links[c][k] == p);
        lemma_reaches_self(links, p);
        lemma_reaches_via(links, c, k, p);
        assert(all.contains(c) && c != p);
    }
    if is_below(g, all, p) {
        let c = choose|c: u32| all.contains(c) && c != p && #[trigger] reaches(links, c, p);
        let n = choose|n: nat| path(links, c, p, n);
        let (q, k) = lemma_last_link(links, c, p, n);
        assert(g[q as int].parents[k] == p as int);
    }
}

} // verus!
