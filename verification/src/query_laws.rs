//! What the answers about ids and ancestry are, in terms of the ids and of lines of
//! parents.

use crate::ancestry::{are_heads, common_ancestor_set, is_below};
use crate::byte_order::{lex_le, lex_lt, lex_lt_irreflexive, lex_not_lt};
use crate::composite::{is_next_id, is_previous_id, is_shortest_unique_len, optional_bytes};
use crate::entry::{IndexEntry, IndexEntryByPosition};
use crate::graph_laws::{descends, law_any_reaches, law_id_lists, law_position, law_reaches};
use crate::hex_digits::{
    all_hex, common_len, digit_at, digit_char, digits_to_bytes, hex_digits, hex_text, is_hex_byte,
    lemma_common_len, text_digits,
};
use crate::ids::{prefix_matches, resolves, ChangeId, CommitId, PrefixResolution, Resolution};
use crate::laws::{law_heads_apart, law_heads_cover};
use crate::model::{
    commit_ids, has_all, has_commit, is_at, lemma_links_descend, lemma_place, parent_links,
    place_of, places_of, valid_graph, Entry,
};
use crate::paths::{lemma_reaches_descends, lemma_reaches_transitive, reaches};
use crate::positions::IndexPosition;
use crate::queries::{are_head_ids, numbers, place_set};
use crate::rev_walk::{position_set, positions_inside};
use vstd::prelude::*;

verus! {

/// Byte strings are ordered by the first place at which they differ; one that ends
/// before that comes first.
pub proof fn law_byte_order(a: Seq<u8>, b: Seq<u8>)
    ensures
        lex_lt(a, b) <==> exists|n: int| differs_at(a, b, n),
        lex_le(a, b) <==> lex_lt(a, b) || a == b,
    decreases a.len(),
{
    if a.len() > 0 && b.len() > 0 && a[0] == b[0] {
        let (a1, b1) = (a.drop_first(), b.drop_first());
        law_byte_order(a1, b1);
        if lex_lt(a, b) {
            let n = choose|n: int| differs_at(a1, b1, n);
            assert forall|i: int| 0 <= i < n + 1 implies a[i] == #[trigger] b[i] by {
                if i > 0 {
                    assert(a1[i - 1] == b1[i - 1]);
                }
            }
            assert(n < a1.len() ==> a1[n] == a[n + 1]);
            assert(b1[n] == b[n + 1]);
            assert(differs_at(a, b, n + 1));
        }
        if exists|n: int| differs_at(a, b, n) {
            let n = choose|n: int| differs_at(a, b, n);
            assert(n > 0);
            assert forall|i: int| 0 <= i < n - 1 implies a1[i] == #[trigger] b1[i] by {
                assert(a[i + 1] == b[i + 1]);
            }
            assert(differs_at(a1, b1, n - 1));
        }
    } else {
        if lex_lt(a, b) {
            assert(differs_at(a, b, 0));
        }
        if exists|n: int| differs_at(a, b, n) {
            let n = choose|n: int| differs_at(a, b, n);
            if n > 0 {
                assert(a[0] == b[0]);
            }
        }
    }
}

/// Whether byte strings agree up to a place at which the first one ends, or has the
/// smaller byte.
pub open spec fn differs_at(a: Seq<u8>, b: Seq<u8>, n: int) -> bool {
    &&& 0 <= n <= a.len()
    &&& n < b.len()
    &&& forall|i: int| 0 <= i < n ==> a[i] == #[trigger] b[i]
    &&& n < a.len() ==> a[n] < b[n]
}

/// A text is hexadecimal if each byte is a digit or one of the letters from `a` to
/// `f` in either case, and it spells the digits that these stand for.
pub proof fn law_hex_text(text: Seq<u8>)
    ensures
        all_hex(text) <==> forall|i: int|
            0 <= i < text.len() ==> 48 <= #[trigger] text[i] < 58 || 65 <= text[i] < 71 || 97
                <= text[i] < 103,
        text_digits(text).len() == text.len(),
        all_hex(text) ==> forall|i: int|
            0 <= i < text.len() ==> (#[trigger] text_digits(text)[i]) == (if text[i] < 58 {
                text[i] - 48
            } else if text[i] < 71 {
                text[i] - 65 + 10
            } else {
                text[i] - 97 + 10
            }),
{
    if all_hex(text) {
        assert forall|i: int| 0 <= i < text.len() implies (
        #[trigger] text_digits(text)[i]) == (if text[i] < 58 {
            text[i] - 48
        } else if text[i] < 71 {
            text[i] - 65 + 10
        } else {
            text[i] - 97 + 10
        }) by {
            assert(is_hex_byte(text[i]));
        }
    }
}

/// An id starts with a prefix if each digit of the prefix is the half of a byte of
/// the id at that place, the high half first.
pub proof fn law_prefix(prefix: Seq<u8>, id: Seq<u8>)
    ensures
        prefix_matches(prefix, id) <==> prefix.len() <= 2 * id.len() && forall|i: int|
            0 <= i < prefix.len() ==> (#[trigger] prefix[i]) == (if i % 2 == 0 {
                id[i / 2] / 16
            } else {
                id[i / 2] % 16
            }),
{
    let digits = hex_digits(id);
    if prefix_matches(prefix, id) {
        assert forall|i: int| 0 <= i < prefix.len() implies (#[trigger] prefix[i]) == (if i % 2
            == 0 {
            id[i / 2] / 16
        } else {
            id[i / 2] % 16
        }) by {
            assert(digits.take(prefix.len() as int)[i] == prefix[i]);
            assert(digits[i] == digit_at(id, i));
        }
    }
    if prefix.len() <= 2 * id.len() && forall|i: int|
        0 <= i < prefix.len() ==> (#[trigger] prefix[i]) == (if i % 2 == 0 {
            id[i / 2] / 16
        } else {
            id[i / 2] % 16
        }) {
        assert(digits.take(prefix.len() as int) =~= prefix);
    }
}

/// Whether an id of a commit starts with a prefix.
pub open spec fn matches_at(g: Seq<Entry>, prefix: Seq<u8>, i: int) -> bool {
    0 <= i < g.len() && prefix_matches(prefix, g[i].commit_id)
}

/// A prefix stands for nothing if no commit matches it, for an id if the one commit
/// that matches it has that id, and is ambiguous if two match it.
pub proof fn law_resolution(g: Seq<Entry>, prefix: Seq<u8>, r: Resolution)
    requires
        valid_graph(g),
        resolves(commit_ids(g), prefix, r),
    ensures
        r is NoMatch <==> forall|i: int| !matches_at(g, prefix, i),
        r matches Resolution::SingleMatch(id) ==> exists|i: int| #[trigger]
            matches_at(g, prefix, i) && g[i].commit_id == id && forall|j: int| #[trigger]
                matches_at(g, prefix, j) ==> j == i,
        r is AmbiguousMatch <==> exists|i: int, j: int| #[trigger]
            matches_at(g, prefix, i) && #[trigger] matches_at(g, prefix, j) && i != j,
{
    let ids = commit_ids(g);
    assert forall|i: int| #[trigger] matches_at(g, prefix, i) implies ids.contains(
        g[i].commit_id,
    ) by {
        assert(is_at(g, g[i].commit_id, i));
    }
    assert forall|i: int, j: int|
        matches_at(g, prefix, i) && matches_at(g, prefix, j) && g[i].commit_id
            == g[j].commit_id implies i == j by {
        lemma_place(g, i);
        lemma_place(g, j);
    }
    match r {
        Resolution::NoMatch => {},
        Resolution::SingleMatch(id) => {
            let i = choose|i: int| is_at(g, id, i);
            assert(matches_at(g, prefix, i));
        },
        Resolution::AmbiguousMatch => {
            let (a, b) = choose|a: Seq<u8>, b: Seq<u8>|
                #![trigger ids.contains(a), ids.contains(b)]
                a != b && ids.contains(a) && ids.contains(b) && prefix_matches(prefix, a)
                    && prefix_matches(prefix, b);
            let i = choose|i: int| is_at(g, a, i);
            let j = choose|j: int| is_at(g, b, j);
            assert(matches_at(g, prefix, i) && matches_at(g, prefix, j));
        },
    }
}

/// Whether the first `n` digits of two ids are there and the same.
pub open spec fn shares_digits(a: Seq<u8>, b: Seq<u8>, n: int) -> bool {
    &&& n <= 2 * a.len()
    &&& n <= 2 * b.len()
    &&& forall|i: int| 0 <= i < n ==> #[trigger] digit_at(a, i) == digit_at(b, i)
}

/// No other commit shares as many digits with an id as are needed to tell it from all
/// others, but one shares one digit less, unless none is needed.
pub proof fn law_shortest_prefix(g: Seq<Entry>, id: Seq<u8>, len: int)
    requires
        is_shortest_unique_len(g, id, len),
    ensures
        len >= 0,
        forall|i: int|
            0 <= i < g.len() && (#[trigger] g[i]).commit_id != id ==> !shares_digits(
                id,
                g[i].commit_id,
                len,
            ),
        len > 0 ==> exists|i: int|
            0 <= i < g.len() && (#[trigger] g[i]).commit_id != id && shares_digits(
                id,
                g[i].commit_id,
                len - 1,
            ),
{
    let digits = hex_digits(id);
    assert forall|i: int| 0 <= i < g.len() && (#[trigger] g[i]).commit_id != id implies
        !shares_digits(id, g[i].commit_id, len) by {
        let others = hex_digits(g[i].commit_id);
        let c = common_len(digits, others) as int;
        lemma_common_len(digits, others);
        if shares_digits(id, g[i].commit_id, len) {
            assert(digits[c] == digit_at(id, c));
            assert(others[c] == digit_at(g[i].commit_id, c));
        }
    }
    if len > 0 {
        let i = choose|i: int|
            0 <= i < g.len() && (#[trigger] g[i]).commit_id != id && common_len(
                digits,
                hex_digits(g[i].commit_id),
            ) + 1 == len;
        let other = g[i].commit_id;
        let others = hex_digits(other);
        lemma_common_len(digits, others);
        assert forall|k: int| 0 <= k < len - 1 implies #[trigger] digit_at(id, k) == digit_at(
            other,
            k,
        ) by {
            assert(digits[k] == others[k]);
        }
        assert(shares_digits(id, other, len - 1));
    }
}

/// The text of an id has two characters for each byte, for its high half and then for
/// its low half: digits, and the letters from `a` to `f`.
pub proof fn law_hex_written(id: Seq<u8>, i: int)
    requires
        0 <= i < id.len(),
    ensures
        hex_text(id).len() == 2 * id.len(),
        hex_text(id)[2 * i] as int == (if id[i] / 16 < 10 {
            48 + id[i] / 16
        } else {
            97 + id[i] / 16 - 10
        }),
        hex_text(id)[2 * i + 1] as int == (if id[i] % 16 < 10 {
            48 + id[i] % 16
        } else {
            97 + id[i] % 16 - 10
        }),
{
    assert(hex_text(id)[2 * i] == digit_char(digit_at(id, 2 * i)));
    assert(hex_text(id)[2 * i + 1] == digit_char(digit_at(id, 2 * i + 1)));
}

/// Hexadecimal digits are read two by two as the high half and the low half of a byte.
pub proof fn law_hex_read(digits: Seq<u8>, i: int)
    requires
        0 <= i < digits.len() / 2,
        forall|k: int| 0 <= k < digits.len() ==> (#[trigger] digits[k]) < 16,
    ensures
        digits_to_bytes(digits).len() == digits.len() / 2,
        digits_to_bytes(digits)[i] / 16 == digits[2 * i],
        digits_to_bytes(digits)[i] % 16 == digits[2 * i + 1],
{
    assert(digits[2 * i] < 16 && digits[2 * i + 1] < 16);
}

/// Two byte strings have as many hexadecimal digits in common as there are places, from
/// the start, at which the same digits stand: at the next place the digits differ, or
/// one of the byte strings has ended.
pub proof fn law_common_digits(a: Seq<u8>, b: Seq<u8>, n: int)
    ensures
        n == common_len(hex_digits(a), hex_digits(b)) <==> {
            &&& 0 <= n
            &&& shares_digits(a, b, n)
            &&& !shares_digits(a, b, n + 1)
        },
{
    let (x, y) = (hex_digits(a), hex_digits(b));
    let c = common_len(x, y) as int;
    lemma_common_len(x, y);
    assert forall|k: int| 0 <= k < c implies #[trigger] digit_at(a, k) == digit_at(b, k) by {
        assert(x[k] == y[k]);
    }
    if shares_digits(a, b, c + 1) {
        assert(x[c] == digit_at(a, c) && y[c] == digit_at(b, c));
    }
    if 0 <= n < c {
        assert(shares_digits(a, b, n + 1));
    }
    if n > c && shares_digits(a, b, n) {
        assert(shares_digits(a, b, c + 1));
    }
}

/// Resolutions are combined as the numbers of matches are added up: no match changes
/// nothing, and two matches are ambiguous, whichever they are.
pub proof fn law_combined_resolution(a: Resolution, b: Resolution, c: Resolution)
    ensures
        a.plus(Resolution::NoMatch) == a,
        Resolution::NoMatch.plus(a) == a,
        a is NoMatch || b is NoMatch || a.plus(b) is AmbiguousMatch,
        a.plus(b) is NoMatch <==> a is NoMatch && b is NoMatch,
        a.plus(b) == b.plus(a),
        a.plus(b).plus(c) == a.plus(b.plus(c)),
{
}

/// Ids are equal if they have the same bytes.
pub proof fn law_equal_ids(a: CommitId, b: CommitId, x: ChangeId, y: ChangeId)
    ensures
        vstd::std_specs::cmp::PartialEqSpec::eq_spec(&a, &b) <==> a@.len() == b@.len()
            && forall|i: int| 0 <= i < a@.len() ==> a@[i] == #[trigger] b@[i],
        vstd::std_specs::cmp::PartialEqSpec::eq_spec(&x, &y) <==> x@.len() == y@.len()
            && forall|i: int| 0 <= i < x@.len() ==> x@[i] == #[trigger] y@[i],
        optional_bytes(Some(a)) == Some(a@),
        optional_bytes(None) is None,
{
    if a@.len() == b@.len() && forall|i: int| 0 <= i < a@.len() ==> a@[i] == #[trigger] b@[i] {
        assert(a@ =~= b@);
    }
    if x@.len() == y@.len() && forall|i: int| 0 <= i < x@.len() ==> x@[i] == #[trigger] y@[i] {
        assert(x@ =~= y@);
    }
}

/// Resolutions are equal if they say the same: no match, the same id, or more than one
/// match.
pub proof fn law_equal_resolutions(a: PrefixResolution, b: PrefixResolution)
    ensures
        vstd::std_specs::cmp::PartialEqSpec::eq_spec(&a, &b) <==> match a {
            PrefixResolution::NoMatch => b is NoMatch,
            PrefixResolution::SingleMatch(x) => match b {
                PrefixResolution::SingleMatch(y) => x@ == y@,
                _ => false,
            },
            PrefixResolution::AmbiguousMatch => b is AmbiguousMatch,
        },
{
}

/// The neighbors of an id are ids of commits before and after it, with no commit's id
/// between them and it.
pub proof fn law_neighbor_ids(
    g: Seq<Entry>,
    id: Seq<u8>,
    prev: Option<Seq<u8>>,
    next: Option<Seq<u8>>,
)
    requires
        is_previous_id(g, id, prev),
        is_next_id(g, id, next),
    ensures
        match prev {
            Some(prev) => {
                &&& exists|i: int| 0 <= i < g.len() && (#[trigger] g[i]).commit_id == prev
                &&& lex_lt(prev, id)
                &&& forall|i: int|
                    0 <= i < g.len() ==> !(lex_lt(prev, (#[trigger] g[i]).commit_id) && lex_lt(
                        g[i].commit_id,
                        id,
                    ))
            },
            None => forall|i: int| 0 <= i < g.len() ==> !lex_lt((#[trigger] g[i]).commit_id, id),
        },
        match next {
            Some(next) => {
                &&& exists|i: int| 0 <= i < g.len() && (#[trigger] g[i]).commit_id == next
                &&& lex_lt(id, next)
                &&& forall|i: int|
                    0 <= i < g.len() ==> !(lex_lt(id, (#[trigger] g[i]).commit_id) && lex_lt(
                        g[i].commit_id,
                        next,
                    ))
            },
            None => forall|i: int| 0 <= i < g.len() ==> !lex_lt(id, (#[trigger] g[i]).commit_id),
        },
{
    match prev {
        Some(prev) => {
            law_position(g, prev);
            assert forall|i: int| 0 <= i < g.len() implies !(lex_lt(
                prev,
                (#[trigger] g[i]).commit_id,
            ) && lex_lt(g[i].commit_id, id)) by {
                lex_not_lt(g[i].commit_id, prev);
                lex_not_lt(prev, g[i].commit_id);
                lex_lt_irreflexive(prev);
            }
        },
        None => {},
    }
    match next {
        Some(next) => {
            law_position(g, next);
            assert forall|i: int| 0 <= i < g.len() implies !(lex_lt(
                id,
                (#[trigger] g[i]).commit_id,
            ) && lex_lt(g[i].commit_id, next)) by {
                lex_not_lt(g[i].commit_id, next);
                lex_not_lt(next, g[i].commit_id);
                lex_lt_irreflexive(next);
            }
        },
        None => {},
    }
}

/// An entry stands for the commit at its position.
pub proof fn law_entry(entry: IndexEntry<'_>, g: Seq<Entry>)
    requires
        entry.is_in(g),
    ensures
        entry.place() < g.len(),
        entry.model() == g[entry.place() as int],
{
}

/// Entries are equal if they have the same position, and are ordered by it.
pub proof fn law_entry_order(a: IndexEntry<'_>, b: IndexEntry<'_>)
    ensures
        vstd::std_specs::cmp::PartialEqSpec::eq_spec(&a, &b) <==> a.place() == b.place(),
        vstd::std_specs::cmp::PartialEqSpec::eq_spec(
            &IndexEntryByPosition(a),
            &IndexEntryByPosition(b),
        ) <==> a.place() == b.place(),
        vstd::std_specs::cmp::PartialOrdSpec::partial_cmp_spec(
            &IndexEntryByPosition(a),
            &IndexEntryByPosition(b),
        ) == (if a.place() < b.place() {
            Some(core::cmp::Ordering::Less)
        } else if a.place() > b.place() {
            Some(core::cmp::Ordering::Greater)
        } else {
            Some(core::cmp::Ordering::Equal)
        }),
{
}

/// Positions are inside an index if each is less than the number of commits, and a
/// set of positions holds those that are listed.
pub proof fn law_positions(positions: Seq<IndexPosition>, g: Seq<Entry>)
    ensures
        positions_inside(positions, g) <==> forall|i: int|
            0 <= i < positions.len() ==> (#[trigger] positions[i]).0 < g.len(),
        forall|p: u32| #[trigger]
            position_set(positions).contains(p) <==> exists|i: int|
                0 <= i < positions.len() && (#[trigger] positions[i]).0 == p,
        numbers(positions).len() == positions.len(),
        forall|i: int|
            0 <= i < positions.len() ==> #[trigger] numbers(positions)[i] == positions[i].0,
{
    assert forall|p: u32| #[trigger] position_set(positions).contains(p) <==> exists|i: int|
        0 <= i < positions.len() && (#[trigger] positions[i]).0 == p by {
        if positions.contains(IndexPosition(p)) {
            let i = choose|i: int| 0 <= i < positions.len() && positions[i] == IndexPosition(p);
            assert(positions[i].0 == p);
        }
        if exists|i: int| 0 <= i < positions.len() && (#[trigger] positions[i]).0 == p {
            let i = choose|i: int| 0 <= i < positions.len() && (#[trigger] positions[i]).0 == p;
            assert(positions[i] == IndexPosition(p));
        }
    }
}

/// Whether a commit is listed.
pub open spec fn lists(heads: Seq<IndexPosition>, p: u32) -> bool {
    exists|i: int| 0 <= i < heads.len() && (#[trigger] heads[i]).0 == p
}

/// The heads of a set are listed by ascending position. They are commits of the set,
/// none is an ancestor of another one, and each commit of the set is one of them or
/// an ancestor of one.
pub proof fn law_heads(g: Seq<Entry>, set: Set<u32>, heads: Seq<IndexPosition>)
    requires
        valid_graph(g),
        forall|q: u32| #[trigger] set.contains(q) ==> q < g.len(),
        are_heads(g, set, heads),
    ensures
        forall|i: int, j: int|
            #![trigger heads[i], heads[j]]
            0 <= i < j < heads.len() ==> heads[i].0 < heads[j].0,
        forall|i: int| 0 <= i < heads.len() ==> set.contains((#[trigger] heads[i]).0),
        forall|i: int, j: int|
            #![trigger heads[i], heads[j]]
            0 <= i < heads.len() && 0 <= j < heads.len() && i != j ==> !descends(
                g,
                heads[i].0,
                heads[j].0,
            ),
        forall|p: u32| #[trigger]
            set.contains(p) ==> exists|h: u32|
                lists(heads, h) && #[trigger] descends(g, h, p),
        forall|p: u32| #[trigger]
            set.contains(p) && !lists(heads, p) ==> exists|q: u32|
                set.contains(q) && q != p && #[trigger] descends(g, q, p),
{
    assert forall|i: int| 0 <= i < heads.len() implies heads.contains(
        IndexPosition((#[trigger] heads[i]).0),
    ) by {
        assert(heads[i] == IndexPosition(heads[i].0));
    }
    assert forall|i: int, j: int|
        #![trigger heads[i], heads[j]]
        0 <= i < heads.len() && 0 <= j < heads.len() && i != j implies !descends(
        g,
        heads[i].0,
        heads[j].0,
    ) by {
        if i < j {
            assert(heads[i].0 < heads[j].0);
        } else {
            assert(heads[j].0 < heads[i].0);
        }
        law_heads_apart(g, set, heads, heads[i], heads[j]);
        law_reaches(g, heads[i].0, heads[j].0);
    }
    assert forall|p: u32| #[trigger] set.contains(p) implies exists|h: u32|
        lists(heads, h) && #[trigger] descends(g, h, p) by {
        law_heads_cover(g, set, heads, p);
        let h = choose|h: u32|
            heads.contains(IndexPosition(h)) && #[trigger] reaches(parent_links(g), h, p);
        let i = choose|i: int| 0 <= i < heads.len() && heads[i] == IndexPosition(h);
        assert(heads[i].0 == h);
        law_reaches(g, h, p);
        assert(lists(heads, h) && descends(g, h, p));
    }
    assert forall|p: u32| #[trigger] set.contains(p) && !lists(heads, p) implies exists|q: u32|
        set.contains(q) && q != p && #[trigger] descends(g, q, p) by {
        if heads.contains(IndexPosition(p)) {
            let i = choose|i: int| 0 <= i < heads.len() && heads[i] == IndexPosition(p);
            assert(heads[i].0 == p);
        }
        assert(is_below(g, set, p));
        let q = choose|q: u32|
            set.contains(q) && q != p && #[trigger] reaches(parent_links(g), q, p);
        law_reaches(g, q, p);
        assert(descends(g, q, p));
    }
}

/// Whether a line of parents leads to a commit from one of a set.
pub open spec fn descends_from(g: Seq<Entry>, set: Set<u32>, p: u32) -> bool {
    exists|x: u32| set.contains(x) && #[trigger] descends(g, x, p)
}

/// A commit is a common ancestor of two sets if, and only if, lines of parents lead to
/// it from a commit of each.
pub proof fn law_common_ancestor(g: Seq<Entry>, a: Set<u32>, b: Set<u32>, p: u32)
    ensures
        common_ancestor_set(g, a, b).contains(p) <==> descends_from(g, a, p) && descends_from(
            g,
            b,
            p,
        ),
{
    law_any_reaches(g, a, p);
    law_any_reaches(g, b, p);
}

/// What is returned as common ancestors of two sets: lines of parents lead to each
/// from both sets, none is an ancestor of another one, and each commit to which lines
/// of parents lead from both sets is one of them or an ancestor of one.
pub proof fn law_common_ancestors_found(
    g: Seq<Entry>,
    a: Set<u32>,
    b: Set<u32>,
    heads: Seq<IndexPosition>,
)
    requires
        valid_graph(g),
        forall|q: u32| #[trigger] a.contains(q) ==> q < g.len(),
        forall|q: u32| #[trigger] b.contains(q) ==> q < g.len(),
        are_heads(g, common_ancestor_set(g, a, b), heads),
    ensures
        forall|i: int|
            0 <= i < heads.len() ==> descends_from(g, a, (#[trigger] heads[i]).0) && descends_from(
                g,
                b,
                heads[i].0,
            ),
        forall|i: int, j: int|
            #![trigger heads[i], heads[j]]
            0 <= i < heads.len() && 0 <= j < heads.len() && i != j ==> !descends(
                g,
                heads[i].0,
                heads[j].0,
            ),
        forall|x: u32, y: u32, p: u32|
            #![trigger descends(g, x, p), descends(g, y, p)]
            a.contains(x) && b.contains(y) && descends(g, x, p) && descends(g, y, p)
                ==> exists|h: u32| lists(heads, h) && #[trigger] descends(g, h, p),
{
    let set = common_ancestor_set(g, a, b);
    lemma_links_descend(g);
    assert forall|q: u32| #[trigger] set.contains(q) implies q < g.len() by {
        law_common_ancestor(g, a, b, q);
        let x = choose|x: u32| a.contains(x) && #[trigger] descends(g, x, q);
        law_reaches(g, x, q);
        lemma_reaches_descends(parent_links(g), x, q);
    }
    law_heads(g, set, heads);
    assert forall|i: int| 0 <= i < heads.len() implies descends_from(
        g,
        a,
        (#[trigger] heads[i]).0,
    ) && descends_from(g, b, heads[i].0) by {
        assert(set.contains(heads[i].0));
        law_common_ancestor(g, a, b, heads[i].0);
    }
    assert forall|x: u32, y: u32, p: u32|
        #![trigger descends(g, x, p), descends(g, y, p)]
        a.contains(x) && b.contains(y) && descends(g, x, p) && descends(g, y, p) implies exists|
        h: u32,
    |
        lists(heads, h) && #[trigger] descends(g, h, p) by {
        law_common_ancestor(g, a, b, p);
        assert(set.contains(p));
    }
}

/// The set of the positions of given ids holds the positions of the commits that have
/// one of them.
pub proof fn law_place_set(g: Seq<Entry>, ids: Seq<Seq<u8>>, p: u32)
    requires
        valid_graph(g),
        has_all(g, ids),
    ensures
        place_set(g, ids).contains(p) <==> p < g.len() && exists|k: int|
            0 <= k < ids.len() && #[trigger] ids[k] == g[p as int].commit_id,
{
    law_id_lists(g, ids, Seq::empty(), Seq::empty());
    let places = places_of(g, ids);
    if places.contains(p) {
        let k = choose|k: int| 0 <= k < places.len() && places[k] == p;
        assert(ids[k] == g[places[k] as int].commit_id);
    }
    if p < g.len() && exists|k: int|
        0 <= k < ids.len() && #[trigger] ids[k] == g[p as int].commit_id {
        let k = choose|k: int| 0 <= k < ids.len() && #[trigger] ids[k] == g[p as int].commit_id;
        lemma_place(g, p as int);
        assert(places[k] == p);
    }
}

/// Whether the commit at a position is listed by its id.
pub open spec fn lists_id(g: Seq<Entry>, ids: Seq<Seq<u8>>, p: u32) -> bool {
    p < g.len() && exists|k: int| 0 <= k < ids.len() && #[trigger] ids[k] == g[p as int].commit_id
}

/// The heads of a set that are given by their ids are those of the set's commits that
/// are not ancestors of others: each is there, each commit of the set is one of them
/// or an ancestor of one, and they are listed by ascending position.
pub proof fn law_head_ids(g: Seq<Entry>, set: Set<u32>, ids: Seq<Seq<u8>>)
    requires
        valid_graph(g),
        forall|q: u32| #[trigger] set.contains(q) ==> q < g.len(),
        are_head_ids(g, set, ids),
    ensures
        forall|k: int| 0 <= k < ids.len() ==> has_commit(g, #[trigger] ids[k]),
        forall|i: int, j: int|
            #![trigger ids[i], ids[j]]
            0 <= i < j < ids.len() ==> place_of(g, ids[i]) < place_of(g, ids[j]),
        forall|p: u32| #[trigger] lists_id(g, ids, p) ==> set.contains(p),
        forall|p: u32, q: u32|
            #![trigger lists_id(g, ids, p), lists_id(g, ids, q)]
            lists_id(g, ids, p) && lists_id(g, ids, q) && p != q ==> !descends(g, p, q),
        forall|p: u32| #[trigger]
            set.contains(p) ==> exists|h: u32|
                lists_id(g, ids, h) && #[trigger] descends(g, h, p),
{
    assert forall|p: u32| #[trigger] lists_id(g, ids, p) <==> set.contains(p) && !is_below(
        g,
        set,
        p,
    ) by {
        law_place_set(g, ids, p);
        if p < g.len() {
            assert(places_of(g, ids).contains(p) <==> place_set(g, ids).contains(p));
        }
    }
    assert forall|p: u32, q: u32|
        #![trigger lists_id(g, ids, p), lists_id(g, ids, q)]
        lists_id(g, ids, p) && lists_id(g, ids, q) && p != q implies !descends(g, p, q) by {
        law_reaches(g, p, q);
        if reaches(parent_links(g), p, q) {
            assert(is_below(g, set, q));
        }
    }
    assert forall|p: u32| #[trigger] set.contains(p) implies exists|h: u32|
        lists_id(g, ids, h) && #[trigger] descends(g, h, p) by {
        lemma_head_above(g, set, ids, p);
    }
}

/// Above each commit of a set there is a head, or it is one.
proof fn lemma_head_above(g: Seq<Entry>, set: Set<u32>, ids: Seq<Seq<u8>>, p: u32)
    requires
        valid_graph(g),
        forall|q: u32| #[trigger] set.contains(q) ==> q < g.len(),
        forall|q: u32| #[trigger]
            lists_id(g, ids, q) <==> set.contains(q) && !is_below(g, set, q),
        set.contains(p),
    ensures
        exists|h: u32| lists_id(g, ids, h) && #[trigger] descends(g, h, p),
    decreases g.len() - p,
{
    let links = parent_links(g);
    lemma_links_descend(g);
    if is_below(g, set, p) {
        let c = choose|c: u32| set.contains(c) && c != p && #[trigger] reaches(links, c, p);
        lemma_reaches_descends(links, c, p);
        lemma_head_above(g, set, ids, c);
        let h = choose|h: u32| lists_id(g, ids, h) && #[trigger] descends(g, h, c);
        law_reaches(g, h, c);
        lemma_reaches_transitive(links, h, c, p);
        law_reaches(g, h, p);
        assert(lists_id(g, ids, h) && descends(g, h, p));
    } else {
        law_reaches(g, p, p);
        assert(lists_id(g, ids, p) && descends(g, p, p));
    }
}

/// What is returned as ids of common ancestors of commits that are given by their ids:
/// lines of parents lead to each from commits of both lists, none is an ancestor of
/// another one, and each commit to which such lines lead from both lists is one of
/// them or an ancestor of one.
pub proof fn law_common_ancestor_ids(
    g: Seq<Entry>,
    a: Seq<Seq<u8>>,
    b: Seq<Seq<u8>>,
    ids: Seq<Seq<u8>>,
)
    requires
        valid_graph(g),
        has_all(g, a),
        has_all(g, b),
        are_head_ids(g, common_ancestor_set(g, place_set(g, a), place_set(g, b)), ids),
    ensures
        forall|p: u32| #[trigger]
            lists_id(g, ids, p) ==> {
                &&& exists|x: u32| lists_id(g, a, x) && #[trigger] descends(g, x, p)
                &&& exists|y: u32| lists_id(g, b, y) && #[trigger] descends(g, y, p)
            },
        forall|p: u32, q: u32|
            #![trigger lists_id(g, ids, p), lists_id(g, ids, q)]
            lists_id(g, ids, p) && lists_id(g, ids, q) && p != q ==> !descends(g, p, q),
        forall|x: u32, y: u32, p: u32|
            #![trigger descends(g, x, p), descends(g, y, p)]
            lists_id(g, a, x) && lists_id(g, b, y) && descends(g, x, p) && descends(g, y, p)
                ==> exists|h: u32| lists_id(g, ids, h) && #[trigger] descends(g, h, p),
{
    let (sa, sb) = (place_set(g, a), place_set(g, b));
    let set = common_ancestor_set(g, sa, sb);
    assert forall|p: u32| #[trigger] sa.contains(p) <==> lists_id(g, a, p) by {
        law_place_set(g, a, p);
    }
    assert forall|p: u32| #[trigger] sb.contains(p) <==> lists_id(g, b, p) by {
        law_place_set(g, b, p);
    }
    lemma_links_descend(g);
    assert forall|q: u32| #[trigger] set.contains(q) implies q < g.len() by {
        law_common_ancestor(g, sa, sb, q);
        let x = choose|x: u32| sa.contains(x) && #[trigger] descends(g, x, q);
        law_reaches(g, x, q);
        lemma_reaches_descends(parent_links(g), x, q);
    }
    law_head_ids(g, set, ids);
    assert forall|p: u32| #[trigger] lists_id(g, ids, p) implies {
        &&& exists|x: u32| lists_id(g, a, x) && #[trigger] descends(g, x, p)
        &&& exists|y: u32| lists_id(g, b, y) && #[trigger] descends(g, y, p)
    } by {
        assert(set.contains(p));
        law_common_ancestor(g, sa, sb, p);
        let x = choose|x: u32| sa.contains(x) && #[trigger] descends(g, x, p);
        assert(lists_id(g, a, x) && descends(g, x, p));
        let y = choose|y: u32| sb.contains(y) && #[trigger] descends(g, y, p);
        assert(lists_id(g, b, y) && descends(g, y, p));
    }
    assert forall|x: u32, y: u32, p: u32|
        #![trigger descends(g, x, p), descends(g, y, p)]
        lists_id(g, a, x) && lists_id(g, b, y) && descends(g, x, p) && descends(
            g,
            y,
            p,
        ) implies exists|h: u32| lists_id(g, ids, h) && #[trigger] descends(g, h, p) by {
        assert(sa.contains(x) && sb.contains(y));
        law_common_ancestor(g, sa, sb, p);
        assert(set.contains(p));
    }
}

} // verus!
