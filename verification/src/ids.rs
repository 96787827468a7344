//! Commit ids, change ids, and hexadecimal prefixes of commit ids.

use crate::byte_order::{bytes_eq, bytes_to_vec, lex_le, lex_lt, lex_lt_transitive};
use crate::hex_digits::{
    all_hex, common_len, digit_at, digits_to_bytes, hex_decode, hex_digits, hex_encode, hex_text,
    hex_value, is_hex_byte, lemma_common_len, lemma_digits_to_bytes, starts_with, text_digits,
};
use vstd::prelude::*;
use vstd::string::StringSliceAdditionalSpecFns;

verus! {

/// Identifies a commit by the hash of its content.
#[derive(Debug, Eq, PartialOrd, Ord, Hash)]
pub struct CommitId(Vec<u8>);

/// Identifies a change, which may have several commits over time.
#[derive(Debug, Eq, PartialOrd, Ord, Hash)]
pub struct ChangeId(Vec<u8>);

impl View for CommitId {
    type V = Seq<u8>;

    closed spec fn view(&self) -> Seq<u8> {
        self.0@
    }
}

impl View for ChangeId {
    type V = Seq<u8>;

    closed spec fn view(&self) -> Seq<u8> {
        self.0@
    }
}

impl CommitId {
    /// Makes an id of the given bytes.
    pub fn new(bytes: Vec<u8>) -> (id: Self)
        ensures
            id@ == bytes@,
    {
        CommitId(bytes)
    }

    /// Makes an id of a copy of the given bytes.
    pub fn from_bytes(bytes: &[u8]) -> (id: Self)
        ensures
            id@ == bytes@,
    {
        CommitId(bytes_to_vec(bytes))
    }

    /// Makes an id of hexadecimal text.
    pub fn from_hex(hex: &str) -> (id: Self)
        requires
            hex.spec_bytes().len() % 2 == 0,
            all_hex(hex.spec_bytes()),
        ensures
            id@ == digits_to_bytes(text_digits(hex.spec_bytes())),
    {
        CommitId(hex_decode(hex.as_bytes()).unwrap())
    }

    /// The bytes of the id.
    pub fn as_bytes(&self) -> (bytes: &[u8])
        ensures
            bytes@ == self@,
    {
        self.0.as_slice()
    }

    /// The id as lower-case hexadecimal text.
    pub fn hex(&self) -> (text: String)
        ensures
            text@ == hex_text(self@),
    {
        hex_encode(self.0.as_slice())
    }
}

impl ChangeId {
    /// Makes an id of the given bytes.
    pub fn new(bytes: Vec<u8>) -> (id: Self)
        ensures
            id@ == bytes@,
    {
        ChangeId(bytes)
    }

    /// Makes an id of a copy of the given bytes.
    pub fn from_bytes(bytes: &[u8]) -> (id: Self)
        ensures
            id@ == bytes@,
    {
        ChangeId(bytes_to_vec(bytes))
    }

    /// The bytes of the id.
    pub fn as_bytes(&self) -> (bytes: &[u8])
        ensures
            bytes@ == self@,
    {
        self.0.as_slice()
    }
}

impl Clone for CommitId {
    fn clone(&self) -> (id: Self)
        ensures
            id@ == self@,
    {
        CommitId(bytes_to_vec(self.0.as_slice()))
    }
}

impl Clone for ChangeId {
    fn clone(&self) -> (id: Self)
        ensures
            id@ == self@,
    {
        ChangeId(bytes_to_vec(self.0.as_slice()))
    }
}

impl PartialEq for CommitId {
    fn eq(&self, other: &Self) -> (result: bool) {
        bytes_eq(self.0.as_slice(), other.0.as_slice())
    }
}

impl vstd::std_specs::cmp::PartialEqSpecImpl for CommitId {
    open spec fn obeys_eq_spec() -> bool {
        true
    }

    open spec fn eq_spec(&self, other: &Self) -> bool {
        self@ == other@
    }
}

impl PartialEq for ChangeId {
    fn eq(&self, other: &Self) -> (result: bool) {
        bytes_eq(self.0.as_slice(), other.0.as_slice())
    }
}

impl vstd::std_specs::cmp::PartialEqSpecImpl for ChangeId {
    open spec fn obeys_eq_spec() -> bool {
        true
    }

    open spec fn eq_spec(&self, other: &Self) -> bool {
        self@ == other@
    }
}

/// A prefix of the hexadecimal text of ids, of any number of digits.
#[derive(Debug)]
pub struct HexPrefix {
    // The digits of the prefix, followed by a zero if their number is odd.
    min_prefix_bytes: Vec<u8>,
    has_odd_byte: bool,
}

impl View for HexPrefix {
    type V = Seq<u8>;

    /// The digits of the prefix.
    closed spec fn view(&self) -> Seq<u8> {
        if self.has_odd_byte {
            hex_digits(self.min_prefix_bytes@).drop_last()
        } else {
            hex_digits(self.min_prefix_bytes@)
        }
    }
}

/// Whether an id starts with a prefix, digit by digit.
pub open spec fn prefix_matches(prefix: Seq<u8>, id: Seq<u8>) -> bool {
    starts_with(hex_digits(id), prefix)
}

impl HexPrefix {
    /// A prefix of an odd number of digits is filled up with a zero digit.
    pub closed spec fn wf(&self) -> bool {
        self.has_odd_byte ==> self.min_prefix_bytes@.len() > 0 && self.min_prefix_bytes@.last() % 16
            == 0
    }

    /// The least byte string that the prefix can match.
    pub closed spec fn min_bytes(&self) -> Seq<u8> {
        self.min_prefix_bytes@
    }

    /// Returns a new prefix, or `None` if the text is not made of hexadecimal
    /// digits.
    pub fn new(prefix: &str) -> (result: Option<HexPrefix>)
        ensures
            result is Some <==> all_hex(prefix.spec_bytes()),
            result matches Some(p) ==> p.wf() && p@ == text_digits(prefix.spec_bytes()),
    {
        let mut text: Vec<u8> = bytes_to_vec(prefix.as_bytes());
        let ghost given = text@;
        let has_odd_byte = text.len() % 2 != 0;
        if has_odd_byte {
            text.push(48);
        }
        let ghost padded = text@;
        proof {
            if has_odd_byte {
                assert(padded.drop_last() =~= given);
                assert forall|i: int| 0 <= i < given.len() && all_hex(padded) implies is_hex_byte(
                    #[trigger] given[i],
                ) by {
                    assert(padded[i] == given[i]);
                }
            }
            assert(all_hex(padded) <==> all_hex(given));
        }
        match hex_decode(text.as_slice()) {
            Some(min_prefix_bytes) => {
                proof {
                    let digits = text_digits(padded);
                    lemma_digits_to_bytes(digits);
                    if has_odd_byte {
                        assert(digits.last() == hex_value(48));
                        assert(digits.drop_last() =~= text_digits(given));
                        let n = min_prefix_bytes@.len();
                        assert(hex_digits(min_prefix_bytes@)[2 * n - 1] == digit_at(
                            min_prefix_bytes@,
                            2 * n - 1,
                        ));
                    }
                }
                Some(HexPrefix { min_prefix_bytes, has_odd_byte })
            },
            None => None,
        }
    }

    /// Minimum bytes that would match this prefix (e.g. `abc0` for `abc`).
    ///
    /// Use this to partition a sorted slice, and test `matches(id)` from there.
    pub fn min_prefix_bytes(&self) -> (bytes: &[u8])
        requires
            self.wf(),
        ensures
            bytes@ == self.min_bytes(),
            hex_digits(bytes@) == if self@.len() % 2 == 0 {
                self@
            } else {
                self@.push(0)
            },
    {
        proof {
            let digits = hex_digits(self.min_prefix_bytes@);
            if self.has_odd_byte {
                assert(digits.last() == self.min_prefix_bytes@.last() % 16);
                assert(digits =~= self@.push(0));
            }
        }
        self.min_prefix_bytes.as_slice()
    }

    /// Whether the id starts with the prefix.
    pub fn matches(&self, id: &CommitId) -> (result: bool)
        requires
            self.wf(),
        ensures
            result == prefix_matches(self@, id@),
    {
        let bytes = id.as_bytes();
        let whole: usize = if self.has_odd_byte {
            self.min_prefix_bytes.len() - 1
        } else {
            self.min_prefix_bytes.len()
        };
        proof {
            self.lemma_matches(id@);
        }
        if bytes.len() < whole {
            return false;
        }
        let mut i: usize = 0;
        while i < whole
            invariant
                i <= whole,
                whole <= bytes@.len(),
                whole <= self.min_prefix_bytes@.len(),
                whole == self.whole_bytes(),
                bytes@ == id@,
                prefix_matches(self@, id@) == self.matches_bytes(id@),
                forall|k: int| 0 <= k < i ==> bytes@[k] == self.min_prefix_bytes@[k],
            decreases whole - i,
        {
            if bytes[i] != self.min_prefix_bytes[i] {
                return false;
            }
            i += 1;
        }
        if self.has_odd_byte {
            whole < bytes.len() && bytes[whole] / 16 == self.min_prefix_bytes[whole] / 16
        } else {
            true
        }
    }

    closed spec fn whole_bytes(&self) -> int {
        if self.has_odd_byte {
            self.min_prefix_bytes@.len() - 1
        } else {
            self.min_prefix_bytes@.len() as int
        }
    }

    /// `prefix_matches`, stated byte by byte.
    closed spec fn matches_bytes(&self, id: Seq<u8>) -> bool {
        let n = self.whole_bytes();
        &&& n <= id.len()
        &&& forall|k: int| 0 <= k < n ==> id[k] == #[trigger] self.min_prefix_bytes@[k]
        &&& self.has_odd_byte ==> n < id.len() && id[n] / 16 == self.min_prefix_bytes@[n] / 16
    }

    proof fn lemma_matches(&self, id: Seq<u8>)
        requires
            self.wf(),
        ensures
            prefix_matches(self@, id) == self.matches_bytes(id),
    {
        let n = self.whole_bytes();
        let min = self.min_prefix_bytes@;
        let digits = hex_digits(id);
        let wanted = self@;
        if prefix_matches(wanted, id) {
            assert forall|i: int| 0 <= i < wanted.len() implies digit_at(id, i) == digit_at(
                min,
                i,
            ) by {
                assert(digits.take(wanted.len() as int)[i] == wanted[i]);
            }
            assert forall|k: int| 0 <= k < n implies id[k] == #[trigger] min[k] by {
                assert(digit_at(id, 2 * k) == digit_at(min, 2 * k));
                assert(digit_at(id, 2 * k + 1) == digit_at(min, 2 * k + 1));
            }
            if self.has_odd_byte {
                assert(digit_at(id, 2 * n) == digit_at(min, 2 * n));
            }
        }
        if self.matches_bytes(id) {
            assert forall|i: int| 0 <= i < wanted.len() implies #[trigger] digits[i]
                == wanted[i] by {
                assert(wanted[i] == digit_at(min, i));
                assert(digits[i] == digit_at(id, i));
                if i < 2 * n {
                    assert(id[i / 2] == min[i / 2]);
                }
            }
            assert(digits.take(wanted.len() as int) =~= wanted);
        }
    }

    /// The ids that a prefix matches are not before its minimum bytes.
    pub proof fn lemma_min_bytes(&self, id: Seq<u8>)
        requires
            self.wf(),
            prefix_matches(self@, id),
        ensures
            lex_le(self.min_bytes(), id),
    {
        self.lemma_matches(id);
        lemma_min_from(self.min_prefix_bytes@, id, self.whole_bytes(), self.has_odd_byte);
    }

    /// Whatever lies between the minimum bytes of a prefix and an id that the
    /// prefix matches is matched too.
    pub proof fn lemma_matches_between(&self, a: Seq<u8>, id: Seq<u8>)
        requires
            self.wf(),
            prefix_matches(self@, id),
            lex_le(self.min_bytes(), a),
            lex_le(a, id),
        ensures
            prefix_matches(self@, a),
    {
        self.lemma_matches(id);
        self.lemma_matches(a);
        lemma_between(self.min_prefix_bytes@, a, id, self.whole_bytes(), self.has_odd_byte);
    }
}

proof fn lemma_min_from(min: Seq<u8>, id: Seq<u8>, n: int, odd: bool)
    requires
        0 <= n <= id.len(),
        min.len() == if odd { n + 1 } else { n },
        forall|k: int| 0 <= k < n ==> id[k] == #[trigger] min[k],
        odd ==> min[n] % 16 == 0 && n < id.len() && id[n] / 16 == min[n] / 16,
    ensures
        lex_le(min, id),
    decreases n,
{
    if n > 0 {
        let min1 = min.drop_first();
        let id1 = id.drop_first();
        assert(id[0] == min[0]);
        assert forall|k: int| 0 <= k < n - 1 implies id1[k] == #[trigger] min1[k] by {
            assert(min[k + 1] == id[k + 1]);
        }
        lemma_min_from(min1, id1, n - 1, odd);
        if min1 == id1 {
            assert(min =~= seq![min[0]] + min1);
            assert(id =~= seq![id[0]] + id1);
        }
    } else if odd {
        if min[0] == id[0] {
            if id.len() == 1 {
                assert(min =~= id);
            } else {
                assert(lex_lt(min.drop_first(), id.drop_first()));
            }
        }
    } else if id.len() == 0 {
        assert(min =~= id);
    }
}

proof fn lemma_between(min: Seq<u8>, a: Seq<u8>, id: Seq<u8>, n: int, odd: bool)
    requires
        0 <= n <= id.len(),
        min.len() == if odd { n + 1 } else { n },
        forall|k: int| 0 <= k < n ==> id[k] == #[trigger] min[k],
        odd ==> min[n] % 16 == 0 && n < id.len() && id[n] / 16 == min[n] / 16,
        lex_le(min, a),
        lex_le(a, id),
    ensures
        n <= a.len(),
        forall|k: int| 0 <= k < n ==> a[k] == #[trigger] min[k],
        odd ==> n < a.len() && a[n] / 16 == min[n] / 16,
    decreases n,
{
    if n > 0 {
        let min1 = min.drop_first();
        let a1 = a.drop_first();
        let id1 = id.drop_first();
        assert(id[0] == min[0]);
        assert(a.len() > 0 && a[0] == min[0]);
        assert forall|k: int| 0 <= k < n - 1 implies id1[k] == #[trigger] min1[k] by {
            assert(min[k + 1] == id[k + 1]);
        }
        lemma_between(min1, a1, id1, n - 1, odd);
        assert forall|k: int| 0 <= k < n implies a[k] == #[trigger] min[k] by {
            if k > 0 {
                assert(a1[k - 1] == min1[k - 1]);
            }
        }
        if odd {
            assert(a1[n - 1] == a[n]);
            assert(min1[n - 1] == min[n]);
        }
    }
}

/// The nearer two ids are in order, the more digits they have in common.
pub proof fn lemma_common_between(x: Seq<u8>, y: Seq<u8>, z: Seq<u8>)
    requires
        lex_le(x, y),
        lex_le(y, z),
    ensures
        common_len(hex_digits(x), hex_digits(z)) <= common_len(hex_digits(y), hex_digits(z)),
        common_len(hex_digits(x), hex_digits(z)) <= common_len(hex_digits(x), hex_digits(y)),
{
    let (dx, dy, dz) = (hex_digits(x), hex_digits(y), hex_digits(z));
    let n = common_len(dx, dz) as int;
    lemma_common_len(dx, dz);
    let w = n / 2;
    let odd = n % 2 == 1;
    let min = if odd {
        z.take(w).push((z[w] / 16 * 16) as u8)
    } else {
        z.take(w)
    };
    assert forall|k: int| 0 <= k < w implies x[k] == #[trigger] min[k] && z[k] == min[k] by {
        assert(dx[2 * k] == dz[2 * k] && dx[2 * k + 1] == dz[2 * k + 1]);
        assert(digit_at(x, 2 * k) == digit_at(z, 2 * k));
        assert(digit_at(x, 2 * k + 1) == digit_at(z, 2 * k + 1));
    }
    if odd {
        assert(dx[n - 1] == dz[n - 1]);
        assert(digit_at(x, n - 1) == digit_at(z, n - 1));
    }
    lemma_min_from(min, x, w, odd);
    if min != x && x != y {
        lex_lt_transitive(min, x, y);
    }
    lemma_between(min, y, z, w, odd);
    assert forall|i: int| 0 <= i < n implies #[trigger] dy[i] == dz[i] && dy[i] == dx[i] by {
        assert(dx[i] == dz[i]);
        assert(dy[i] == digit_at(y, i));
        assert(dz[i] == digit_at(z, i));
        if i / 2 < w {
            assert(y[i / 2] == min[i / 2]);
        }
    }
    lemma_common_len(dy, dz);
    lemma_common_len(dx, dy);
    let c = common_len(dy, dz) as int;
    let d = common_len(dx, dy) as int;
    if c < n {
        assert(dy[c] == dz[c]);
    }
    if d < n {
        assert(dy[d] == dx[d]);
    }
}

/// What a prefix of an id stands for.
#[derive(Debug)]
pub enum PrefixResolution {
    NoMatch,
    SingleMatch(CommitId),
    AmbiguousMatch,
}

/// The meaning of a `PrefixResolution`, with the id by its bytes.
pub enum Resolution {
    NoMatch,
    SingleMatch(Seq<u8>),
    AmbiguousMatch,
}

impl View for PrefixResolution {
    type V = Resolution;

    open spec fn view(&self) -> Resolution {
        match *self {
            PrefixResolution::NoMatch => Resolution::NoMatch,
            PrefixResolution::SingleMatch(id) => Resolution::SingleMatch(id@),
            PrefixResolution::AmbiguousMatch => Resolution::AmbiguousMatch,
        }
    }
}

impl Clone for PrefixResolution {
    fn clone(&self) -> (result: Self)
        ensures
            result@ == self@,
    {
        match self {
            PrefixResolution::NoMatch => PrefixResolution::NoMatch,
            PrefixResolution::SingleMatch(id) => PrefixResolution::SingleMatch(id.clone()),
            PrefixResolution::AmbiguousMatch => PrefixResolution::AmbiguousMatch,
        }
    }
}

impl PartialEq for PrefixResolution {
    fn eq(&self, other: &Self) -> (result: bool) {
        match (self, other) {
            (PrefixResolution::NoMatch, PrefixResolution::NoMatch) => true,
            (PrefixResolution::SingleMatch(a), PrefixResolution::SingleMatch(b)) => a == b,
            (PrefixResolution::AmbiguousMatch, PrefixResolution::AmbiguousMatch) => true,
            _ => false,
        }
    }
}

impl vstd::std_specs::cmp::PartialEqSpecImpl for PrefixResolution {
    open spec fn obeys_eq_spec() -> bool {
        true
    }

    open spec fn eq_spec(&self, other: &Self) -> bool {
        self@ == other@
    }
}

impl Resolution {
    /// The resolution over two disjoint sets of ids, from that over each.
    pub open spec fn plus(self, other: Resolution) -> Resolution {
        match (self, other) {
            (Resolution::NoMatch, _) => other,
            (_, Resolution::NoMatch) => self,
            _ => Resolution::AmbiguousMatch,
        }
    }
}

impl PrefixResolution {
    /// Combines the resolutions over two disjoint sets of ids.
    pub fn plus(&self, other: &PrefixResolution) -> (result: PrefixResolution)
        ensures
            result@ == self@.plus(other@),
    {
        match (self, other) {
            (PrefixResolution::NoMatch, _) => other.clone(),
            (_, PrefixResolution::NoMatch) => self.clone(),
            _ => PrefixResolution::AmbiguousMatch,
        }
    }
}

/// Whether `r` says how many of the ids a prefix matches, and which if it is
/// one.
pub open spec fn resolves(ids: Set<Seq<u8>>, prefix: Seq<u8>, r: Resolution) -> bool {
    match r {
        Resolution::NoMatch => forall|id: Seq<u8>| #[trigger]
            ids.contains(id) ==> !prefix_matches(prefix, id),
        Resolution::SingleMatch(one) => {
            &&& ids.contains(one)
            &&& prefix_matches(prefix, one)
            &&& forall|id: Seq<u8>| #[trigger]
                ids.contains(id) && prefix_matches(prefix, id) ==> id == one
        },
        Resolution::AmbiguousMatch => exists|a: Seq<u8>, b: Seq<u8>|
            #![trigger ids.contains(a), ids.contains(b)]
            {
                &&& a != b
                &&& ids.contains(a)
                &&& ids.contains(b)
                &&& prefix_matches(prefix, a)
                &&& prefix_matches(prefix, b)
            },
    }
}

/// The ids as byte strings.
pub open spec fn id_bytes(ids: Seq<CommitId>) -> Seq<Seq<u8>> {
    ids.map_values(|id: CommitId| id@)
}

/// What an index has to know of a commit to add it.
pub struct Commit {
    pub id: CommitId,
    pub change_id: ChangeId,
    pub parent_ids: Vec<CommitId>,
}

/// The resolution over two disjoint sets of ids is made of those over each.
pub proof fn lemma_resolves_plus(
    a: Set<Seq<u8>>,
    b: Set<Seq<u8>>,
    prefix: Seq<u8>,
    r: Resolution,
    s: Resolution,
)
    requires
        resolves(a, prefix, r),
        resolves(b, prefix, s),
        forall|id: Seq<u8>| #[trigger] a.contains(id) ==> !b.contains(id),
    ensures
        resolves(a.union(b), prefix, r.plus(s)),
{
    let all = a.union(b);
    assert forall|id: Seq<u8>| a.contains(id) || b.contains(id) implies #[trigger] all.contains(
        id,
    ) by {}
    match (r, s) {
        (Resolution::NoMatch, Resolution::AmbiguousMatch) => {
            let (x, y) = choose|x: Seq<u8>, y: Seq<u8>|
                #![trigger b.contains(x), b.contains(y)]
                x != y && b.contains(x) && b.contains(y) && prefix_matches(prefix, x)
                    && prefix_matches(prefix, y);
            assert(all.contains(x) && all.contains(y));
        },
        (Resolution::AmbiguousMatch, _) => {
            let (x, y) = choose|x: Seq<u8>, y: Seq<u8>|
                #![trigger a.contains(x), a.contains(y)]
                x != y && a.contains(x) && a.contains(y) && prefix_matches(prefix, x)
                    && prefix_matches(prefix, y);
            assert(all.contains(x) && all.contains(y));
        },
        (Resolution::SingleMatch(one), Resolution::SingleMatch(other)) => {
            assert(all.contains(one) && all.contains(other));
        },
        (Resolution::SingleMatch(one), Resolution::AmbiguousMatch) => {
            let (x, y) = choose|x: Seq<u8>, y: Seq<u8>|
                #![trigger b.contains(x), b.contains(y)]
                x != y && b.contains(x) && b.contains(y) && prefix_matches(prefix, x)
                    && prefix_matches(prefix, y);
            assert(all.contains(x) && all.contains(y));
        },
        _ => {},
    }
}

} // verus!
