//! Hexadecimal text: byte strings seen as strings of four-bit digits.

use vstd::prelude::*;
use vstd::utf8::{encode_utf8, is_ascii_chars_encode_utf8};

verus! {

/// The hexadecimal digit at place `i` of a byte string, the high half of each
/// byte before the low half.
pub open spec fn digit_at(bytes: Seq<u8>, i: int) -> u8 {
    if i % 2 == 0 {
        bytes[i / 2] / 16
    } else {
        bytes[i / 2] % 16
    }
}

/// The hexadecimal digits of a byte string.
pub open spec fn hex_digits(bytes: Seq<u8>) -> Seq<u8> {
    Seq::new(2 * bytes.len(), |i: int| digit_at(bytes, i))
}

/// The lower-case character for a hexadecimal digit.
pub open spec fn digit_char(digit: u8) -> char {
    if digit < 10 {
        (48 + digit) as char
    } else {
        (87 + digit) as char
    }
}

/// The lower-case hexadecimal text of a byte string.
pub open spec fn hex_text(bytes: Seq<u8>) -> Seq<char> {
    hex_digits(bytes).map_values(|digit: u8| digit_char(digit))
}

/// Whether an ASCII byte is a hexadecimal digit, of either case.
pub open spec fn is_hex_byte(c: u8) -> bool {
    48 <= c <= 57 || 65 <= c <= 70 || 97 <= c <= 102
}

/// The value of a hexadecimal digit, of either case.
pub open spec fn hex_value(c: u8) -> u8 {
    if c <= 57 {
        (c - 48) as u8
    } else if c <= 70 {
        (c - 55) as u8
    } else {
        (c - 87) as u8
    }
}

/// Whether every byte of a text is a hexadecimal digit.
pub open spec fn all_hex(text: Seq<u8>) -> bool {
    forall|i: int| 0 <= i < text.len() ==> is_hex_byte(#[trigger] text[i])
}

/// The digits that a hexadecimal text spells.
pub open spec fn text_digits(text: Seq<u8>) -> Seq<u8> {
    text.map_values(|c: u8| hex_value(c))
}

/// The bytes whose digits are `digits`, for an even number of digits.
pub open spec fn digits_to_bytes(digits: Seq<u8>) -> Seq<u8> {
    Seq::new(digits.len() / 2, |i: int| (16 * digits[2 * i] + digits[2 * i + 1]) as u8)
}

/// Calls `hex::encode`, which writes two lower-case hexadecimal characters for
/// each byte, the high half first.
#[verifier::external_body]
pub(crate) fn hex_encode(bytes: &[u8]) -> (text: String)
    ensures
        text@ == hex_text(bytes@),
{
    hex::encode(bytes)
}

/// Calls `hex::decode`, which accepts a text of an even number of hexadecimal
/// digits, of either case, and nothing else, and packs each two digits into a
/// byte, the first digit into the high half.
#[verifier::external_body]
pub(crate) fn hex_decode(text: &[u8]) -> (result: Option<Vec<u8>>)
    ensures
        match result {
            Some(bytes) => text@.len() % 2 == 0 && all_hex(text@) && bytes@ == digits_to_bytes(
                text_digits(text@),
            ),
            None => text@.len() % 2 != 0 || !all_hex(text@),
        },
{
    hex::decode(text).ok()
}

/// Packing digits into bytes keeps the digits.
pub proof fn lemma_digits_to_bytes(digits: Seq<u8>)
    requires
        digits.len() % 2 == 0,
        forall|i: int| 0 <= i < digits.len() ==> #[trigger] digits[i] < 16,
    ensures
        hex_digits(digits_to_bytes(digits)) == digits,
{
    let bytes = digits_to_bytes(digits);
    assert forall|i: int| 0 <= i < digits.len() implies digit_at(bytes, i) == digits[i] by {
        let h = i / 2;
        assert(bytes[h] == 16 * digits[2 * h] + digits[2 * h + 1]);
    }
    assert(hex_digits(bytes) =~= digits);
}

/// Whether a digit string starts with another one.
pub open spec fn starts_with(digits: Seq<u8>, prefix: Seq<u8>) -> bool {
    prefix.len() <= digits.len() && digits.take(prefix.len() as int) == prefix
}

/// The length of the longest digit string that both arguments start with.
pub open spec fn common_len(a: Seq<u8>, b: Seq<u8>) -> nat
    decreases a.len(),
{
    if a.len() == 0 || b.len() == 0 || a[0] != b[0] {
        0
    } else {
        1 + common_len(a.drop_first(), b.drop_first())
    }
}

/// What `common_len` is, place by place.
pub proof fn lemma_common_len(a: Seq<u8>, b: Seq<u8>)
    ensures
        common_len(a, b) <= a.len(),
        common_len(a, b) <= b.len(),
        forall|i: int| 0 <= i < common_len(a, b) ==> #[trigger] a[i] == b[i],
        common_len(a, b) < a.len() && common_len(a, b) < b.len() ==> a[common_len(a, b) as int]
            != b[common_len(a, b) as int],
    decreases a.len(),
{
    if a.len() > 0 && b.len() > 0 && a[0] == b[0] {
        let a1 = a.drop_first();
        let b1 = b.drop_first();
        lemma_common_len(a1, b1);
        assert forall|i: int| 0 <= i < common_len(a, b) implies #[trigger] a[i] == b[i] by {
            if i > 0 {
                assert(a1[i - 1] == b1[i - 1]);
            }
        }
        if common_len(a, b) < a.len() && common_len(a, b) < b.len() {
            assert(a1[common_len(a1, b1) as int] == a[common_len(a, b) as int]);
            assert(b1[common_len(a1, b1) as int] == b[common_len(a, b) as int]);
        }
    }
}

/// `common_len` is the length at which two strings stop agreeing.
pub proof fn lemma_common_len_is(a: Seq<u8>, b: Seq<u8>, n: nat)
    requires
        n <= a.len(),
        n <= b.len(),
        forall|i: int| 0 <= i < n ==> #[trigger] a[i] == b[i],
        n == a.len() || n == b.len() || a[n as int] != b[n as int],
    ensures
        common_len(a, b) == n,
{
    lemma_common_len(a, b);
    let c = common_len(a, b);
    if c < n {
        assert(a[c as int] == b[c as int]);
    }
    if n < c {
        assert(a[n as int] == b[n as int]);
    }
}

/// `common_len` does not depend on the order of its arguments.
pub proof fn lemma_common_symmetric(a: Seq<u8>, b: Seq<u8>)
    ensures
        common_len(a, b) == common_len(b, a),
    decreases a.len(),
{
    if a.len() > 0 && b.len() > 0 && a[0] == b[0] {
        lemma_common_symmetric(a.drop_first(), b.drop_first());
    }
}

/// Calculates the common prefix length of two byte strings, as a number of
/// hexadecimal digits.
pub fn common_hex_len(a: &[u8], b: &[u8]) -> (result: usize)
    requires
        2 * a@.len() <= usize::MAX,
    ensures
        result == common_len(hex_digits(a@), hex_digits(b@)),
{
    let mut i: usize = 0;
    while i < a.len() && i < b.len() && a[i] == b[i]
        invariant
            i <= a.len(),
            i <= b.len(),
            forall|k: int| 0 <= k < i ==> a@[k] == b@[k],
        decreases a.len() - i,
    {
        i += 1;
    }
    let ghost da = hex_digits(a@);
    let ghost db = hex_digits(b@);
    let result: usize = if i < a.len() && i < b.len() && a[i] / 16 == b[i] / 16 {
        2 * i + 1
    } else {
        2 * i
    };
    proof {
        assert forall|k: int| 0 <= k < result implies #[trigger] da[k] == db[k] by {
            assert(da[k] == digit_at(a@, k));
            assert(db[k] == digit_at(b@, k));
            if k < 2 * i {
                assert(a@[k / 2] == b@[k / 2]);
            }
        }
        if result < da.len() && result < db.len() {
            assert(da[result as int] == digit_at(a@, result as int));
            assert(db[result as int] == digit_at(b@, result as int));
        }
        lemma_common_len_is(da, db, result as nat);
    }
    result
}

/// Hexadecimal text takes two bytes in UTF-8 for each byte.
pub proof fn lemma_hex_text(bytes: Seq<u8>)
    ensures
        encode_utf8(hex_text(bytes)).len() == 2 * bytes.len(),
{
    let text = hex_text(bytes);
    assert forall|i: int| 0 <= i < text.len() implies '\0' <= #[trigger] text[i] <= '\u{7f}' by {
        assert(digit_at(bytes, i) < 16);
        assert(text[i] == digit_char(digit_at(bytes, i)));
    }
    is_ascii_chars_encode_utf8(text);
}

} // verus!
