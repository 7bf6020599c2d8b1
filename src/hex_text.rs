//! Lowercase hexadecimal text for byte strings, through the `hex` crate.
use vstd::prelude::*;

verus! {

/// The sixteen lowercase hexadecimal digits, in order.
pub open spec fn hex_digits() -> Seq<char> {
    seq!['0', '1', '2', '3', '4', '5', '6', '7', '8', '9', 'a', 'b', 'c', 'd', 'e', 'f']
}

/// The lowercase digit of a nibble.
pub open spec fn nibble_char(n: int) -> char
    recommends
        0 <= n < 16,
{
    hex_digits()[n]
}

/// The value of a hexadecimal digit, upper or lower case.
pub open spec fn hex_value(c: char) -> Option<int> {
    let v = c as u32;
    if 48 <= v <= 57 {
        Some(v - 48)
    } else if 97 <= v <= 102 {
        Some(v - 87)
    } else if 65 <= v <= 70 {
        Some(v - 55)
    } else {
        None
    }
}

/// Lowercase hex text of a byte string: two digits per byte, high nibble first.
pub open spec fn hex_encode(b: Seq<u8>) -> Seq<char>
    decreases b.len(),
{
    if b.len() == 0 {
        Seq::empty()
    } else {
        let x = b.last();
        hex_encode(b.drop_last()) + seq![nibble_char(x as int / 16), nibble_char(x as int % 16)]
    }
}

/// The bytes that hex text stands for: `None` unless its length is even and
/// every character is a hexadecimal digit (either case).
pub open spec fn hex_decode(s: Seq<char>) -> Option<Seq<u8>>
    decreases s.len(),
{
    if s.len() == 0 {
        Some(Seq::empty())
    } else if s.len() == 1 {
        None
    } else {
        match (hex_decode(s.subrange(0, s.len() - 2)), hex_value(s[s.len() - 2]), hex_value(s[s.len() - 1])) {
            (Some(front), Some(hi), Some(lo)) => Some(front.push((hi * 16 + lo) as u8)),
            _ => None,
        }
    }
}

proof fn lemma_nibble_value(n: int)
    requires
        0 <= n < 16,
    ensures
        hex_value(nibble_char(n)) == Some(n),
        is_lower_hex_digit(nibble_char(n)),
{
    assert(hex_digits()[n] == nibble_char(n));
}

/// Decoding the hex text of a byte string gives back those bytes.
pub proof fn lemma_hex_round_trip(b: Seq<u8>)
    ensures
        hex_decode(hex_encode(b)) == Some(b),
    decreases b.len(),
{
    if b.len() > 0 {
        let x = b.last();
        let front = hex_encode(b.drop_last());
        let s = hex_encode(b);
        lemma_hex_round_trip(b.drop_last());
        lemma_nibble_value(x as int / 16);
        lemma_nibble_value(x as int % 16);
        assert(s.subrange(0, s.len() - 2) =~= front);
        assert(b.drop_last().push(x) =~= b);
    }
}

/// A lowercase hexadecimal digit: '0' to '9' or 'a' to 'f'.
pub open spec fn is_lower_hex_digit(c: char) -> bool {
    let v = c as u32;
    (48 <= v <= 57) || (97 <= v <= 102)
}

/// Text made of lowercase hexadecimal digits only.
pub open spec fn is_lower_hex(s: Seq<char>) -> bool {
    forall|j: int| 0 <= j < s.len() ==> is_lower_hex_digit(#[trigger] s[j])
}

/// Hex text of a byte string is lowercase, two characters per byte.
pub proof fn lemma_hex_encode_shape(b: Seq<u8>)
    ensures
        is_lower_hex(hex_encode(b)),
        hex_encode(b).len() == 2 * b.len(),
    decreases b.len(),
{
    if b.len() > 0 {
        lemma_hex_encode_shape(b.drop_last());
        let x = b.last();
        lemma_nibble_value(x as int / 16);
        lemma_nibble_value(x as int % 16);
        let h = hex_encode(b);
        let front = hex_encode(b.drop_last());
        assert forall|j: int| 0 <= j < h.len() implies is_lower_hex_digit(#[trigger] h[j]) by {
            if j < front.len() {
                assert(h[j] == front[j]);
            }
        }
    }
}

/// Whether text is made of lowercase hexadecimal digits only.
pub fn is_lowercase_hex(s: &str) -> (r: bool)
    ensures
        r == is_lower_hex(s@),
{
    let mut ok = true;
    for c in it: s.chars()
        invariant
            it.seq() == s@,
            ok == forall|j: int| 0 <= j < it.index() ==> is_lower_hex_digit(#[trigger] s@[j]),
    {
        let v = c as u32;
        let digit = (48 <= v && v <= 57) || (97 <= v && v <= 102);
        proof {
            assert(it.seq()[it.index() as int] == c);
        }
        ok = ok && digit;
    }
    ok
}

#[verifier::external_type_specification]
#[verifier::external_body]
pub struct ExFromHexError(hex::FromHexError);

/// Relies on `hex::encode`: each byte becomes its two lowercase hex digits,
/// high nibble first.
#[verifier::external_body]
pub(crate) fn to_hex(b: &[u8]) -> (r: String)
    ensures
        r@ == hex_encode(b@),
{
    hex::encode(b)
}

/// Relies on `hex::decode`: odd length or a character that is not a hex
/// digit is an error; otherwise each pair of digits gives one byte.
#[verifier::external_body]
pub(crate) fn from_hex(s: &str) -> (r: Result<Vec<u8>, hex::FromHexError>)
    ensures
        r is Ok <==> hex_decode(s@) is Some,
        r is Ok ==> r->Ok_0@ == hex_decode(s@)->0,
{
    hex::decode(s)
}

} // verus!
