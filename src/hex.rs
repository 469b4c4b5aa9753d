//! Lowercase hexadecimal rendering of object identifiers.

use vstd::prelude::*;

verus! {

/// The lowercase ASCII digit for a value below sixteen.
pub open spec fn hex_digit(v: int) -> u8 {
    if v < 10 {
        (48 + v) as u8
    } else {
        (87 + v) as u8
    }
}

/// Two lowercase digits for each byte, the high nibble first.
pub open spec fn hex_of(b: Seq<u8>) -> Seq<u8> {
    Seq::new(
        2 * b.len(),
        |i: int|
            if i % 2 == 0 {
                hex_digit(b[i / 2] as int / 16)
            } else {
                hex_digit(b[i / 2] as int % 16)
            },
    )
}

/// The value of one hexadecimal digit, upper or lower case.
pub open spec fn digit_value(c: u8) -> Option<u8> {
    if 48 <= c <= 57 {
        Some((c - 48) as u8)
    } else if 97 <= c <= 102 {
        Some((c - 87) as u8)
    } else if 65 <= c <= 70 {
        Some((c - 55) as u8)
    } else {
        None
    }
}

/// Whether `s` is an even number of hexadecimal digits.
pub open spec fn is_hex(s: Seq<u8>) -> bool {
    &&& s.len() % 2 == 0
    &&& forall|i: int| 0 <= i < s.len() ==> (#[trigger] digit_value(s[i])).is_some()
}

/// The bytes that the digit pairs of `s` spell.
pub open spec fn bytes_of_hex(s: Seq<u8>) -> Seq<u8> {
    Seq::new(
        s.len() / 2,
        |i: int|
            (digit_value(s[2 * i]).unwrap() * 16 + digit_value(s[2 * i + 1]).unwrap()) as u8,
    )
}

fn digit_char(v: u8) -> (r: u8)
    requires
        v < 16,
    ensures
        r == hex_digit(v as int),
{
    if v < 10 {
        48 + v
    } else {
        87 + v
    }
}

fn digit_of(c: u8) -> (r: Option<u8>)
    ensures
        r == digit_value(c),
        r matches Some(v) ==> v < 16,
{
    if 48 <= c && c <= 57 {
        Some(c - 48)
    } else if 97 <= c && c <= 102 {
        Some(c - 87)
    } else if 65 <= c && c <= 70 {
        Some(c - 55)
    } else {
        None
    }
}

/// Renders `b` as lowercase hexadecimal digits.
pub fn to_hex(b: &[u8]) -> (r: Vec<u8>)
    requires
        b@.len() <= usize::MAX / 2,
    ensures
        r@ == hex_of(b@),
{
    let mut r: Vec<u8> = Vec::new();
    let mut i: usize = 0;
    while i < b.len()
        invariant
            i <= b@.len() <= usize::MAX / 2,
            r@.len() == 2 * i,
            forall|k: int| 0 <= k < 2 * i ==> r@[k] == #[trigger] hex_of(b@)[k],
        decreases b@.len() - i,
    {
        let v = b[i];
        r.push(digit_char(v / 16));
        r.push(digit_char(v % 16));
        proof {
            assert forall|k: int| 0 <= k < 2 * i + 2 implies r@[k] == #[trigger] hex_of(b@)[k] by {
                if k >= 2 * i {
                    assert(k / 2 == i as int);
                }
            }
        }
        i = i + 1;
    }
    assert(r@ =~= hex_of(b@));
    r
}

/// Reads the bytes that a string of hexadecimal digit pairs spells; `None`
/// when `s` has odd length or holds a character that is no digit.
pub fn from_hex(s: &[u8]) -> (r: Option<Vec<u8>>)
    ensures
        r is Some <==> is_hex(s@),
        r matches Some(v) ==> v@ == bytes_of_hex(s@),
{
    if s.len() % 2 != 0 {
        return None;
    }
    let mut r: Vec<u8> = Vec::new();
    let mut i: usize = 0;
    while i < s.len() / 2
        invariant
            s@.len() % 2 == 0,
            i <= s@.len() / 2,
            r@.len() == i,
            forall|k: int| 0 <= k < 2 * i ==> (#[trigger] digit_value(s@[k])).is_some(),
            forall|k: int| 0 <= k < i ==> r@[k] == #[trigger] bytes_of_hex(s@)[k],
        decreases s@.len() / 2 - i,
    {
        let hi = digit_of(s[2 * i]);
        let lo = digit_of(s[2 * i + 1]);
        match (hi, lo) {
            (Some(h), Some(l)) => {
                r.push(h * 16 + l);
            },
            _ => {
                assert(!is_hex(s@)) by {
                    if hi is None {
                        assert(digit_value(s@[2 * i as int]) is None);
                    } else {
                        assert(digit_value(s@[2 * i + 1]) is None);
                    }
                }
                return None;
            },
        }
        proof {
            assert forall|k: int| 0 <= k < 2 * i + 2 implies (#[trigger] digit_value(
                s@[k],
            )).is_some() by {
                if k >= 2 * i {
                }
            }
        }
        i = i + 1;
    }
    assert(r@ =~= bytes_of_hex(s@));
    Some(r)
}

} // verus!
