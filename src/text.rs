//! Turning bytes into text.

use vstd::prelude::*;
use vstd::utf8::{decode_utf8, valid_utf8};

verus! {

/// Relies on `String::from_utf8`: it accepts exactly the valid UTF-8 byte
/// strings, and the text holds the characters that the bytes encode.
#[verifier::external_body]
pub(crate) fn utf8_string(b: Vec<u8>) -> (r: Option<String>)
    ensures
        r is Some <==> valid_utf8(b@),
        r matches Some(s) ==> s@ == decode_utf8(b@),
{
    String::from_utf8(b).ok()
}

} // verus!

verus! {

/// Text whose bytes are the given ASCII bytes.
pub fn ascii_string(b: Vec<u8>) -> (r: String)
    requires
        forall|i: int| 0 <= i < b@.len() ==> b@[i] < 128,
    ensures
        vstd::utf8::encode_utf8(r@) == b@,
{
    let ghost bytes = b@;
    proof {
        assert forall|i: int| 0 <= 0 <= i < bytes.len() <= bytes.len() implies #[trigger] vstd::utf8::is_leading_byte_width_1(
            bytes[i],
        ) by {
            assert(bytes[i] < 128);
        }
        assert(bytes.subrange(0, 0) =~= Seq::<u8>::empty());
        vstd::utf8::partial_valid_utf8_extend_ascii_block(bytes, 0, bytes.len() as int);
        assert(bytes.subrange(0, bytes.len() as int) =~= bytes);
        vstd::utf8::decode_utf8_encode_utf8(bytes);
    }
    match utf8_string(b) {
        Some(s) => s,
        None => String::new(),
    }
}

/// The characters of `s`, in order.
pub fn chars_of(s: &str) -> (r: Vec<char>)
    ensures
        r@ == s@,
{
    let n = s.unicode_len();
    let mut r: Vec<char> = Vec::new();
    let mut i: usize = 0;
    while i < n
        invariant
            n == s@.len(),
            i <= n,
            r@ == s@.subrange(0, i as int),
        decreases n - i,
    {
        r.push(s.get_char(i));
        i = i + 1;
        assert(r@ =~= s@.subrange(0, i as int));
    }
    assert(r@ =~= s@);
    r
}

/// `a`, a slash, and `b`.
pub fn join(a: &str, b: &str) -> (r: String)
    ensures
        r@ == a@ + seq!['/'] + b@,
{
    proof {
        reveal_strlit("/");
        assert("/"@ =~= seq!['/']);
    }
    a.to_owned().concat("/").concat(b)
}

/// The text of `s` without the whitespace at its end.
pub fn trim_end(s: &str) -> (r: String)
    ensures
        r@ == trimmed_end(s@),
{
    let c = chars_of(s);
    let mut n: usize = c.len();
    assert(s@.subrange(0, n as int) =~= s@);
    while n > 0 && is_space(c[n - 1])
        invariant
            n <= c@.len(),
            c@ == s@,
            trimmed_end(s@) == trimmed_end(s@.subrange(0, n as int)),
        decreases n,
    {
        proof {
            let p = s@.subrange(0, n as int);
            assert(p.drop_last() =~= s@.subrange(0, n - 1));
        }
        n = n - 1;
    }
    proof {
        let p = s@.subrange(0, n as int);
        if n > 0 {
            assert(p.last() == c@[n - 1]);
        }
    }
    s.substring_char(0, n).to_owned()
}

/// Whitespace: space, tab, line feed, vertical tab, form feed, carriage
/// return.
pub open spec fn space_char(c: char) -> bool {
    c == ' ' || c == '\t' || c == '\n' || c == '\x0b' || c == '\x0c' || c == '\r'
}

fn is_space(c: char) -> (r: bool)
    ensures
        r == space_char(c),
{
    c == ' ' || c == '\t' || c == '\n' || c == '\x0b' || c == '\x0c' || c == '\r'
}

/// `s` without the whitespace at its end.
pub open spec fn trimmed_end(s: Seq<char>) -> Seq<char>
    decreases s.len(),
{
    if s.len() > 0 && space_char(s.last()) {
        trimmed_end(s.drop_last())
    } else {
        s
    }
}

} // verus!
