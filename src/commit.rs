//! Commit objects and the identity line of their author.

use vstd::prelude::*;
use vstd::string::StringSliceAdditionalSpecFns;
use vstd::utf8::encode_utf8;

use crate::encode::{decimal_of, push_decimal};
use crate::error::Error;
use crate::object::{Object, ObjectType};
use crate::text::chars_of;

verus! {

/// The decimal numeral of a signed value, with `-` before a negative one.
pub open spec fn signed_decimal(v: int) -> Seq<u8> {
    if v < 0 {
        seq![45u8] + decimal_of((-v) as nat)
    } else {
        decimal_of(v as nat)
    }
}

/// At least two decimal digits.
pub open spec fn two_digits(n: nat) -> Seq<u8> {
    if n < 10 {
        seq![48u8] + decimal_of(n)
    } else {
        decimal_of(n)
    }
}

/// A UTC offset in seconds as `+hhmm` or `-hhmm`.
pub open spec fn offset_text(seconds: int) -> Seq<u8> {
    let a = if seconds < 0 {
        -seconds
    } else {
        seconds
    };
    (if seconds < 0 {
        seq![45u8]
    } else {
        seq![43u8]
    }) + two_digits((a / 3600) as nat) + two_digits((a % 3600 / 60) as nat)
}

/// `name <email> seconds ±hhmm`.
pub open spec fn ident_bytes(name: Seq<u8>, email: Seq<u8>, seconds: int, offset: int) -> Seq<u8> {
    name + seq![32u8, 60u8] + email + seq![62u8, 32u8] + signed_decimal(seconds) + seq![32u8]
        + offset_text(offset)
}

/// The text of a commit: `tree`, `parent` when there is one, `author`
/// and `committer` lines, a blank line and the message.
pub open spec fn commit_text(
    tree: Seq<u8>,
    parent: Option<Seq<u8>>,
    ident: Seq<u8>,
    message: Seq<u8>,
) -> Seq<u8> {
    seq![116u8, 114u8, 101u8, 101u8, 32u8] + tree + seq![10u8] + match parent {
        Some(p) => seq![112u8, 97u8, 114u8, 101u8, 110u8, 116u8, 32u8] + p + seq![10u8],
        None => seq![],
    } + seq![97u8, 117u8, 116u8, 104u8, 111u8, 114u8, 32u8] + ident + seq![10u8] + seq![
        99u8,
        111u8,
        109u8,
        109u8,
        105u8,
        116u8,
        116u8,
        101u8,
        114u8,
        32u8,
    ] + ident + seq![10u8, 10u8] + message
}

/// The first line of a message, without a carriage return that ends it;
/// none for an empty message.
pub open spec fn first_line_of(m: Seq<char>) -> Option<Seq<char>> {
    if m.len() == 0 {
        None
    } else {
        let end = if exists|k: int| 0 <= k < m.len() && m[k] == '\n' {
            choose|k: int| 0 <= k < m.len() && m[k] == '\n' && forall|j: int| 0 <= j < k ==> m[j] != '\n'
        } else {
            m.len() as int
        };
        let line = m.subrange(0, end);
        if line.len() > 0 && line.last() == '\r' {
            Some(line.drop_last())
        } else {
            Some(line)
        }
    }
}

fn push_all(out: &mut Vec<u8>, b: &[u8])
    ensures
        final(out)@ == old(out)@ + b@,
{
    out.extend_from_slice(b);
    assert(final(out)@ =~= old(out)@ + b@);
}

pub struct Author {
    name: String,
    email: String,
    timestamp: i64,
    offset: i32,
}

impl Author {
    /// The author `name <email>` at `timestamp` (seconds since the epoch)
    /// in a zone `offset` seconds east of UTC.
    pub fn new(name: &str, email: &str, timestamp: i64, offset: i32) -> (r: Author)
        ensures
            r.ident() == ident_bytes(name.spec_bytes(), email.spec_bytes(), timestamp as int, offset as int),
    {
        Author { name: name.to_owned(), email: email.to_owned(), timestamp, offset }
    }

    /// The identity line's bytes.
    pub closed spec fn ident(&self) -> Seq<u8> {
        ident_bytes(
            encode_utf8(self.name@),
            encode_utf8(self.email@),
            self.timestamp as int,
            self.offset as int,
        )
    }

    /// `name <email> seconds ±hhmm`.
    pub fn to_bytes(&self) -> (r: Vec<u8>)
        ensures
            r@ == self.ident(),
    {
        let mut out: Vec<u8> = Vec::new();
        push_all(&mut out, self.name.as_str().as_bytes());
        out.push(32);
        out.push(60);
        push_all(&mut out, self.email.as_str().as_bytes());
        out.push(62);
        out.push(32);
        let ghost before = out@;
        if self.timestamp < 0 {
            out.push(45);
            let magnitude: u64 = (0i128 - self.timestamp as i128) as u64;
            push_decimal(&mut out, magnitude);
        } else {
            push_decimal(&mut out, self.timestamp as u64);
        }
        assert(out@ =~= before + signed_decimal(self.timestamp as int));
        out.push(32);
        let ghost before2 = out@;
        let seconds: i64 = self.offset as i64;
        let a: u64 = if seconds < 0 {
            (0 - seconds) as u64
        } else {
            seconds as u64
        };
        if seconds < 0 {
            out.push(45);
        } else {
            out.push(43);
        }
        push_two_digits(&mut out, a / 3600);
        push_two_digits(&mut out, a % 3600 / 60);
        assert(out@ =~= before2 + offset_text(self.offset as int));
        assert(out@ =~= self.ident());
        out
    }
}

fn push_two_digits(out: &mut Vec<u8>, n: u64)
    ensures
        final(out)@ == old(out)@ + two_digits(n as nat),
{
    if n < 10 {
        out.push(48);
    }
    push_decimal(out, n);
    assert(final(out)@ =~= old(out)@ + two_digits(n as nat));
}

pub struct Commit {
    parent: Option<String>,
    tree: String,
    author: Author,
    message: String,
}

impl Commit {
    /// A commit of the tree `tree` (hexadecimal id) after `parent`, by
    /// `author`, with `message`.
    pub fn new(parent: Option<String>, tree: String, author: Author, message: String) -> (r: Commit)
        ensures
            r.message_spec() == message@,
            r.payload() == commit_text(
                encode_utf8(tree@),
                match parent {
                    Some(p) => Some(encode_utf8(p@)),
                    None => None,
                },
                author.ident(),
                encode_utf8(message@),
            ),
    {
        Commit { parent, tree, author, message }
    }

    pub closed spec fn message_spec(&self) -> Seq<char> {
        self.message@
    }

    /// The message's first line, without a carriage return that ends it;
    /// an empty message has none.
    pub fn first_line(&self) -> (r: Result<String, Error>)
        ensures
            match first_line_of(self.message_spec()) {
                Some(l) => r matches Ok(s) && s@ == l,
                None => r == Err::<String, Error>(Error::EmptyMessage),
            },
    {
        let m = chars_of(self.message.as_str());
        if m.len() == 0 {
            return Err(Error::EmptyMessage);
        }
        let mut end: usize = 0;
        while end < m.len() && m[end] != '\n'
            invariant
                m@ == self.message@,
                end <= m@.len(),
                forall|j: int| 0 <= j < end ==> m@[j] != '\n',
            decreases m@.len() - end,
        {
            end = end + 1;
        }
        proof {
            if exists|k: int| 0 <= k < m@.len() && m@[k] == '\n' {
                let c = choose|k: int|
                    0 <= k < m@.len() && m@[k] == '\n' && forall|j: int| 0 <= j < k ==> m@[j] != '\n';
                assert(end < m@.len()) by {
                    if end == m@.len() {
                        let k = choose|k: int| 0 <= k < m@.len() && m@[k] == '\n';
                    }
                }
                assert(m@[end as int] == '\n');
                assert(c == end);
            } else {
                assert(end == m@.len());
            }
        }
        if end > 0 && m[end - 1] == '\r' {
            end = end - 1;
        }
        Ok(self.message.as_str().substring_char(0, end).to_owned())
    }
}

impl Object for Commit {
    open spec fn inv(&self) -> bool {
        true
    }

    open spec fn kind(&self) -> ObjectType {
        ObjectType::Commit
    }

    closed spec fn payload(&self) -> Seq<u8> {
        commit_text(
            encode_utf8(self.tree@),
            match self.parent {
                Some(p) => Some(encode_utf8(p@)),
                None => None,
            },
            self.author.ident(),
            encode_utf8(self.message@),
        )
    }

    open spec fn computable(&self) -> bool {
        true
    }

    fn object_type(&self) -> (r: ObjectType) {
        ObjectType::Commit
    }

    fn content(&self) -> (r: Result<Vec<u8>, Error>) {
        let ident = self.author.to_bytes();
        let mut out: Vec<u8> = vec![116u8, 114u8, 101u8, 101u8, 32u8];
        push_all(&mut out, self.tree.as_str().as_bytes());
        out.push(10);
        let ghost after_tree = out@;
        match &self.parent {
            Some(p) => {
                push_all(&mut out, vec![112u8, 97u8, 114u8, 101u8, 110u8, 116u8, 32u8].as_slice());
                push_all(&mut out, p.as_str().as_bytes());
                out.push(10);
            },
            None => {},
        }
        push_all(&mut out, vec![97u8, 117u8, 116u8, 104u8, 111u8, 114u8, 32u8].as_slice());
        push_all(&mut out, ident.as_slice());
        out.push(10);
        push_all(
            &mut out,
            vec![99u8, 111u8, 109u8, 109u8, 105u8, 116u8, 116u8, 101u8, 114u8, 32u8].as_slice(),
        );
        push_all(&mut out, ident.as_slice());
        out.push(10);
        out.push(10);
        push_all(&mut out, self.message.as_str().as_bytes());
        assert(out@ =~= self.payload());
        Ok(out)
    }
}

} // verus!
