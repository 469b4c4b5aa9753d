//! The object database: where each object goes, under what temporary
//! name it is first written, and the compressed bytes it holds.
//!
//! Objects live at `<root>/<first two hex digits>/<other 38 digits>`; each
//! is written to a temporary file in the same directory and then renamed.

use std::io::Write;

use vstd::prelude::*;
use vstd::utf8::encode_utf8;

use crate::error::Error;
use crate::hex::{hex_of, to_hex};
use crate::object::{hash_object, object_bytes, object_id, serialize, Object, ObjectType, MAX_PAYLOAD};

verus! {

/// The zlib stream, at the fast compression level, of `data`.
pub uninterp spec fn zlib_fast_of(data: Seq<u8>) -> Seq<u8>;

/// Relies on flate2's `ZlibEncoder` with `Compression::fast()`, written
/// into a `Vec` and finished: the stream depends on the data alone. Neither
/// step fails here: the sink is a `Vec`, whose writes always succeed, and
/// a fresh miniz_oxide compressor reports only a bad-parameter status
/// (its parameters come from `Compression::fast()`) or a failed output
/// callback (never, for flate2's in-memory buffer).
#[verifier::external_body]
fn compress_fast(data: &[u8]) -> (r: Vec<u8>)
    ensures
        r@ == zlib_fast_of(data@),
{
    let mut encoder = flate2::write::ZlibEncoder::new(Vec::new(), flate2::Compression::fast());
    encoder.write_all(data).expect("writing into a Vec");
    encoder.finish().expect("finishing into a Vec")
}

/// Relies on rand's `IteratorRandom::choose_multiple` with the thread's
/// generator: `amount` items of the slice, or all of them when it holds
/// fewer, each one of its items.
#[verifier::external_body]
fn choose_from(items: &[u8], amount: usize) -> (r: Vec<u8>)
    ensures
        r@.len() == if amount <= items@.len() {
            amount as int
        } else {
            items@.len() as int
        },
        forall|i: int| 0 <= i < r@.len() ==> items@.contains(#[trigger] r@[i]),
{
    rand::seq::IteratorRandom::choose_multiple(
        items.iter().copied(),
        &mut rand::thread_rng(),
        amount,
    )
}

/// Letters and digits.
pub open spec fn is_alnum(c: u8) -> bool {
    (97 <= c <= 122) || (65 <= c <= 90) || (48 <= c <= 57)
}

/// `tmp_obj_`.
pub open spec fn temp_prefix() -> Seq<u8> {
    seq![116u8, 109u8, 112u8, 95u8, 111u8, 98u8, 106u8, 95u8]
}

/// An object ready to be written: its identifier, the directory and file
/// names it goes under, a temporary name in that directory, and its
/// compressed serialization.
pub struct EncodedObject {
    pub oid: Vec<u8>,
    pub dir_name: String,
    pub file_name: String,
    pub temp_name: String,
    pub compressed: Vec<u8>,
}

pub struct Database {
    root: String,
}

impl Database {
    pub closed spec fn root_spec(&self) -> Seq<char> {
        self.root@
    }

    /// The database rooted at `path` (a repository's `objects` directory).
    pub fn new(path: &str) -> (r: Database)
        ensures
            r.root_spec() == path@,
    {
        Database { root: path.to_owned() }
    }

    pub fn root(&self) -> (r: &str)
        ensures
            r@ == self.root_spec(),
    {
        self.root.as_str()
    }

    /// The directory and file names of the object `oid`: its first two
    /// hexadecimal digits, and the rest.
    pub fn object_location(oid: &[u8]) -> (r: (String, String))
        requires
            oid@.len() == 20,
        ensures
            encode_utf8(r.0@) == hex_of(oid@).subrange(0, 2),
            encode_utf8(r.1@) == hex_of(oid@).subrange(2, 40),
    {
        let hex = to_hex(oid);
        proof {
            assert forall|i: int| 0 <= i < hex@.len() implies hex@[i] < 128 by {
                assert(hex@[i] == hex_of(oid@)[i]);
            }
        }
        let dir = crate::encode::copy_range(hex.as_slice(), 0, 2);
        let file = crate::encode::copy_range(hex.as_slice(), 2, 40);
        (crate::text::ascii_string(dir), crate::text::ascii_string(file))
    }

    /// A fresh temporary file name: `tmp_obj_` and six letters or digits
    /// drawn at random.
    pub fn temp_name() -> (r: String)
        ensures
            encode_utf8(r@).len() == 14,
            encode_utf8(r@).subrange(0, 8) == temp_prefix(),
            forall|i: int| 8 <= i < 14 ==> is_alnum(#[trigger] encode_utf8(r@)[i]),
    {
        let mut alphabet: Vec<u8> = Vec::new();
        let mut c: u8 = 97;
        while c <= 122
            invariant
                97 <= c <= 123,
                alphabet@.len() == c - 97,
                forall|i: int| 0 <= i < alphabet@.len() ==> is_alnum(#[trigger] alphabet@[i]),
            decreases 123 - c,
        {
            alphabet.push(c);
            c = c + 1;
        }
        c = 65;
        while c <= 90
            invariant
                65 <= c <= 91,
                alphabet@.len() == 26 + (c - 65),
                forall|i: int| 0 <= i < alphabet@.len() ==> is_alnum(#[trigger] alphabet@[i]),
            decreases 91 - c,
        {
            alphabet.push(c);
            c = c + 1;
        }
        c = 48;
        while c <= 57
            invariant
                48 <= c <= 58,
                forall|i: int| 0 <= i < alphabet@.len() ==> is_alnum(#[trigger] alphabet@[i]),
                alphabet@.len() == 52 + (c - 48),
            decreases 58 - c,
        {
            alphabet.push(c);
            c = c + 1;
        }
        let picked = choose_from(alphabet.as_slice(), 6);
        let mut name: Vec<u8> = vec![116u8, 109u8, 112u8, 95u8, 111u8, 98u8, 106u8, 95u8];
        assert(name@ =~= temp_prefix());
        let mut i: usize = 0;
        while i < picked.len()
            invariant
                picked@.len() == 6,
                i <= 6,
                name@.len() == 8 + i,
                name@.subrange(0, 8) == temp_prefix(),
                forall|k: int| 8 <= k < name@.len() ==> is_alnum(#[trigger] name@[k]),
                forall|k: int| 0 <= k < picked@.len() ==> alphabet@.contains(#[trigger] picked@[k]),
                forall|k: int| 0 <= k < alphabet@.len() ==> is_alnum(#[trigger] alphabet@[k]),
            decreases 6 - i,
        {
            let b = picked[i];
            assert(alphabet@.contains(b));
            name.push(b);
            assert(name@.subrange(0, 8) =~= name@.drop_last().subrange(0, 8));
            i = i + 1;
        }
        proof {
            assert forall|k: int| 0 <= k < name@.len() implies name@[k] < 128 by {
                if k < 8 {
                    assert(name@[k] == temp_prefix()[k]);
                }
            }
        }
        crate::text::ascii_string(name)
    }

    /// Everything needed to write an object of kind `kind` with payload
    /// `content`: its identifier, where it goes, a temporary name, and its
    /// compressed serialization. Too large exactly when the payload exceeds
    /// `MAX_PAYLOAD`.
    pub fn encode_payload(&self, kind: ObjectType, content: &[u8]) -> (r: Result<
        EncodedObject,
        Error,
    >)
        ensures
            content@.len() > MAX_PAYLOAD ==> r == Err::<EncodedObject, Error>(Error::TooLarge),
            content@.len() <= MAX_PAYLOAD ==> r is Ok,
            r matches Ok(e) ==> {
                &&& e.oid@ == object_id(kind, content@)
                &&& encode_utf8(e.dir_name@) == hex_of(e.oid@).subrange(0, 2)
                &&& encode_utf8(e.file_name@) == hex_of(e.oid@).subrange(2, 40)
                &&& encode_utf8(e.temp_name@).subrange(0, 8) == temp_prefix()
                &&& encode_utf8(e.temp_name@).len() == 14
                &&& e.compressed@ == zlib_fast_of(object_bytes(kind, content@))
            },
    {
        let oid = hash_object(kind, content)?;
        let bytes = serialize(kind, content);
        let compressed = compress_fast(bytes.as_slice());
        let (dir_name, file_name) = Database::object_location(oid.as_slice());
        let temp_name = Database::temp_name();
        Ok(EncodedObject { oid, dir_name, file_name, temp_name, compressed })
    }

    /// Everything needed to write `object`, as `encode_payload` gives it
    /// for the object's kind and payload; too large exactly when the
    /// payload cannot be computed or exceeds `MAX_PAYLOAD`.
    pub fn encode<O: Object>(&self, object: &O) -> (r: Result<EncodedObject, Error>)
        requires
            object.inv(),
        ensures
            !(object.computable() && object.payload().len() <= MAX_PAYLOAD) ==> r
                == Err::<EncodedObject, Error>(Error::TooLarge),
            object.computable() && object.payload().len() <= MAX_PAYLOAD ==> r is Ok,
            r matches Ok(e) ==> {
                &&& object.computable()
                &&& e.oid@ == object_id(object.kind(), object.payload())
                &&& encode_utf8(e.dir_name@) == hex_of(e.oid@).subrange(0, 2)
                &&& encode_utf8(e.file_name@) == hex_of(e.oid@).subrange(2, 40)
                &&& encode_utf8(e.temp_name@).subrange(0, 8) == temp_prefix()
                &&& encode_utf8(e.temp_name@).len() == 14
                &&& e.compressed@ == zlib_fast_of(object_bytes(object.kind(), object.payload()))
            },
    {
        let content = object.content()?;
        self.encode_payload(object.object_type(), content.as_slice())
    }
}

} // verus!
