//! Stored objects: their kinds, canonical bytes and identifiers.
//!
//! An object serializes as `"<kind> <payload length>\0<payload>"`; its
//! identifier is the SHA-1 of that serialization.

use vstd::prelude::*;

use crate::digest::{sha1_digest, sha1_of, MAX_DIGEST_INPUT};
use crate::encode::{decimal_of, push_decimal};
use crate::error::Error;

verus! {

/// The largest payload an object may have: its serialization must stay
/// within what the digest accepts.
pub const MAX_PAYLOAD: u64 = 0x0fff_ffff_ffff_ffff;

#[derive(PartialEq, Eq, Structural, Clone, Copy, Debug)]
pub enum ObjectType {
    Blob,
    Tree,
    Commit,
}

/// The name of an object kind: `blob`, `tree` or `commit`.
pub open spec fn kind_name(t: ObjectType) -> Seq<u8> {
    match t {
        ObjectType::Blob => seq![98u8, 108u8, 111u8, 98u8],
        ObjectType::Tree => seq![116u8, 114u8, 101u8, 101u8],
        ObjectType::Commit => seq![99u8, 111u8, 109u8, 109u8, 105u8, 116u8],
    }
}

/// The canonical serialization of an object of kind `t`.
pub open spec fn object_bytes(t: ObjectType, payload: Seq<u8>) -> Seq<u8> {
    kind_name(t) + seq![32u8] + decimal_of(payload.len()) + seq![0u8] + payload
}

/// The identifier of an object of kind `t`.
pub open spec fn object_id(t: ObjectType, payload: Seq<u8>) -> Seq<u8> {
    sha1_of(object_bytes(t, payload))
}

impl ObjectType {
    /// The kind's name as bytes.
    pub fn name(&self) -> (r: Vec<u8>)
        ensures
            r@ == kind_name(*self),
    {
        let r = match self {
            ObjectType::Blob => vec![98u8, 108u8, 111u8, 98u8],
            ObjectType::Tree => vec![116u8, 114u8, 101u8, 101u8],
            ObjectType::Commit => vec![99u8, 111u8, 109u8, 109u8, 105u8, 116u8],
        };
        assert(r@ =~= kind_name(*self));
        r
    }
}

/// A value that the database can store.
pub trait Object {
    /// The value's own well-formedness.
    spec fn inv(&self) -> bool;

    spec fn kind(&self) -> ObjectType;

    /// The payload, once every part of it can be computed.
    spec fn payload(&self) -> Seq<u8>;

    /// Whether the payload can be computed: no part of it exceeds what
    /// the digest accepts.
    spec fn computable(&self) -> bool;

    fn object_type(&self) -> (r: ObjectType)
        ensures
            r == self.kind(),
    ;

    fn content(&self) -> (r: Result<Vec<u8>, Error>)
        requires
            self.inv(),
        ensures
            r is Ok <==> self.computable(),
            r matches Ok(c) ==> c@ == self.payload(),
            r matches Err(e) ==> e is TooLarge,
    ;
}

/// The canonical serialization of a payload of kind `t`.
pub fn serialize(t: ObjectType, content: &[u8]) -> (r: Vec<u8>)
    ensures
        r@ == object_bytes(t, content@),
{
    let mut out = t.name();
    out.push(32);
    push_decimal(&mut out, content.len() as u64);
    out.push(0);
    out.extend_from_slice(content);
    assert(out@ =~= object_bytes(t, content@));
    out
}

/// The canonical serialization of `object`.
pub fn to_bytes<O: Object>(object: &O) -> (r: Result<Vec<u8>, Error>)
    requires
        object.inv(),
    ensures
        r is Ok <==> object.computable(),
        r matches Ok(b) ==> b@ == object_bytes(object.kind(), object.payload()),
        r matches Err(e) ==> e is TooLarge,
{
    let content = object.content()?;
    Ok(serialize(object.object_type(), content.as_slice()))
}

/// The identifier of a payload of kind `t`; too large when the payload
/// exceeds `MAX_PAYLOAD`.
pub fn hash_object(t: ObjectType, content: &[u8]) -> (r: Result<Vec<u8>, Error>)
    ensures
        r is Ok <==> content@.len() <= MAX_PAYLOAD,
        r matches Ok(id) ==> id@ == object_id(t, content@),
        r matches Err(e) ==> e is TooLarge,
{
    if content.len() as u64 > MAX_PAYLOAD {
        return Err(Error::TooLarge);
    }
    let bytes = serialize(t, content);
    proof {
        crate::encode::lemma_decimal_len(content.len() as u64);
    }
    let id = sha1_digest(bytes.as_slice());
    assert(id@ =~= object_id(t, content@));
    Ok(id)
}

/// The identifier of `object`: the SHA-1 of its serialization.
pub fn compute_oid<O: Object>(object: &O) -> (r: Result<Vec<u8>, Error>)
    requires
        object.inv(),
    ensures
        r is Ok <==> object.computable() && object.payload().len() <= MAX_PAYLOAD,
        r matches Ok(id) ==> id@ == object_id(object.kind(), object.payload()),
        r matches Err(e) ==> e is TooLarge,
{
    let content = object.content()?;
    hash_object(object.object_type(), content.as_slice())
}

/// A file's content as an object.
#[derive(Debug)]
pub struct Blob {
    data: Vec<u8>,
}

impl Blob {
    pub fn new(data: Vec<u8>) -> (r: Blob)
        ensures
            r.payload() == data@,
    {
        Blob { data }
    }
}

impl Object for Blob {
    open spec fn inv(&self) -> bool {
        true
    }

    open spec fn kind(&self) -> ObjectType {
        ObjectType::Blob
    }

    closed spec fn payload(&self) -> Seq<u8> {
        self.data@
    }

    open spec fn computable(&self) -> bool {
        true
    }

    fn object_type(&self) -> (r: ObjectType) {
        ObjectType::Blob
    }

    fn content(&self) -> (r: Result<Vec<u8>, Error>) {
        let mut c: Vec<u8> = Vec::new();
        c.extend_from_slice(self.data.as_slice());
        assert(c@ =~= self.data@);
        Ok(c)
    }
}

/// A blob's identifier is the SHA-1 of `"blob "`, the decimal length of
/// its data, a NUL byte and the data.
pub proof fn lemma_blob_id(data: Seq<u8>)
    ensures
        object_id(ObjectType::Blob, data) == sha1_of(seq![98u8, 108u8, 111u8, 98u8, 32u8]
            + decimal_of(data.len()) + seq![0u8] + data),
{
    assert(object_bytes(ObjectType::Blob, data) =~= seq![98u8, 108u8, 111u8, 98u8, 32u8]
        + decimal_of(data.len()) + seq![0u8] + data);
}

/// The identifier that the database gives to a file holding `data`: the
/// SHA-1 of `"blob "`, the decimal length, a NUL byte and the data.
pub fn blob_oid(data: &[u8]) -> (r: Result<Vec<u8>, Error>)
    ensures
        r is Ok <==> data@.len() <= MAX_PAYLOAD,
        r matches Ok(id) ==> id@ == sha1_of(seq![98u8, 108u8, 111u8, 98u8, 32u8] + decimal_of(
            data@.len(),
        ) + seq![0u8] + data@),
{
    let r = hash_object(ObjectType::Blob, data);
    proof {
        lemma_blob_id(data@);
    }
    r
}

} // verus!
