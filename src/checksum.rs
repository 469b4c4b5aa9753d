//! A byte stream whose SHA-1 digest follows every byte that passes through.
//!
//! Writing appends to the underlying bytes and feeds the digest; reading
//! takes the next bytes and feeds the digest; the 20-byte trailer is written
//! and read past the digest, so it never covers itself.

use vstd::prelude::*;

use crate::digest::{sha1_digest, sha1_of, DIGEST_LEN, MAX_DIGEST_INPUT};
use crate::error::Error;

verus! {

pub struct ChecksummedFile {
    inner: Vec<u8>,
    pos: usize,
    digested: Vec<u8>,
}

impl ChecksummedFile {
    /// The underlying bytes.
    pub closed spec fn data(&self) -> Seq<u8> {
        self.inner@
    }

    /// How many of the underlying bytes have been read.
    pub closed spec fn position(&self) -> nat {
        self.pos as nat
    }

    /// The bytes that the digest has observed, in order.
    pub closed spec fn digested(&self) -> Seq<u8> {
        self.digested@
    }

    pub open spec fn wf(&self) -> bool {
        self.position() <= self.data().len()
    }

    /// Wraps `inner`; the digest has observed nothing yet and reading starts
    /// at its first byte.
    pub fn new(inner: Vec<u8>) -> (r: Self)
        ensures
            r.wf(),
            r.data() == inner@,
            r.position() == 0,
            r.digested() == Seq::<u8>::empty(),
    {
        ChecksummedFile { inner, pos: 0, digested: Vec::new() }
    }

    /// The underlying bytes, with all that was written.
    pub fn into_inner(self) -> (r: Vec<u8>)
        ensures
            r@ == self.data(),
    {
        self.inner
    }

    /// The digest of everything observed so far.
    pub fn hash(&self) -> (r: Vec<u8>)
        requires
            self.digested().len() <= MAX_DIGEST_INPUT,
        ensures
            r@ == sha1_of(self.digested()),
            r@.len() == DIGEST_LEN,
    {
        let r = sha1_digest(self.digested.as_slice());
        assert(r@ =~= sha1_of(self.digested@));
        r
    }

    /// How many bytes the digest has observed.
    pub fn digested_len(&self) -> (r: usize)
        ensures
            r == self.digested().len(),
    {
        self.digested.len()
    }

    /// How many bytes are left to read.
    pub fn remaining(&self) -> (r: usize)
        requires
            self.wf(),
        ensures
            r == self.data().len() - self.position(),
    {
        self.inner.len() - self.pos
    }

    /// Appends `buf` to the underlying bytes and feeds it to the digest.
    pub fn write(&mut self, buf: &[u8])
        requires
            old(self).wf(),
        ensures
            final(self).wf(),
            final(self).data() == old(self).data() + buf@,
            final(self).digested() == old(self).digested() + buf@,
            final(self).position() == old(self).position(),
    {
        self.inner.extend_from_slice(buf);
        self.digested.extend_from_slice(buf);
        assert(self.inner@ =~= old(self).inner@ + buf@);
        assert(self.digested@ =~= old(self).digested@ + buf@);
    }

    /// Appends the digest of everything written so far, without feeding it
    /// to the digest.
    pub fn write_hash(&mut self)
        requires
            old(self).wf(),
            old(self).digested().len() <= MAX_DIGEST_INPUT,
        ensures
            final(self).wf(),
            final(self).data() == old(self).data() + sha1_of(old(self).digested()),
            final(self).digested() == old(self).digested(),
            final(self).position() == old(self).position(),
    {
        let h = self.hash();
        self.inner.extend_from_slice(h.as_slice());
        assert(self.inner@ =~= old(self).inner@ + h@);
    }

    /// Reads exactly `n` bytes and feeds them to the digest; `None`, with
    /// nothing consumed, when fewer than `n` remain.
    pub fn read_exact(&mut self, n: usize) -> (r: Option<Vec<u8>>)
        requires
            old(self).wf(),
        ensures
            final(self).wf(),
            final(self).data() == old(self).data(),
            r is Some <==> old(self).position() + n <= old(self).data().len(),
            r matches Some(b) ==> {
                &&& b@ == old(self).data().subrange(
                    old(self).position() as int,
                    old(self).position() + n,
                )
                &&& final(self).position() == old(self).position() + n
                &&& final(self).digested() == old(self).digested() + b@
            },
            r is None ==> *final(self) == *old(self),
    {
        if n > self.inner.len() - self.pos {
            return None;
        }
        let len = self.inner.len();
        let mut b: Vec<u8> = Vec::new();
        let mut i: usize = 0;
        while i < n
            invariant
                len == self.inner@.len(),
                self.pos + n <= self.inner@.len(),
                i <= n,
                b@ == self.inner@.subrange(self.pos as int, self.pos + i),
            decreases n - i,
        {
            b.push(self.inner[self.pos + i]);
            i = i + 1;
            assert(b@ =~= self.inner@.subrange(self.pos as int, self.pos + i));
        }
        self.digested.extend_from_slice(b.as_slice());
        assert(self.digested@ =~= old(self).digested@ + b@);
        self.pos = self.pos + n;
        Some(b)
    }

    /// Reads the 20-byte trailer, past the digest, and tells whether it
    /// equals the digest of everything read before it. A trailer cut short
    /// is a format error.
    pub fn verify_checksum(&mut self) -> (r: Result<bool, Error>)
        requires
            old(self).wf(),
            old(self).digested().len() <= MAX_DIGEST_INPUT,
        ensures
            final(self).wf(),
            final(self).data() == old(self).data(),
            final(self).digested() == old(self).digested(),
            r is Ok <==> old(self).position() + DIGEST_LEN <= old(self).data().len(),
            r matches Ok(ok) ==> {
                &&& ok == (old(self).data().subrange(
                    old(self).position() as int,
                    old(self).position() + DIGEST_LEN,
                ) == sha1_of(old(self).digested()))
                &&& final(self).position() == old(self).position() + DIGEST_LEN
            },
            r matches Err(e) ==> e is Format,
    {
        if DIGEST_LEN > self.inner.len() - self.pos {
            return Err(Error::Format);
        }
        let computed = self.hash();
        let pos = self.pos;
        let len = self.inner.len();
        let mut same = true;
        let mut i: usize = 0;
        while i < DIGEST_LEN
            invariant
                len == self.inner@.len(),
                pos + DIGEST_LEN <= self.inner@.len(),
                computed@.len() == DIGEST_LEN,
                i <= DIGEST_LEN,
                same <==> forall|k: int| 0 <= k < i ==> computed@[k] == self.inner@[pos + k],
            decreases DIGEST_LEN - i,
        {
            if computed[i] != self.inner[pos + i] {
                same = false;
            }
            i = i + 1;
        }
        let ghost trailer = self.inner@.subrange(pos as int, pos + DIGEST_LEN);
        assert(same <==> trailer == computed@) by {
            if same {
                assert(trailer =~= computed@);
            }
            if trailer == computed@ {
                assert forall|k: int| 0 <= k < DIGEST_LEN implies computed@[k] == self.inner@[pos
                    + k] by {
                    assert(trailer[k] == self.inner@[pos + k]);
                }
            }
        }
        self.pos = self.pos + DIGEST_LEN;
        Ok(same)
    }
}

} // verus!
