//! The staging index: its entries, its binary format, and staging.
//!
//! On disk an index is a 12-byte header (`DIRC`, version 2, the entry
//! count), the entries in ascending path order, and the SHA-1 of all of
//! that. Each entry is ten 32-bit stat words, the raw object id, 16 bits of
//! flags and the path, padded with one to eight NUL bytes to a multiple of
//! eight.

use vstd::prelude::*;
use vstd::string::StringSliceAdditionalSpecFns;
use vstd::utf8::{decode_utf8, encode_utf8, valid_utf8};

use crate::checksum::ChecksummedFile;
use crate::digest::{sha1_of, DIGEST_LEN, MAX_DIGEST_INPUT};
use crate::encode::{be16, be32, get_be16, get_be32, push_be16, push_be32, read_be16, read_be32};
use crate::error::Error;
use crate::hex::{bytes_of_hex, is_hex};
use crate::path::{bytes_lt, paths_conflict};
use crate::workspace::{FileStat, WorkspacePath};

verus! {

pub struct Entry {
    pub ctime: u32,
    pub ctime_nsec: u32,
    pub mtime: u32,
    pub mtime_nsec: u32,
    pub dev: u32,
    pub ino: u32,
    pub mode: u32,
    pub uid: u32,
    pub gid: u32,
    pub size: u32,
    pub oid: Vec<u8>,
    pub flags: u16,
    pub path: String,
}

/// What an entry records: the ten stat words in their on-disk order, the
/// raw object id, the flags and the path's bytes.
pub struct EntryView {
    pub stat: Seq<u32>,
    pub oid: Seq<u8>,
    pub flags: u16,
    pub path: Seq<u8>,
}

impl View for Entry {
    type V = EntryView;

    open spec fn view(&self) -> EntryView {
        EntryView {
            stat: seq![
                self.ctime,
                self.ctime_nsec,
                self.mtime,
                self.mtime_nsec,
                self.dev,
                self.ino,
                self.mode,
                self.uid,
                self.gid,
                self.size,
            ],
            oid: self.oid@,
            flags: self.flags,
            path: encode_utf8(self.path@),
        }
    }
}

/// The version of the index format.
pub const INDEX_VERSION: u32 = 2;

/// Fixed part of an entry: ten stat words, the object id and the flags.
pub const ENTRY_FIXED_SIZE: usize = 62;

/// The least number of bytes an entry occupies.
pub const ENTRY_MIN_SIZE: usize = 64;

/// Entries are padded to a multiple of this many bytes.
pub const ENTRY_BLOCK: usize = 8;

/// The largest path length that the flags record; longer paths record this.
pub const MAX_PATH_SIZE: u16 = 0xfff;

/// `"DIRC"`.
pub open spec fn signature() -> Seq<u8> {
    seq![68u8, 73u8, 82u8, 67u8]
}

/// Big-endian words, one after another.
pub open spec fn words(s: Seq<u32>) -> Seq<u8>
    decreases s.len(),
{
    if s.len() == 0 {
        seq![]
    } else {
        words(s.drop_last()) + be32(s.last())
    }
}

/// The NUL bytes that end an entry whose path has `n` bytes: one to eight,
/// so that the entry's length is a multiple of eight.
pub open spec fn pad_len(n: nat) -> nat {
    (8 - (62 + n) % 8) as nat
}

pub open spec fn zeros(n: nat) -> Seq<u8> {
    Seq::new(n, |i: int| 0u8)
}

pub open spec fn nul_free(s: Seq<u8>) -> bool {
    forall|i: int| 0 <= i < s.len() ==> s[i] != 0
}

/// The on-disk form of one entry.
pub open spec fn entry_bytes(e: EntryView) -> Seq<u8> {
    words(e.stat) + e.oid + be16(e.flags) + e.path + zeros(pad_len(e.path.len()))
}

/// An entry that its on-disk form can hold and give back.
pub open spec fn valid_entry(e: EntryView) -> bool {
    &&& e.stat.len() == 10
    &&& e.oid.len() == 20
    &&& nul_free(e.path)
    &&& valid_utf8(e.path)
}

/// Entries in strictly ascending path order.
pub open spec fn sorted_by_path(es: Seq<EntryView>) -> bool {
    forall|i: int, j: int|
        0 <= i < j < es.len() ==> crate::path::bytes_lt(#[trigger] es[i].path, #[trigger] es[j].path)
}

/// Entries that each can stand in an index file.
pub open spec fn all_valid(es: Seq<EntryView>) -> bool {
    forall|i: int| 0 <= i < es.len() ==> valid_entry(#[trigger] es[i])
}

/// Entries that an index file can hold: each valid, and a count that
/// fits the header.
pub open spec fn valid_entries(es: Seq<EntryView>) -> bool {
    &&& es.len() <= u32::MAX
    &&& all_valid(es)
}

pub open spec fn entries_bytes(es: Seq<EntryView>) -> Seq<u8>
    decreases es.len(),
{
    if es.len() == 0 {
        seq![]
    } else {
        entries_bytes(es.drop_last()) + entry_bytes(es.last())
    }
}

/// The header and the entries: everything that the trailer digests.
pub open spec fn index_body(es: Seq<EntryView>) -> Seq<u8> {
    signature() + be32(INDEX_VERSION) + be32(es.len() as u32) + entries_bytes(es)
}

/// A whole index file holding `es`.
pub open spec fn index_bytes(es: Seq<EntryView>) -> Seq<u8> {
    index_body(es) + sha1_of(index_body(es))
}

/// Some entry list has `b` as its header and entries.
pub open spec fn body_decodable(b: Seq<u8>) -> bool {
    exists|es: Seq<EntryView>| valid_entries(es) && index_body(es) == b
}

/// Some entry list has `b` as its index file.
pub open spec fn index_decodable(b: Seq<u8>) -> bool {
    exists|es: Seq<EntryView>| valid_entries(es) && index_bytes(es) == b
}

pub open spec fn entries_view(es: Seq<Entry>) -> Seq<EntryView> {
    es.map_values(|e: Entry| e@)
}

/// Where the path of an entry that starts at `pos` ends: the first NUL
/// after the entry's fixed part.
pub open spec fn path_end(b: Seq<u8>, pos: int) -> Option<int> {
    if exists|z: int|
        pos + 62 <= z < b.len() && b[z] == 0 && nul_free(#[trigger] b.subrange(pos + 62, z)) {
        Some(
            choose|z: int|
                pos + 62 <= z < b.len() && b[z] == 0 && nul_free(#[trigger] b.subrange(pos + 62, z)),
        )
    } else {
        None
    }
}

/// The ten stat words of an entry that starts at `pos`.
pub open spec fn stat_at(b: Seq<u8>, pos: int) -> Seq<u32> {
    Seq::new(10, |k: int| read_be32(b.subrange(pos + 4 * k, pos + 4 * k + 4)))
}

/// The entry that starts at `pos` in `b`, and where it ends.
pub open spec fn entry_at(b: Seq<u8>, pos: int) -> Option<(EntryView, int)> {
    match path_end(b, pos) {
        None => None,
        Some(z) => {
            let path = b.subrange(pos + 62, z);
            let end = z + pad_len(path.len());
            if end <= b.len() && b.subrange(z, end) == zeros(pad_len(path.len())) && valid_utf8(
                path,
            ) {
                Some(
                    (
                        EntryView {
                            stat: stat_at(b, pos),
                            oid: b.subrange(pos + 40, pos + 60),
                            flags: read_be16(b.subrange(pos + 60, pos + 62)),
                            path,
                        },
                        end,
                    ),
                )
            } else {
                None
            }
        },
    }
}

/// `n` entries, one after another from `pos`, and where the last ends.
pub open spec fn entries_at(b: Seq<u8>, pos: int, n: nat) -> Option<(Seq<EntryView>, int)>
    decreases n,
{
    if n == 0 {
        Some((seq![], pos))
    } else {
        match entries_at(b, pos, (n - 1) as nat) {
            None => None,
            Some((es, p)) => match entry_at(b, p) {
                None => None,
                Some((e, q)) => Some((es.push(e), q)),
            },
        }
    }
}

proof fn lemma_words(s: Seq<u32>)
    ensures
        words(s).len() == 4 * s.len(),
        forall|k: int|
            0 <= k < s.len() ==> #[trigger] words(s).subrange(4 * k, 4 * k + 4) == be32(s[k]),
    decreases s.len(),
{
    if s.len() > 0 {
        lemma_words(s.drop_last());
        crate::encode::lemma_be32_round_trip(s.last());
        let w = words(s);
        let p = words(s.drop_last());
        assert forall|k: int| 0 <= k < s.len() implies #[trigger] w.subrange(4 * k, 4 * k + 4)
            == be32(s[k]) by {
            if k < s.len() - 1 {
                assert(w.subrange(4 * k, 4 * k + 4) =~= p.subrange(4 * k, 4 * k + 4));
                assert(s.drop_last()[k] == s[k]);
            } else {
                assert(w.subrange(4 * k, 4 * k + 4) =~= be32(s.last()));
            }
        }
    }
}

proof fn lemma_be32_bytes(b: Seq<u8>)
    requires
        b.len() == 4,
    ensures
        be32(read_be32(b)) == b,
{
    let v = read_be32(b);
    let (b0, b1, b2, b3) = (b[0] as int, b[1] as int, b[2] as int, b[3] as int);
    assert(0 <= b0 < 256 && 0 <= b1 < 256 && 0 <= b2 < 256 && 0 <= b3 < 256);
    let x = b0 * 0x100_0000 + b1 * 0x1_0000 + b2 * 0x100 + b3;
    assert(0 <= x <= u32::MAX) by (nonlinear_arith)
        requires
            0 <= b0 < 256 && 0 <= b1 < 256 && 0 <= b2 < 256 && 0 <= b3 < 256,
            x == b0 * 0x100_0000 + b1 * 0x1_0000 + b2 * 0x100 + b3,
    ;
    assert(v as int == x);
    assert(x / 0x100_0000 == b0 && x / 0x1_0000 % 0x100 == b1 && x / 0x100 % 0x100 == b2 && x
        % 0x100 == b3) by (nonlinear_arith)
        requires
            0 <= b0 < 256 && 0 <= b1 < 256 && 0 <= b2 < 256 && 0 <= b3 < 256,
            x == b0 * 0x100_0000 + b1 * 0x1_0000 + b2 * 0x100 + b3,
    ;
    assert(be32(v) =~= b);
}

proof fn lemma_be16_bytes(b: Seq<u8>)
    requires
        b.len() == 2,
    ensures
        be16(read_be16(b)) == b,
{
    let (b0, b1) = (b[0] as int, b[1] as int);
    let x = b0 * 0x100 + b1;
    assert(0 <= x <= u16::MAX && x / 0x100 == b0 && x % 0x100 == b1) by (nonlinear_arith)
        requires
            0 <= b0 < 256 && 0 <= b1 < 256,
            x == b0 * 0x100 + b1,
    ;
    assert(be16(read_be16(b)) =~= b);
}

/// The pieces of an entry's on-disk form, by offset.
proof fn lemma_entry_layout(e: EntryView)
    requires
        e.stat.len() == 10,
        e.oid.len() == 20,
    ensures
        ({
            let b = entry_bytes(e);
            let n = e.path.len() as int;
            &&& b.len() == 62 + n + pad_len(e.path.len())
            &&& b.len() % 8 == 0
            &&& 1 <= pad_len(e.path.len()) <= 8
            &&& forall|k: int|
                0 <= k < 10 ==> #[trigger] b.subrange(4 * k, 4 * k + 4) == be32(e.stat[k])
            &&& b.subrange(40, 60) == e.oid
            &&& b.subrange(60, 62) == be16(e.flags)
            &&& b.subrange(62, 62 + n) == e.path
            &&& b.subrange(62 + n, b.len() as int) == zeros(pad_len(e.path.len()))
        }),
{
    lemma_words(e.stat);
    crate::encode::lemma_be16_round_trip(e.flags);
    let b = entry_bytes(e);
    let w = words(e.stat);
    let n = e.path.len() as int;
    assert forall|k: int| 0 <= k < 10 implies #[trigger] b.subrange(4 * k, 4 * k + 4) == be32(
        e.stat[k],
    ) by {
        assert(b.subrange(4 * k, 4 * k + 4) =~= w.subrange(4 * k, 4 * k + 4));
    }
    assert(b.subrange(40, 60) =~= e.oid);
    assert(b.subrange(60, 62) =~= be16(e.flags));
    assert(b.subrange(62, 62 + n) =~= e.path);
    assert(b.subrange(62 + n, b.len() as int) =~= zeros(pad_len(e.path.len())));
}

/// An entry's on-disk form, wherever it stands, reads back as that entry.
proof fn lemma_entry_complete(b: Seq<u8>, pos: int, e: EntryView)
    requires
        valid_entry(e),
        0 <= pos,
        pos + entry_bytes(e).len() <= b.len(),
        b.subrange(pos, pos + entry_bytes(e).len()) == entry_bytes(e),
    ensures
        entry_at(b, pos) == Some((e, pos + entry_bytes(e).len())),
{
    let eb = entry_bytes(e);
    lemma_entry_layout(e);
    let n = e.path.len() as int;
    let z = pos + 62 + n;
    assert(b[z] == 0) by {
        assert(eb[62 + n] == zeros(pad_len(e.path.len()))[0]);
        assert(b.subrange(pos, pos + eb.len())[62 + n] == b[z]);
    }
    assert(b.subrange(pos + 62, z) =~= e.path) by {
        assert(b.subrange(pos + 62, z) =~= eb.subrange(62, 62 + n));
    }
    assert(nul_free(b.subrange(pos + 62, z)));
    let zz = choose|y: int|
        pos + 62 <= y < b.len() && b[y] == 0 && nul_free(#[trigger] b.subrange(pos + 62, y));
    assert(zz == z) by {
        if zz < z {
            assert(b.subrange(pos + 62, z)[zz - pos - 62] == b[zz]);
        } else if zz > z {
            assert(b.subrange(pos + 62, zz)[z - pos - 62] == b[z]);
        }
    }
    assert(path_end(b, pos) == Some(z));
    let end = z + pad_len(e.path.len());
    assert(b.subrange(z, end) =~= eb.subrange(62 + n, eb.len() as int));
    assert(stat_at(b, pos) =~= e.stat) by {
        assert forall|k: int| 0 <= k < 10 implies stat_at(b, pos)[k] == e.stat[k] by {
            assert(b.subrange(pos + 4 * k, pos + 4 * k + 4) =~= eb.subrange(4 * k, 4 * k + 4));
            crate::encode::lemma_be32_round_trip(e.stat[k]);
        }
    }
    assert(b.subrange(pos + 40, pos + 60) =~= eb.subrange(40, 60));
    assert(b.subrange(pos + 60, pos + 62) =~= eb.subrange(60, 62));
    crate::encode::lemma_be16_round_trip(e.flags);
}

/// What reads as an entry is that entry's on-disk form.
proof fn lemma_entry_sound(b: Seq<u8>, pos: int)
    requires
        0 <= pos,
        entry_at(b, pos) is Some,
    ensures
        ({
            let (e, q) = entry_at(b, pos).unwrap();
            &&& valid_entry(e)
            &&& q == pos + entry_bytes(e).len()
            &&& q <= b.len()
            &&& b.subrange(pos, q) == entry_bytes(e)
        }),
{
    let (e, q) = entry_at(b, pos).unwrap();
    let z = path_end(b, pos).unwrap();
    assert(nul_free(e.path));
    lemma_entry_layout(e);
    let eb = entry_bytes(e);
    let n = e.path.len() as int;
    let s = b.subrange(pos, q);
    assert forall|i: int| 0 <= i < eb.len() implies s[i] == eb[i] by {
        if i < 40 {
            let k = i / 4;
            assert(0 <= k < 10);
            lemma_be32_bytes(b.subrange(pos + 4 * k, pos + 4 * k + 4));
            assert(eb.subrange(4 * k, 4 * k + 4)[i - 4 * k] == eb[i]);
            assert(be32(e.stat[k]) == b.subrange(pos + 4 * k, pos + 4 * k + 4));
        } else if i < 60 {
            assert(eb.subrange(40, 60)[i - 40] == eb[i]);
        } else if i < 62 {
            lemma_be16_bytes(b.subrange(pos + 60, pos + 62));
            assert(eb.subrange(60, 62)[i - 60] == eb[i]);
        } else if i < 62 + n {
            assert(eb.subrange(62, 62 + n)[i - 62] == eb[i]);
        } else {
            assert(eb.subrange(62 + n, eb.len() as int)[i - 62 - n] == eb[i]);
            assert(b.subrange(z, q)[i - 62 - n] == b[pos + i]);
        }
    }
    assert(s =~= eb);
}

proof fn lemma_entries_complete(b: Seq<u8>, pos: int, es: Seq<EntryView>)
    requires
        forall|i: int| 0 <= i < es.len() ==> valid_entry(#[trigger] es[i]),
        0 <= pos,
        pos + entries_bytes(es).len() <= b.len(),
        b.subrange(pos, pos + entries_bytes(es).len()) == entries_bytes(es),
    ensures
        entries_at(b, pos, es.len()) == Some((es, pos + entries_bytes(es).len())),
    decreases es.len(),
{
    if es.len() > 0 {
        let init = es.drop_last();
        let ib = entries_bytes(init);
        let lb = entry_bytes(es.last());
        assert(b.subrange(pos, pos + ib.len()) =~= b.subrange(
            pos,
            pos + entries_bytes(es).len(),
        ).subrange(0, ib.len() as int));
        assert(entries_bytes(es).subrange(0, ib.len() as int) =~= ib);
        lemma_entries_complete(b, pos, init);
        assert(valid_entry(es[es.len() - 1]));
        let p = pos + ib.len();
        assert(b.subrange(p, p + lb.len()) =~= b.subrange(
            pos,
            pos + entries_bytes(es).len(),
        ).subrange(ib.len() as int, ib.len() + lb.len() as int));
        assert(entries_bytes(es).subrange(ib.len() as int, ib.len() + lb.len() as int) =~= lb);
        lemma_entry_complete(b, p, es.last());
        assert(init.push(es.last()) =~= es);
    }
}

proof fn lemma_entries_sound(b: Seq<u8>, pos: int, n: nat)
    requires
        0 <= pos <= b.len(),
        entries_at(b, pos, n) is Some,
    ensures
        ({
            let (es, q) = entries_at(b, pos, n).unwrap();
            &&& es.len() == n
            &&& forall|i: int| 0 <= i < es.len() ==> valid_entry(#[trigger] es[i])
            &&& q == pos + entries_bytes(es).len()
            &&& q <= b.len()
            &&& b.subrange(pos, q) == entries_bytes(es)
        }),
    decreases n,
{
    if n > 0 {
        lemma_entries_sound(b, pos, (n - 1) as nat);
        let (init, p) = entries_at(b, pos, (n - 1) as nat).unwrap();
        lemma_entry_sound(b, p);
        let (e, q) = entry_at(b, p).unwrap();
        let es = init.push(e);
        assert(es.drop_last() =~= init);
        assert(b.subrange(pos, q) =~= b.subrange(pos, p) + b.subrange(p, q));
        assert forall|i: int| 0 <= i < es.len() implies valid_entry(#[trigger] es[i]) by {
            if i < init.len() {
                assert(es[i] == init[i]);
            }
        }
    }
}

/// The index file of a list of entries reads back as that list and no
/// other: emitting then parsing gives back what was emitted.
pub proof fn lemma_index_bytes_injective(a: Seq<EntryView>, b: Seq<EntryView>)
    requires
        valid_entries(a),
        valid_entries(b),
        index_bytes(a) == index_bytes(b),
    ensures
        a == b,
{
    assert(index_bytes(a).subrange(0, index_body(a).len() as int) =~= index_body(a));
    assert(index_bytes(b).subrange(0, index_body(b).len() as int) =~= index_body(b));
    lemma_body_determines(a, index_bytes(a));
    lemma_body_determines(b, index_bytes(b));
}

/// An index file's header gives the entry count, and its entries follow.
proof fn lemma_body_determines(es: Seq<EntryView>, data: Seq<u8>)
    requires
        valid_entries(es),
        data.subrange(0, index_body(es).len() as int) == index_body(es),
        index_body(es).len() <= data.len(),
    ensures
        data.subrange(0, 4) == signature(),
        read_be32(data.subrange(4, 8)) == INDEX_VERSION,
        read_be32(data.subrange(8, 12)) == es.len(),
        entries_at(data, 12, es.len()) == Some((es, index_body(es).len() as int)),
{
    let body = index_body(es);
    crate::encode::lemma_be32_round_trip(INDEX_VERSION);
    crate::encode::lemma_be32_round_trip(es.len() as u32);
    assert(data.subrange(0, 4) =~= body.subrange(0, 4));
    assert(body.subrange(0, 4) =~= signature());
    assert(data.subrange(4, 8) =~= body.subrange(4, 8));
    assert(body.subrange(4, 8) =~= be32(INDEX_VERSION));
    assert(data.subrange(8, 12) =~= body.subrange(8, 12));
    assert(body.subrange(8, 12) =~= be32(es.len() as u32));
    let eb = entries_bytes(es);
    assert(data.subrange(12, 12 + eb.len() as int) =~= body.subrange(12, body.len() as int));
    assert(body.subrange(12, body.len() as int) =~= eb);
    lemma_entries_complete(data, 12, es);
}

/// Where the path of the entry at `pos` ends, once a NUL is seen there.
proof fn lemma_path_end_is(b: Seq<u8>, pos: int, z: int)
    requires
        0 <= pos,
        pos + 62 <= z < b.len(),
        b[z] == 0,
        nul_free(b.subrange(pos + 62, z)),
    ensures
        path_end(b, pos) == Some(z),
{
    let zz = choose|y: int|
        pos + 62 <= y < b.len() && b[y] == 0 && nul_free(#[trigger] b.subrange(pos + 62, y));
    assert(zz == z) by {
        if zz < z {
            assert(b.subrange(pos + 62, z)[zz - pos - 62] == b[zz]);
        } else if zz > z {
            assert(b.subrange(pos + 62, zz)[z - pos - 62] == b[z]);
        }
    }
}

/// No path ends before a stretch free of NUL bytes does.
proof fn lemma_path_end_after(b: Seq<u8>, pos: int, y: int)
    requires
        0 <= pos,
        pos + 62 <= y <= b.len(),
        nul_free(b.subrange(pos + 62, y)),
    ensures
        path_end(b, pos) matches Some(z) ==> z >= y,
{
    if path_end(b, pos) is Some {
        let z = path_end(b, pos).unwrap();
        if z < y {
            assert(b.subrange(pos + 62, y)[z - pos - 62] == b[z]);
        }
    }
}

/// The end of an entry is the first multiple of eight past its path's NUL.
proof fn lemma_pad_reaches(z: int, len: int)
    requires
        62 <= z < len,
        len % 8 == 0,
        len >= 64,
        len == 64 || z >= len - 8,
    ensures
        z + pad_len((z - 62) as nat) == len,
{
    assert(pad_len((z - 62) as nat) == 8 - z % 8);
}

/// An entry whose path's NUL lies at or past `y` ends at least at the
/// multiple of eight after `y`.
proof fn lemma_pad_beyond(z: int, y: int)
    requires
        62 <= y <= z,
        y % 8 == 0 || y == 62,
    ensures
        z + pad_len((z - 62) as nat) >= if y == 62 { 64 } else { y + 8 },
{
    assert(pad_len((z - 62) as nat) == 8 - z % 8);
}

impl Entry {
    /// The entry's on-disk form.
    pub fn serialize(&self) -> (r: Vec<u8>)
        ensures
            r@ == entry_bytes(self@),
    {
        let stat: [u32; 10] = [
            self.ctime,
            self.ctime_nsec,
            self.mtime,
            self.mtime_nsec,
            self.dev,
            self.ino,
            self.mode,
            self.uid,
            self.gid,
            self.size,
        ];
        assert(stat@ =~= self@.stat);
        let mut out: Vec<u8> = Vec::new();
        let mut i: usize = 0;
        while i < 10
            invariant
                i <= 10,
                stat@ == self@.stat,
                out@ == words(stat@.subrange(0, i as int)),
            decreases 10 - i,
        {
            push_be32(&mut out, stat[i]);
            assert(stat@.subrange(0, i + 1).drop_last() =~= stat@.subrange(0, i as int));
            i = i + 1;
        }
        assert(stat@.subrange(0, 10) =~= stat@);
        out.extend_from_slice(self.oid.as_slice());
        push_be16(&mut out, self.flags);
        let p = self.path.as_str().as_bytes();
        out.extend_from_slice(p);
        let pad: usize = 8 - (p.len() % 8 + 62) % 8;
        assert(pad == pad_len(p@.len()));
        let ghost before = out@;
        let mut i: usize = 0;
        while i < pad
            invariant
                i <= pad,
                out@ == before + zeros(i as nat),
            decreases pad - i,
        {
            out.push(0);
            i = i + 1;
            assert(out@ =~= before + zeros(i as nat));
        }
        assert(out@ =~= entry_bytes(self@));
        out
    }

    /// Reads the entry at the reading position of `file`: at least the
    /// 64 smallest bytes of an entry, then eight more at a time until the
    /// path's NUL shows, as the padding ends each entry on a multiple of
    /// eight. `None` where no well-formed entry stands there.
    #[verifier::loop_isolation(false)]
    fn read_from(file: &mut ChecksummedFile) -> (r: Option<Entry>)
        requires
            old(file).wf(),
        ensures
            final(file).wf(),
            final(file).data() == old(file).data(),
            match entry_at(old(file).data(), old(file).position() as int) {
                Some((e, q)) => r matches Some(x) && x@ == e && final(file).position() == q
                    && final(file).digested() == old(file).digested() + old(file).data().subrange(
                    old(file).position() as int,
                    q,
                ),
                None => r is None,
            },
    {
        let ghost b = file.data();
        let ghost pos = file.position() as int;
        let ghost d0 = file.digested();
        let mut chunk = match file.read_exact(ENTRY_MIN_SIZE) {
            Some(c) => c,
            None => {
                proof {
                    if path_end(b, pos) is Some {
                        let z = path_end(b, pos).unwrap();
                        lemma_pad_beyond(z - pos, 62);
                    }
                }
                return None;
            },
        };
        let mut from: usize = ENTRY_FIXED_SIZE;
        loop
            invariant
                file.wf(),
                file.data() == b,
                0 <= pos,
                chunk@ == b.subrange(pos, pos + chunk@.len()),
                file.position() == pos + chunk@.len(),
                file.digested() == d0 + chunk@,
                chunk@.len() % 8 == 0,
                chunk@.len() >= 64,
                from == if chunk@.len() == 64 {
                    62
                } else {
                    chunk@.len() - 8
                },
                nul_free(b.subrange(pos + 62, pos + from)),
            decreases b.len() - file.position(),
        {
            let mut z: usize = from;
            while z < chunk.len() && chunk[z] != 0
                invariant
                    from <= z <= chunk@.len(),
                    0 <= pos,
                    pos + chunk@.len() <= b.len(),
                    chunk@ == b.subrange(pos, pos + chunk@.len()),
                    62 <= from,
                    nul_free(b.subrange(pos + 62, pos + z)),
                decreases chunk@.len() - z,
            {
                proof {
                    assert(b.subrange(pos + 62, pos + z + 1) =~= b.subrange(pos + 62, pos + z).push(
                        chunk@[z as int],
                    ));
                }
                z = z + 1;
            }
            if z < chunk.len() {
                let len = chunk.len();
                proof {
                    assert(b[pos + z] == chunk@[z as int]);
                    lemma_path_end_is(b, pos, pos + z);
                    lemma_pad_reaches(z as int, len as int);
                }
                let mut k: usize = z;
                while k < len
                    invariant
                        z <= k <= len == chunk@.len(),
                        0 <= pos,
                        pos + chunk@.len() <= b.len(),
                        chunk@ == b.subrange(pos, pos + chunk@.len()),
                        forall|j: int| z <= j < k ==> chunk@[j] == 0,
                    decreases len - k,
                {
                    if chunk[k] != 0 {
                        proof {
                            assert(b.subrange(pos + z, pos + len)[k - z] == chunk@[k as int]);
                            assert(zeros(pad_len((z - 62) as nat))[k - z] == 0);
                        }
                        return None;
                    }
                    k = k + 1;
                }
                proof {
                    let pz = zeros(pad_len((z - 62) as nat));
                    assert forall|i: int| 0 <= i < pz.len() implies b.subrange(pos + z, pos + len)[i]
                        == pz[i] by {
                        assert(chunk@[z + i] == 0);
                    }
                    assert(b.subrange(pos + z, pos + len) =~= pz);
                }
                let path_bytes = crate::encode::copy_range(chunk.as_slice(), ENTRY_FIXED_SIZE, z);
                assert(path_bytes@ =~= b.subrange(pos + 62, pos + z));
                let path = match crate::text::utf8_string(path_bytes) {
                    Some(s) => s,
                    None => {
                        return None;
                    },
                };
                proof {
                    vstd::utf8::decode_utf8_encode_utf8(path_bytes@);
                }
                let oid = crate::encode::copy_range(chunk.as_slice(), 40, 60);
                let entry = Entry {
                    ctime: get_be32(chunk.as_slice(), 0),
                    ctime_nsec: get_be32(chunk.as_slice(), 4),
                    mtime: get_be32(chunk.as_slice(), 8),
                    mtime_nsec: get_be32(chunk.as_slice(), 12),
                    dev: get_be32(chunk.as_slice(), 16),
                    ino: get_be32(chunk.as_slice(), 20),
                    mode: get_be32(chunk.as_slice(), 24),
                    uid: get_be32(chunk.as_slice(), 28),
                    gid: get_be32(chunk.as_slice(), 32),
                    size: get_be32(chunk.as_slice(), 36),
                    oid,
                    flags: get_be16(chunk.as_slice(), 60),
                    path,
                };
                proof {
                    let (e, q) = entry_at(b, pos).unwrap();
                    assert forall|k: int| 0 <= k < 10 implies #[trigger] chunk@.subrange(4 * k, 4 * k + 4)
                        == b.subrange(pos + 4 * k, pos + 4 * k + 4) by {
                        assert(chunk@.subrange(4 * k, 4 * k + 4) =~= b.subrange(
                            pos + 4 * k,
                            pos + 4 * k + 4,
                        ));
                    }
                    assert(entry@.stat =~= e.stat);
                    assert(oid@ =~= e.oid);
                    assert(chunk@.subrange(60, 62) =~= b.subrange(pos + 60, pos + 62));
                }
                return Some(entry);
            }
            let old_len = chunk.len();
            match file.read_exact(ENTRY_BLOCK) {
                Some(more) => {
                    chunk.extend_from_slice(more.as_slice());
                    from = old_len;
                    proof {
                        assert(chunk@ =~= b.subrange(pos, pos + chunk@.len()));
                    }
                },
                None => {
                    proof {
                        lemma_path_end_after(b, pos, pos + old_len);
                        if path_end(b, pos) is Some {
                            let zz = path_end(b, pos).unwrap();
                            lemma_pad_beyond(zz - pos, old_len as int);
                        }
                    }
                    return None;
                },
            }
        }
    }
}

/// The index file `data` has a header and entries that read correctly,
/// but its trailer is not their digest.
pub open spec fn trailer_mismatch(data: Seq<u8>) -> bool {
    &&& data.len() >= DIGEST_LEN
    &&& body_decodable(data.subrange(0, data.len() - DIGEST_LEN))
    &&& data.subrange(data.len() - DIGEST_LEN, data.len() as int) != sha1_of(
        data.subrange(0, data.len() - DIGEST_LEN),
    )
}

/// `es` is what the index file `data` holds, in path order.
pub open spec fn index_file_of(data: Seq<u8>, es: Seq<EntryView>) -> bool {
    &&& valid_entries(es)
    &&& sorted_by_path(es)
    &&& index_bytes(es) == data
}

/// What a header and entries at the front of `data` that leave exactly a
/// trailer's room tell about its bytes.
proof fn lemma_body_facts(data: Seq<u8>, es: Seq<EntryView>)
    requires
        valid_entries(es),
        data.len() >= DIGEST_LEN,
        index_body(es) == data.subrange(0, data.len() - DIGEST_LEN),
    ensures
        index_body(es).len() + DIGEST_LEN == data.len(),
        data.subrange(0, 4) == signature(),
        read_be32(data.subrange(4, 8)) == INDEX_VERSION,
        read_be32(data.subrange(8, 12)) == es.len(),
        entries_at(data, 12, es.len()) == Some((es, data.len() - DIGEST_LEN)),
{
    assert(data.subrange(0, index_body(es).len() as int) =~= index_body(es));
    lemma_body_determines(es, data);
}

/// Reads an index file's 12-byte header and gives its entry count; a
/// format error when the file is shorter, or its signature is not `DIRC`
/// or its version not 2.
fn read_header(file: &mut ChecksummedFile) -> (r: Result<u32, Error>)
    requires
        old(file).wf(),
        old(file).position() == 0,
        old(file).digested() == Seq::<u8>::empty(),
    ensures
        final(file).wf(),
        final(file).data() == old(file).data(),
        ({
            let d = old(file).data();
            &&& r matches Ok(count) ==> {
                &&& final(file).position() == 12
                &&& final(file).digested() == d.subrange(0, 12)
                &&& d.subrange(0, 4) == signature()
                &&& read_be32(d.subrange(4, 8)) == INDEX_VERSION
                &&& count == read_be32(d.subrange(8, 12))
            }
            &&& r is Err ==> r == Err::<u32, Error>(Error::Format) && (d.len() < 12 || d.subrange(0, 4)
                != signature() || read_be32(d.subrange(4, 8)) != INDEX_VERSION)
        }),
{
    let ghost d = file.data();
    let header = match file.read_exact(12) {
        Some(h) => h,
        None => {
            return Err(Error::Format);
        },
    };
    assert(header@ == d.subrange(0, 12));
    assert(header@.subrange(4, 8) =~= d.subrange(4, 8));
    assert(header@.subrange(8, 12) =~= d.subrange(8, 12));
    let same_signature = header[0] == 68 && header[1] == 73 && header[2] == 82 && header[3] == 67;
    proof {
        if same_signature {
            assert(d.subrange(0, 4) =~= signature());
        } else {
            if d.subrange(0, 4) == signature() {
                assert(d.subrange(0, 4)[0] == header@[0]);
                assert(d.subrange(0, 4)[1] == header@[1]);
                assert(d.subrange(0, 4)[2] == header@[2]);
                assert(d.subrange(0, 4)[3] == header@[3]);
            }
        }
    }
    if !same_signature || get_be32(header.as_slice(), 4) != INDEX_VERSION {
        return Err(Error::Format);
    }
    assert(file.digested() =~= d.subrange(0, 12));
    Ok(get_be32(header.as_slice(), 8))
}

/// Reads the entries of an index file: its header, each entry, then the
/// trailer, which must be the digest of all before it and end the file.
#[verifier::loop_isolation(false)]
#[verifier::rlimit(60)]
fn load_entries(data: Vec<u8>) -> (r: Result<Vec<Entry>, Error>)
    requires
        data@.len() <= MAX_DIGEST_INPUT,
    ensures
        r matches Ok(es) ==> valid_entries(entries_view(es@)) && index_bytes(entries_view(es@))
            == data@,
        r matches Err(e) ==> (e is ChecksumMismatch && trailer_mismatch(data@)) || (e is Format
            && !trailer_mismatch(data@) && !index_decodable(data@)),
{
    let ghost d = data@;
    let ghost len = d.len();
    let ghost body = if len >= DIGEST_LEN {
        d.subrange(0, len - DIGEST_LEN)
    } else {
        Seq::<u8>::empty()
    };
    assert(trailer_mismatch(d) || index_decodable(d) ==> len >= DIGEST_LEN && body_decodable(body))
        by {
        if index_decodable(d) {
            let es = choose|es: Seq<EntryView>| valid_entries(es) && index_bytes(es) == d;
            assert(index_bytes(es).subrange(0, index_body(es).len() as int) =~= index_body(es));
        }
    }
    let mut file = ChecksummedFile::new(data);
    let count = match read_header(&mut file) {
        Ok(c) => c,
        Err(e) => {
            proof {
                if len >= DIGEST_LEN && body_decodable(body) {
                    let es = choose|es: Seq<EntryView>| valid_entries(es) && index_body(es) == body;
                    lemma_body_facts(d, es);
                }
            }
            return Err(e);
        },
    };
    let mut entries: Vec<Entry> = Vec::new();
    let mut i: u32 = 0;
    while i < count
        invariant
            file.wf(),
            file.data() == d,
            len == d.len(),
            i <= count,
            count == read_be32(d.subrange(8, 12)),
            entries_at(d, 12, i as nat) == Some((entries_view(entries@), file.position() as int)),
            file.digested() == d.subrange(0, file.position() as int),
            d.len() <= MAX_DIGEST_INPUT,
        decreases count - i,
    {
        let ghost p = file.position() as int;
        match Entry::read_from(&mut file) {
            Some(e) => {
                proof {
                    let (ev, q) = entry_at(d, p).unwrap();
                    assert(entries_view(entries@.push(e)) =~= entries_view(entries@).push(e@));
                    assert(d.subrange(0, q) =~= d.subrange(0, p) + d.subrange(p, q));
                }
                entries.push(e);
            },
            None => {
                proof {
                    if len >= DIGEST_LEN && body_decodable(body) {
                        let es = choose|es: Seq<EntryView>|
                            valid_entries(es) && index_body(es) == body;
                        lemma_body_facts(d, es);
                        lemma_entries_prefix(d, 12, es.len(), i as nat);
                    }
                }
                return Err(Error::Format);
            },
        }
        i = i + 1;
    }
    proof {
        lemma_entries_sound(d, 12, count as nat);
    }
    if file.remaining() != DIGEST_LEN {
        proof {
            if len >= DIGEST_LEN && body_decodable(body) {
                let es = choose|es: Seq<EntryView>| valid_entries(es) && index_body(es) == body;
                lemma_body_facts(d, es);
            }
        }
        return Err(Error::Format);
    }
    let ghost es = entries_view(entries@);
    proof {
        let p = file.position() as int;
        crate::encode::lemma_be32_round_trip(INDEX_VERSION);
        lemma_be32_bytes(d.subrange(4, 8));
        lemma_be32_bytes(d.subrange(8, 12));
        assert(d.subrange(0, p) =~= d.subrange(0, 4) + d.subrange(4, 8) + d.subrange(8, 12)
            + d.subrange(12, p));
        assert(index_body(es) == d.subrange(0, p));
        assert(body == d.subrange(0, p));
    }
    match file.verify_checksum() {
        Ok(true) => {
            proof {
                let p = file.position() as int;
                assert(d =~= d.subrange(0, len - DIGEST_LEN) + d.subrange(
                    len - DIGEST_LEN,
                    len as int,
                ));
            }
            Ok(entries)
        },
        Ok(false) => {
            proof {
                lemma_trailer_mismatch_shown(d, es);
            }
            Err(Error::ChecksumMismatch)
        },
        Err(e) => Err(e),
    }
}

/// Where the first `i` of `n` entries end, when all `n` read.
proof fn lemma_entries_prefix(b: Seq<u8>, pos: int, n: nat, i: nat)
    requires
        i <= n,
        entries_at(b, pos, n) is Some,
    ensures
        entries_at(b, pos, i) is Some,
        entries_at(b, pos, i) matches Some((es, q)) ==> entry_at(b, q) is Some || i == n,
    decreases n - i,
{
    if i < n {
        lemma_entries_prefix(b, pos, n, (i + 1) as nat);
    }
}

/// A file whose header and entries read as `es` and whose trailer is not
/// their digest has a trailer mismatch.
proof fn lemma_trailer_mismatch_shown(d: Seq<u8>, es: Seq<EntryView>)
    requires
        valid_entries(es),
        d.len() >= DIGEST_LEN,
        index_body(es) == d.subrange(0, d.len() - DIGEST_LEN),
        d.subrange(d.len() - DIGEST_LEN, d.len() as int) != sha1_of(index_body(es)),
    ensures
        trailer_mismatch(d),
{
}

/// Whether the entries are in strictly ascending path order.
fn in_path_order(es: &Vec<Entry>) -> (r: bool)
    ensures
        r == sorted_by_path(entries_view(es@)),
{
    let ghost v = entries_view(es@);
    if es.len() == 0 {
        return true;
    }
    let mut k: usize = 1;
    while k < es.len()
        invariant
            v == entries_view(es@),
            1 <= k <= es@.len(),
            forall|i: int, j: int|
                0 <= i < j < k ==> crate::path::bytes_lt(#[trigger] v[i].path, #[trigger] v[j].path),
        decreases es@.len() - k,
    {
        let a = es[k - 1].path.as_str().as_bytes();
        let b = es[k].path.as_str().as_bytes();
        if !crate::path::less_than(a, b) {
            assert(!sorted_by_path(v)) by {
                assert(v[k - 1].path == a@);
                assert(v[k as int].path == b@);
            }
            return false;
        }
        proof {
            assert(v[k - 1].path == a@);
            assert(v[k as int].path == b@);
            assert forall|i: int, j: int| 0 <= i < j < k + 1 implies crate::path::bytes_lt(
                #[trigger] v[i].path,
                #[trigger] v[j].path,
            ) by {
                if j == k && i < k - 1 {
                    crate::path::lemma_lt_transitive(v[i].path, v[k - 1].path, v[j].path);
                }
            }
        }
        k = k + 1;
    }
    true
}

pub struct Index {
    entries: Vec<Entry>,
    changed: bool,
}

impl Index {
    /// The staged entries, in path order.
    pub closed spec fn entries_spec(&self) -> Seq<EntryView> {
        entries_view(self.entries@)
    }

    /// Whether staging has changed the index since it was loaded.
    pub closed spec fn changed_spec(&self) -> bool {
        self.changed
    }

    pub open spec fn wf(&self) -> bool {
        &&& all_valid(self.entries_spec())
        &&& sorted_by_path(self.entries_spec())
    }

    /// An index with no entries.
    pub fn new() -> (r: Index)
        ensures
            r.wf(),
            r.entries_spec() == Seq::<EntryView>::empty(),
            !r.changed_spec(),
    {
        let r = Index { entries: Vec::new(), changed: false };
        assert(r.entries_spec() =~= Seq::<EntryView>::empty());
        r
    }

    /// The index that an index file holds; the empty index where there
    /// is no file. A file that does not parse, or whose entries are out of
    /// path order, is a format error; a trailer that is not the digest of
    /// the rest is a checksum mismatch.
    pub fn load(contents: Option<Vec<u8>>) -> (r: Result<Index, Error>)
        requires
            contents matches Some(data) ==> data@.len() <= MAX_DIGEST_INPUT,
        ensures
            r matches Ok(ix) ==> ix.wf() && !ix.changed_spec() && ix.entries_spec().len() <= u32::MAX,
            match contents {
                None => r matches Ok(ix) && ix.entries_spec() == Seq::<EntryView>::empty(),
                Some(data) => {
                    &&& r matches Ok(ix) ==> index_file_of(data@, ix.entries_spec())
                    &&& r matches Err(e) ==> (e is ChecksumMismatch && trailer_mismatch(data@)) || (
                    e is Format && !trailer_mismatch(data@) && forall|es: Seq<EntryView>|
                        !index_file_of(data@, es))
                },
            },
    {
        match contents {
            None => Ok(Index::new()),
            Some(data) => {
                let ghost d = data@;
                let entries = load_entries(data)?;
                if !in_path_order(&entries) {
                    proof {
                        assert forall|es: Seq<EntryView>| !index_file_of(d, es) by {
                            if index_file_of(d, es) {
                                lemma_index_bytes_injective(es, entries_view(entries@));
                            }
                        }
                        assert(!trailer_mismatch(d)) by {
                            lemma_trailer_mismatch_not_file(d, entries_view(entries@));
                        }
                    }
                    return Err(Error::Format);
                }
                Ok(Index { entries, changed: false })
            },
        }
    }

    /// The staged entries, in path order.
    pub fn iter(&self) -> (r: &[Entry])
        ensures
            entries_view(r@) == self.entries_spec(),
    {
        self.entries.as_slice()
    }

    /// The index file holding the staged entries; too large when their
    /// count does not fit the header or their header and entries exceed
    /// what the digest accepts.
    pub fn serialize(&self) -> (r: Result<Vec<u8>, Error>)
        requires
            self.wf(),
        ensures
            r matches Ok(b) ==> b@ == index_bytes(self.entries_spec()),
            r is Err <==> too_large(self.entries_spec()),
            r matches Err(e) ==> e is TooLarge,
    {
        let ghost es = self.entries_spec();
        if self.entries.len() > 0xffff_ffff {
            return Err(Error::TooLarge);
        }
        let mut file = ChecksummedFile::new(Vec::new());
        let mut header: Vec<u8> = Vec::new();
        header.push(68);
        header.push(73);
        header.push(82);
        header.push(67);
        push_be32(&mut header, INDEX_VERSION);
        push_be32(&mut header, self.entries.len() as u32);
        file.write(header.as_slice());
        proof {
            assert(header@ =~= signature() + be32(INDEX_VERSION) + be32(es.len() as u32));
            assert(entries_bytes(es.subrange(0, 0)) =~= Seq::<u8>::empty());
            assert(file.digested() =~= header@ + entries_bytes(es.subrange(0, 0)));
        }
        let mut i: usize = 0;
        while i < self.entries.len()
            invariant
                file.wf(),
                es == self.entries_spec(),
                i <= es.len(),
                file.data() == file.digested(),
                file.digested() == header@ + entries_bytes(es.subrange(0, i as int)),
                header@ == signature() + be32(INDEX_VERSION) + be32(es.len() as u32),
                file.digested().len() <= MAX_DIGEST_INPUT,
            decreases es.len() - i,
        {
            let b = self.entries[i].serialize();
            proof {
                assert(es.subrange(0, i + 1).drop_last() =~= es.subrange(0, i as int));
                assert(es.subrange(0, i + 1).last() == self.entries@[i as int]@);
            }
            if b.len() as u64 > MAX_DIGEST_INPUT - file.digested_len() as u64 {
                proof {
                    lemma_entries_bytes_prefix(es, (i + 1) as nat);
                    assert(index_body(es) =~= header@ + entries_bytes(es));
                }
                return Err(Error::TooLarge);
            }
            file.write(b.as_slice());
            proof {
                assert(file.digested() =~= header@ + entries_bytes(es.subrange(0, i + 1)));
            }
            i = i + 1;
        }
        proof {
            assert(es.subrange(0, es.len() as int) =~= es);
            assert(index_body(es) =~= file.digested());
        }
        file.write_hash();
        Ok(file.into_inner())
    }

    /// What `write_updates` hands to the held lock: nothing when staging
    /// changed nothing (the lock is then released untouched), else the
    /// new index file.
    pub fn write_updates(self) -> (r: Result<Option<Vec<u8>>, Error>)
        requires
            self.wf(),
        ensures
            !self.changed_spec() ==> r == Ok::<Option<Vec<u8>>, Error>(None),
            self.changed_spec() ==> (r is Err <==> too_large(self.entries_spec())),
            self.changed_spec() ==> match r {
                Ok(Some(b)) => b@ == index_bytes(self.entries_spec()),
                Ok(None) => false,
                Err(e) => e is TooLarge && too_large(self.entries_spec()),
            },
    {
        if !self.changed {
            return Ok(None);
        }
        let b = self.serialize()?;
        Ok(Some(b))
    }
}

/// Entries that no index file can hold: too many, or too long to digest.
pub open spec fn too_large(es: Seq<EntryView>) -> bool {
    es.len() > u32::MAX || index_body(es).len() > MAX_DIGEST_INPUT
}

/// The bytes of a prefix of the entries are a prefix of their bytes.
proof fn lemma_entries_bytes_prefix(es: Seq<EntryView>, n: nat)
    requires
        n <= es.len(),
    ensures
        entries_bytes(es.subrange(0, n as int)).len() <= entries_bytes(es).len(),
    decreases es.len() - n,
{
    if n < es.len() {
        lemma_entries_bytes_prefix(es, (n + 1) as nat);
        assert(es.subrange(0, n + 1 as int).drop_last() =~= es.subrange(0, n as int));
    } else {
        assert(es.subrange(0, n as int) =~= es);
    }
}

/// A file whose entries read, with a matching trailer, has no trailer mismatch.
proof fn lemma_trailer_mismatch_not_file(d: Seq<u8>, es: Seq<EntryView>)
    requires
        valid_entries(es),
        index_bytes(es) == d,
    ensures
        !trailer_mismatch(d),
{
    let body = d.subrange(0, d.len() - DIGEST_LEN);
    assert(body =~= index_body(es));
    if trailer_mismatch(d) {
        assert(d.subrange(d.len() - DIGEST_LEN, d.len() as int) =~= sha1_of(index_body(es)));
    }
}

/// The mode recorded for a file: executable when any execute bit is set.
pub open spec fn entry_mode(mode: u32) -> u32 {
    if mode & 0o111 != 0 {
        0o100755
    } else {
        0o100644
    }
}

/// The flags of an entry: its path length, capped at twelve bits.
pub open spec fn path_flags(len: nat) -> u16 {
    if len < 0xfff {
        len as u16
    } else {
        0xfff
    }
}

/// A path and an object id in hexadecimal that an entry can record.
pub open spec fn stageable(rel_path: Seq<char>, oid_hex: Seq<u8>) -> bool {
    &&& oid_hex.len() == 40
    &&& is_hex(oid_hex)
    &&& nul_free(encode_utf8(rel_path))
}

/// The entry that staging records for a file: its stat fields cut to 32
/// bits, its mode, the object id and its path.
pub open spec fn staged_entry(rel_path: Seq<char>, oid_hex: Seq<u8>, st: FileStat) -> EntryView {
    EntryView {
        stat: seq![
            st.ctime as u32,
            st.ctime_nsec as u32,
            st.mtime as u32,
            st.mtime_nsec as u32,
            st.dev as u32,
            st.ino as u32,
            entry_mode(st.mode),
            st.uid,
            st.gid,
            st.size as u32,
        ],
        oid: bytes_of_hex(oid_hex),
        flags: path_flags(encode_utf8(rel_path).len()),
        path: encode_utf8(rel_path),
    }
}

/// Staging `e` into `before` gives `after`: `e` goes in, and out go any
/// entry at its path, any entry at a directory that holds it, and any entry
/// below it.
pub open spec fn staged_into(before: Seq<EntryView>, e: EntryView, after: Seq<EntryView>) -> bool {
    forall|x: EntryView|
        #![trigger after.contains(x)]
        #![trigger before.contains(x)]
        after.contains(x) <==> (x == e || (before.contains(x) && !paths_conflict(x.path, e.path)
            && x.path != e.path))
}

/// Entries that survive staging at path `p`.
pub open spec fn survives(x: EntryView, p: Seq<u8>) -> bool {
    !paths_conflict(x.path, p) && x.path != p
}

fn nul_free_bytes(b: &[u8]) -> (r: bool)
    ensures
        r == nul_free(b@),
{
    let mut i: usize = 0;
    while i < b.len()
        invariant
            i <= b@.len(),
            forall|k: int| 0 <= k < i ==> b@[k] != 0,
        decreases b@.len() - i,
    {
        if b[i] == 0 {
            return false;
        }
        i = i + 1;
    }
    true
}

impl Entry {
    /// The entry for the workspace file `file` with object id `oid` (40
    /// hexadecimal digits) and metadata `stat`; an invalid entry when the
    /// id is malformed or the path holds a NUL byte.
    fn new(file: &WorkspacePath, oid: &str, stat: &FileStat) -> (r: Result<Entry, Error>)
        ensures
            r is Ok <==> stageable(file.rel_path_spec(), oid.spec_bytes()),
            r matches Ok(e) ==> e@ == staged_entry(file.rel_path_spec(), oid.spec_bytes(), *stat),
            r matches Err(e) ==> e is InvalidEntry,
    {
        let hex = oid.as_bytes();
        if hex.len() != 40 {
            return Err(Error::InvalidEntry);
        }
        let raw = match crate::hex::from_hex(hex) {
            Some(v) => v,
            None => {
                return Err(Error::InvalidEntry);
            },
        };
        let path = file.rel_path().clone();
        let pb = path.as_str().as_bytes();
        if !nul_free_bytes(pb) {
            return Err(Error::InvalidEntry);
        }
        let flags: u16 = if pb.len() < MAX_PATH_SIZE as usize {
            pb.len() as u16
        } else {
            MAX_PATH_SIZE
        };
        let mode: u32 = if stat.mode & 0o111 != 0 {
            0o100755
        } else {
            0o100644
        };
        let e = Entry {
            ctime: stat.ctime as u32,
            ctime_nsec: stat.ctime_nsec as u32,
            mtime: stat.mtime as u32,
            mtime_nsec: stat.mtime_nsec as u32,
            dev: stat.dev as u32,
            ino: stat.ino as u32,
            mode,
            uid: stat.uid,
            gid: stat.gid,
            size: stat.size as u32,
            oid: raw,
            flags,
            path,
        };
        assert(e@.stat =~= staged_entry(file.rel_path_spec(), oid.spec_bytes(), *stat).stat);
        Ok(e)
    }
}

impl Index {
    /// Removes every entry that staging a file at `p` displaces.
    fn discard_conflicts(&mut self, p: &[u8])
        requires
            old(self).wf(),
        ensures
            final(self).wf(),
            final(self).changed_spec() == old(self).changed_spec(),
            forall|x: EntryView|
                #![trigger final(self).entries_spec().contains(x)]
                final(self).entries_spec().contains(x) <==> (old(self).entries_spec().contains(x)
                    && survives(x, p@)),
    {
        let ghost orig = self.entries_spec();
        let mut rest: Vec<Entry> = Vec::new();
        std::mem::swap(&mut self.entries, &mut rest);
        let ghost n = rest@.len();
        assert(entries_view(rest@) =~= orig);
        while rest.len() > 0
            invariant
                n == orig.len(),
                rest@.len() <= n,
                entries_view(rest@) == orig.subrange(n - rest@.len(), n as int),
                all_valid(orig),
                sorted_by_path(orig),
                self.changed_spec() == old(self).changed_spec(),
                sorted_by_path(self.entries_spec()),
                self.entries_spec().len() <= n - rest@.len(),
                forall|x: EntryView|
                    #![trigger self.entries_spec().contains(x)]
                    self.entries_spec().contains(x) ==> orig.subrange(
                        0,
                        n - rest@.len(),
                    ).contains(x) && survives(x, p@),
                forall|j: int|
                    0 <= j < n - rest@.len() && survives(orig[j], p@) ==> #[trigger] self.entries_spec().contains(
                        orig[j],
                    ),
            decreases rest@.len(),
        {
            let ghost k = n - rest@.len();
            let ghost before = self.entries_spec();
            let ghost rb = entries_view(rest@);
            assert(rb[0] == orig[k]);
            let e = rest.remove(0);
            assert(e@ == orig[k]);
            assert(entries_view(rest@) =~= rb.subrange(1, rb.len() as int));
            assert(entries_view(rest@) =~= orig.subrange(n - rest@.len(), n as int));
            let path = e.path.as_str().as_bytes();
            let conflict = crate::path::dir_prefix(path, p) || crate::path::dir_prefix(p, path)
                || crate::path::bytes_equal(path, p);
            if !conflict {
                self.entries.push(e);
                proof {
                    let after = self.entries_spec();
                    assert(after =~= before.push(orig[k]));
                    assert forall|a: int, b: int| 0 <= a < b < after.len() implies bytes_lt(
                        #[trigger] after[a].path,
                        #[trigger] after[b].path,
                    ) by {
                        if b == after.len() - 1 {
                            assert(before.contains(before[a]));
                            let j = choose|j: int|
                                0 <= j < k && orig.subrange(0, k)[j] == before[a];
                            assert(orig[j] == before[a]);
                        }
                    }
                    assert forall|x: EntryView| #[trigger] after.contains(x) implies orig.subrange(
                        0,
                        k + 1,
                    ).contains(x) && survives(x, p@) by {
                        let i = choose|i: int| 0 <= i < after.len() && after[i] == x;
                        if i < before.len() {
                            assert(before.contains(x));
                            let j = choose|j: int| 0 <= j < k && orig.subrange(0, k)[j] == x;
                            assert(orig.subrange(0, k + 1)[j] == x);
                        } else {
                            assert(orig.subrange(0, k + 1)[k] == x);
                        }
                    }
                    assert forall|j: int| 0 <= j < k + 1 && survives(orig[j], p@) implies #[trigger] after.contains(
                        orig[j],
                    ) by {
                        if j == k {
                            assert(after[after.len() - 1] == orig[j]);
                        } else {
                            assert(before.contains(orig[j]));
                            let i = choose|i: int| 0 <= i < before.len() && before[i] == orig[j];
                            assert(after[i] == orig[j]);
                        }
                    }
                }
            } else {
                proof {
                    assert(!survives(orig[k], p@));
                    assert forall|x: EntryView| #[trigger] before.contains(x) implies orig.subrange(
                        0,
                        k + 1,
                    ).contains(x) && survives(x, p@) by {
                        let j = choose|j: int| 0 <= j < k && orig.subrange(0, k)[j] == x;
                        assert(orig.subrange(0, k + 1)[j] == x);
                    }
                }
            }
        }
        proof {
            let fin = self.entries_spec();
            assert(orig.subrange(0, n as int) =~= orig);
            assert(all_valid(fin)) by {
                assert forall|i: int| 0 <= i < fin.len() implies valid_entry(#[trigger] fin[i]) by {
                    assert(fin.contains(fin[i]));
                }
            }
            assert forall|x: EntryView| #![trigger fin.contains(x)] fin.contains(x) <==> (
            orig.contains(x) && survives(x, p@)) by {
                if orig.contains(x) && survives(x, p@) {
                    let j = choose|j: int| 0 <= j < orig.len() && orig[j] == x;
                }
            }
        }
    }
}


impl Index {
    /// Stages the workspace file `file` with object id `oid` and metadata
    /// `stat`: its entry replaces any at the same path, and entries at
    /// directories that hold it or below it are dropped. An invalid entry,
    /// leaving the index as it was, when the id is not 40 hexadecimal
    /// digits or the path holds a NUL byte.
    pub fn add(&mut self, file: &WorkspacePath, oid: &str, stat: &FileStat) -> (r: Result<(), Error>)
        requires
            old(self).wf(),
        ensures
            final(self).wf(),
            r is Ok <==> stageable(file.rel_path_spec(), oid.spec_bytes()),
            r is Ok ==> final(self).changed_spec() && staged_into(
                old(self).entries_spec(),
                staged_entry(file.rel_path_spec(), oid.spec_bytes(), *stat),
                final(self).entries_spec(),
            ),
            r matches Err(e) ==> e is InvalidEntry && final(self).entries_spec() == old(
                self,
            ).entries_spec() && final(self).changed_spec() == old(self).changed_spec(),
    {
        let entry = match Entry::new(file, oid, stat) {
            Ok(e) => e,
            Err(e) => {
                return Err(e);
            },
        };
        let ghost ev = entry@;
        let ghost before = self.entries_spec();
        self.discard_conflicts(entry.path.as_str().as_bytes());
        let ghost mid = self.entries_spec();
        let mut k: usize = 0;
        while k < self.entries.len() && crate::path::less_than(
            self.entries[k].path.as_str().as_bytes(),
            entry.path.as_str().as_bytes(),
        )
            invariant
                mid == self.entries_spec(),
                ev == entry@,
                k <= mid.len(),
                forall|i: int| 0 <= i < k ==> bytes_lt(#[trigger] mid[i].path, ev.path),
            decreases mid.len() - k,
        {
            k = k + 1;
        }
        proof {
            if k < mid.len() {
                assert(!bytes_lt(mid[k as int].path, ev.path));
                assert(mid.contains(mid[k as int]));
                assert(mid[k as int].path != ev.path);
                crate::path::lemma_lt_total(mid[k as int].path, ev.path);
            }
        }
        self.entries.insert(k, entry);
        self.changed = true;
        proof {
            let fin = self.entries_spec();
            assert(fin =~= mid.insert(k as int, ev));
            assert forall|a: int, b: int| 0 <= a < b < fin.len() implies bytes_lt(
                #[trigger] fin[a].path,
                #[trigger] fin[b].path,
            ) by {
                if b == k {
                } else if a == k {
                    if b - 1 > k {
                        crate::path::lemma_lt_transitive(ev.path, mid[k as int].path, mid[b - 1].path);
                    }
                } else if a < k && b > k {
                    if b - 1 > k {
                        crate::path::lemma_lt_transitive(ev.path, mid[k as int].path, mid[b - 1].path);
                    }
                    crate::path::lemma_lt_transitive(mid[a].path, ev.path, mid[b - 1].path);
                } else if a > k {
                    assert(fin[a] == mid[a - 1] && fin[b] == mid[b - 1]);
                }
            }
            assert forall|i: int| 0 <= i < fin.len() implies valid_entry(#[trigger] fin[i]) by {
                if i != k {
                    if i < k {
                        assert(fin[i] == mid[i]);
                    } else {
                        assert(fin[i] == mid[i - 1]);
                    }
                } else {
                    vstd::utf8::encode_utf8_valid_utf8(file.rel_path_spec());
                }
            }
            assert forall|x: EntryView| #[trigger] fin.contains(x) <==> (x == ev || mid.contains(x)) by {
                if fin.contains(x) {
                    let i = choose|i: int| 0 <= i < fin.len() && fin[i] == x;
                    if i < k {
                        assert(mid[i] == x);
                    } else if i > k {
                        assert(mid[i - 1] == x);
                    }
                }
                if mid.contains(x) && x != ev {
                    let i = choose|i: int| 0 <= i < mid.len() && mid[i] == x;
                    if i < k {
                        assert(fin[i] == x);
                    } else {
                        assert(fin[i + 1] == x);
                    }
                }
                if x == ev {
                    assert(fin[k as int] == x);
                }
            }
            assert(staged_into(before, ev, fin)) by {
                assert forall|x: EntryView| fin.contains(x) <==> (x == ev || (before.contains(x)
                    && !paths_conflict(x.path, ev.path) && x.path != ev.path)) by {
                    assert(fin.contains(x) <==> (x == ev || mid.contains(x)));
                    assert(mid.contains(x) <==> (before.contains(x) && survives(x, ev.path)));
                }
            }
        }
        Ok(())
    }
}

/// Two entry lists in strict path order that hold the same entries are
/// the same list.
pub proof fn lemma_sorted_unique(a: Seq<EntryView>, b: Seq<EntryView>)
    requires
        sorted_by_path(a),
        sorted_by_path(b),
        forall|x: EntryView| a.contains(x) <==> b.contains(x),
    ensures
        a == b,
    decreases a.len(),
{
    if a.len() == 0 {
        if b.len() > 0 {
            assert(b.contains(b[0]));
        }
        assert(a =~= b);
    } else if b.len() == 0 {
        assert(a.contains(a[0]));
    } else {
        assert(a.contains(a[0]));
        assert(b.contains(b[0]));
        let j = choose|j: int| 0 <= j < b.len() && b[j] == a[0];
        let i = choose|i: int| 0 <= i < a.len() && a[i] == b[0];
        if j > 0 {
            if i > 0 {
                crate::path::lemma_lt_asymmetric(a[0].path, a[i].path);
            } else {
                crate::path::lemma_lt_irreflexive(b[0].path);
            }
        }
        assert(a[0] == b[0]);
        let a1 = a.drop_first();
        let b1 = b.drop_first();
        assert forall|x: EntryView| a1.contains(x) <==> b1.contains(x) by {
            if a1.contains(x) {
                let p = choose|p: int| 0 <= p < a1.len() && a1[p] == x;
                assert(a[p + 1] == x);
                assert(a.contains(x));
                let q = choose|q: int| 0 <= q < b.len() && b[q] == x;
                if q == 0 {
                    crate::path::lemma_lt_irreflexive(a[0].path);
                }
                assert(b1[q - 1] == x);
            }
            if b1.contains(x) {
                let p = choose|p: int| 0 <= p < b1.len() && b1[p] == x;
                assert(b[p + 1] == x);
                assert(b.contains(x));
                let q = choose|q: int| 0 <= q < a.len() && a[q] == x;
                if q == 0 {
                    crate::path::lemma_lt_irreflexive(b[0].path);
                }
                assert(a1[q - 1] == x);
            }
        }
        lemma_sorted_unique(a1, b1);
        assert(a =~= seq![a[0]] + a1);
        assert(b =~= seq![b[0]] + b1);
    }
}

/// Emitting an index file and parsing it back gives the entries emitted:
/// the file of `es` is an index file of `es`, of no other list, and its
/// trailer verifies.
pub proof fn lemma_index_round_trip(es: Seq<EntryView>, other: Seq<EntryView>)
    requires
        valid_entries(es),
        sorted_by_path(es),
    ensures
        index_file_of(index_bytes(es), es),
        !trailer_mismatch(index_bytes(es)),
        index_file_of(index_bytes(es), other) ==> other == es,
{
    lemma_trailer_mismatch_not_file(index_bytes(es), es);
    if index_file_of(index_bytes(es), other) {
        lemma_index_bytes_injective(other, es);
    }
}

/// Staging the same entry twice leaves the index as the first staging
/// left it, so both write the same index file.
pub proof fn lemma_add_idempotent(
    s0: Seq<EntryView>,
    s1: Seq<EntryView>,
    s2: Seq<EntryView>,
    e: EntryView,
)
    requires
        sorted_by_path(s1),
        sorted_by_path(s2),
        staged_into(s0, e, s1),
        staged_into(s1, e, s2),
    ensures
        s2 == s1,
        index_bytes(s2) == index_bytes(s1),
{
    assert forall|x: EntryView| s1.contains(x) <==> s2.contains(x) by {
        if s1.contains(x) && x != e {
            assert(s0.contains(x) && !paths_conflict(x.path, e.path) && x.path != e.path);
        }
    }
    lemma_sorted_unique(s1, s2);
}

/// Staging a file drops every entry at a directory that holds it: after
/// staging `a/b`, no entry remains at `a`.
pub proof fn lemma_add_drops_parent(s0: Seq<EntryView>, e: EntryView, s1: Seq<EntryView>, q: Seq<u8>)
    requires
        staged_into(s0, e, s1),
        crate::path::is_dir_prefix(q, e.path),
    ensures
        forall|i: int| 0 <= i < s1.len() ==> (#[trigger] s1[i]).path != q,
{
    assert forall|i: int| 0 <= i < s1.len() implies (#[trigger] s1[i]).path != q by {
        assert(s1.contains(s1[i]));
    }
}

/// After staging, no entry is at a directory that holds another, or below
/// it, as far as the staged path is concerned.
pub proof fn lemma_add_leaves_no_conflict(s0: Seq<EntryView>, e: EntryView, s1: Seq<EntryView>)
    requires
        staged_into(s0, e, s1),
    ensures
        s1.contains(e),
        forall|i: int| 0 <= i < s1.len() && s1[i] != e ==> !paths_conflict(#[trigger] s1[i].path, e.path)
            && s1[i].path != e.path,
{
    assert forall|i: int| 0 <= i < s1.len() && s1[i] != e implies !paths_conflict(
        #[trigger] s1[i].path,
        e.path,
    ) && s1[i].path != e.path by {
        assert(s1.contains(s1[i]));
    }
}

} // verus!
