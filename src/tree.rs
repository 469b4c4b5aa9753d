//! Building the nested directory trees of a commit from a flat list of
//! staged files, and their payloads and identifiers.
//!
//! The tree is an arena: node 0 is the root, and every subdirectory is a
//! node with a larger index than the node that lists it, so computing
//! identifiers from the last node to the first visits every directory after
//! all of its subdirectories.

use vstd::prelude::*;
use vstd::string::StringSliceAdditionalSpecFns;
use vstd::utf8::encode_utf8;

use crate::error::Error;
use crate::hex::{bytes_of_hex, is_hex};
use crate::object::{hash_object, object_id, Object, ObjectType, MAX_PAYLOAD};
use crate::path::bytes_lt;

verus! {

/// What a staged file contributes to a tree: its path's bytes, its mode
/// bits and its raw object id.
pub struct FileView {
    pub path: Seq<u8>,
    pub mode: u32,
    pub oid: Seq<u8>,
}

/// A child in a directory listing: a subdirectory's node, or a file.
pub enum ChildView {
    Dir(int),
    File(FileView),
}

/// The listings of all nodes, each child with its name.
pub type TreeView = Seq<Seq<(Seq<u8>, ChildView)>>;

/// A file to be placed in a tree.
pub struct TreeFile {
    rel_path: String,
    oid: Vec<u8>,
    mode: u32,
}

pub enum TreeEntry {
    Tree(usize),
    File(TreeFile),
}

pub struct TreeChild {
    name: Vec<u8>,
    entry: TreeEntry,
}

pub struct Tree {
    nodes: Vec<Vec<TreeChild>>,
}

/// A tree object ready to store: its identifier and payload.
pub struct StoredTree {
    pub oid: Vec<u8>,
    pub payload: Vec<u8>,
}

impl View for TreeFile {
    type V = FileView;

    closed spec fn view(&self) -> FileView {
        FileView { path: encode_utf8(self.rel_path@), mode: self.mode, oid: self.oid@ }
    }
}

impl View for TreeEntry {
    type V = ChildView;

    open spec fn view(&self) -> ChildView {
        match self {
            TreeEntry::Tree(j) => ChildView::Dir(*j as int),
            TreeEntry::File(f) => ChildView::File(f@),
        }
    }
}

pub closed spec fn child_view(c: TreeChild) -> (Seq<u8>, ChildView) {
    (c.name@, c.entry@)
}

pub open spec fn node_view(n: Vec<TreeChild>) -> Seq<(Seq<u8>, ChildView)> {
    n@.map_values(|c: TreeChild| child_view(c))
}

impl View for Tree {
    type V = TreeView;

    closed spec fn view(&self) -> TreeView {
        self.nodes@.map_values(|n: Vec<TreeChild>| node_view(n))
    }
}

/// The nodes of a tree: a root, every subdirectory after the node that
/// lists it, and no name twice in one listing.
pub open spec fn well_formed(t: TreeView) -> bool {
    &&& t.len() >= 1
    &&& forall|i: int, k: int|
        0 <= i < t.len() && 0 <= k < t[i].len() ==> match #[trigger] t[i][k].1 {
            ChildView::Dir(j) => i < j < t.len(),
            ChildView::File(_) => true,
        }
    &&& forall|i: int, k: int, m: int|
        0 <= i < t.len() && 0 <= k < m < t[i].len() ==> #[trigger] t[i][k].0 != #[trigger] t[i][m].0
}

/// The mode text of a file: `100755` when any execute bit is set, else
/// `100644`.
pub open spec fn file_mode(mode: u32) -> Seq<u8> {
    if mode & 0o111 != 0 {
        seq![49u8, 48u8, 48u8, 55u8, 53u8, 53u8]
    } else {
        seq![49u8, 48u8, 48u8, 54u8, 52u8, 52u8]
    }
}

/// The mode text of a directory: `40000`.
pub open spec fn dir_mode() -> Seq<u8> {
    seq![52u8, 48u8, 48u8, 48u8, 48u8]
}

/// One record of a tree payload.
pub open spec fn record(mode: Seq<u8>, name: Seq<u8>, oid: Seq<u8>) -> Seq<u8> {
    mode + seq![32u8] + name + seq![0u8] + oid
}

/// The payload of node `i`: a record for each child, in listing order.
pub open spec fn node_payload(t: TreeView, i: int) -> Seq<u8>
    decreases t.len() - i, t[i].len() + 1,
    when 0 <= i < t.len()
{
    children_payload(t, i, t[i].len() as int)
}

/// The records of the first `k` children of node `i`.
pub open spec fn children_payload(t: TreeView, i: int, k: int) -> Seq<u8>
    decreases t.len() - i, k,
    when 0 <= i < t.len() && 0 <= k <= t[i].len()
{
    if k == 0 {
        seq![]
    } else {
        let (name, child) = t[i][k - 1];
        let rec = match child {
            ChildView::File(f) => record(file_mode(f.mode), name, f.oid),
            ChildView::Dir(j) => if i < j < t.len() {
                record(dir_mode(), name, object_id(ObjectType::Tree, node_payload(t, j)))
            } else {
                seq![]
            },
        };
        children_payload(t, i, k - 1) + rec
    }
}

/// The identifier of node `i`'s tree object.
pub open spec fn node_id(t: TreeView, i: int) -> Seq<u8> {
    object_id(ObjectType::Tree, node_payload(t, i))
}

/// Whether `p` holds a slash.
pub open spec fn has_slash(p: Seq<u8>) -> bool {
    exists|k: int| 0 <= k < p.len() && p[k] == 47
}

/// The components of a path: the pieces between its slashes.
#[verifier::opaque]
pub open spec fn components(p: Seq<u8>) -> Seq<Seq<u8>>
    decreases p.len(),
{
    if has_slash(p) {
        let k = choose|k: int| 0 <= k < p.len() && p[k] == 47 && !has_slash(p.subrange(0, k));
        if 0 <= k < p.len() {
            seq![p.subrange(0, k)] + components(p.subrange(k + 1, p.len() as int))
        } else {
            seq![p]
        }
    } else {
        seq![p]
    }
}

/// A component that names something: not empty, `.` or `..`.
pub open spec fn canonical(c: Seq<u8>) -> bool {
    &&& c.len() > 0
    &&& c != seq![46u8]
    &&& c != seq![46u8, 46u8]
}

pub open spec fn all_canonical(cs: Seq<Seq<u8>>) -> bool {
    forall|i: int| 0 <= i < cs.len() ==> canonical(#[trigger] cs[i])
}

/// The first slash of a path whose earlier bytes hold none.
proof fn lemma_first_slash(p: Seq<u8>, k: int)
    requires
        0 <= k < p.len(),
        p[k] == 47,
        !has_slash(p.subrange(0, k)),
    ensures
        components(p) == seq![p.subrange(0, k)] + components(p.subrange(k + 1, p.len() as int)),
{
    reveal(components);
    let c = choose|c: int| 0 <= c < p.len() && p[c] == 47 && !has_slash(p.subrange(0, c));
    assert(c == k) by {
        if c < k {
            assert(p.subrange(0, k)[c] == 47);
        } else if c > k {
            assert(p.subrange(0, c)[k] == 47);
        }
    }
}

/// The components of the path `p`.
fn split_path(p: &[u8]) -> (r: Vec<Vec<u8>>)
    ensures
        byte_views(r@) == components(p@),
{
    let mut comps: Vec<Vec<u8>> = Vec::new();
    let mut start: usize = 0;
    let mut i: usize = 0;
    assert(byte_views(comps@) =~= Seq::<Seq<u8>>::empty());
    assert(p@.subrange(0, p@.len() as int) =~= p@);
    assert(p@.subrange(0, 0) =~= Seq::<u8>::empty());
    while i < p.len()
        invariant
            start <= i <= p@.len(),
            !has_slash(p@.subrange(start as int, i as int)),
            components(p@) == byte_views(comps@) + components(
                p@.subrange(start as int, p@.len() as int),
            ),
        decreases p@.len() - i,
    {
        if p[i] == 47 {
            let c = crate::encode::copy_range(p, start, i);
            proof {
                let rest = p@.subrange(start as int, p@.len() as int);
                assert(rest.subrange(0, i - start) =~= p@.subrange(start as int, i as int));
                lemma_first_slash(rest, i - start);
                assert(rest.subrange(i - start + 1, rest.len() as int) =~= p@.subrange(
                    i + 1,
                    p@.len() as int,
                ));
            }
            comps.push(c);
            proof {
                assert(byte_views(comps@) =~= byte_views(comps@.drop_last()).push(c@));
            }
            start = i + 1;
            assert(p@.subrange(start as int, start as int) =~= Seq::<u8>::empty());
        } else {
            proof {
                let sub = p@.subrange(start as int, i + 1);
                assert forall|k: int| 0 <= k < sub.len() implies sub[k] != 47 by {
                    if k < i - start {
                        assert(sub[k] == p@.subrange(start as int, i as int)[k]);
                    }
                }
            }
        }
        i = i + 1;
    }
    let c = crate::encode::copy_range(p, start, p.len());
    proof {
        let rest = p@.subrange(start as int, p@.len() as int);
        assert(!has_slash(rest));
        reveal(components);
        assert(components(rest) == seq![rest]);
    }
    let ghost before = byte_views(comps@);
    comps.push(c);
    assert(byte_views(comps@) =~= before.push(c@));
    assert(components(p@) == byte_views(comps@)) by {
        reveal(components);
    }
    comps
}

/// The byte strings that a list of byte vectors holds.
pub open spec fn byte_views(v: Seq<Vec<u8>>) -> Seq<Seq<u8>> {
    Seq::new(v.len(), |i: int| v[i]@)
}

/// Where `name` stands in a listing.
pub open spec fn find_name(ch: Seq<(Seq<u8>, ChildView)>, name: Seq<u8>) -> Option<int> {
    if exists|k: int| 0 <= k < ch.len() && ch[k].0 == name {
        Some(choose|k: int| 0 <= k < ch.len() && ch[k].0 == name)
    } else {
        None
    }
}

/// The tree `t` with the file `leaf` placed at `dirs` and then `name`
/// below node `i`: missing directories are created at the end of their
/// parent's listing, a file already at `name` is replaced, and a file
/// where a directory is needed, or a directory at `name`, is a conflict.
pub open spec fn place(
    t: TreeView,
    i: int,
    dirs: Seq<Seq<u8>>,
    name: Seq<u8>,
    leaf: FileView,
) -> Result<TreeView, Error>
    decreases dirs.len(),
{
    if dirs.len() == 0 {
        match find_name(t[i], name) {
            None => Ok(t.update(i, t[i].push((name, ChildView::File(leaf))))),
            Some(k) => match t[i][k].1 {
                ChildView::File(_) => Ok(t.update(i, t[i].update(k, (name, ChildView::File(leaf))))),
                ChildView::Dir(_) => Err(Error::DirectoryConflict),
            },
        }
    } else {
        match find_name(t[i], dirs[0]) {
            None => {
                let j = t.len() as int;
                place(
                    t.update(i, t[i].push((dirs[0], ChildView::Dir(j)))).push(seq![]),
                    j,
                    dirs.drop_first(),
                    name,
                    leaf,
                )
            },
            Some(k) => match t[i][k].1 {
                ChildView::Dir(j) => place(t, j, dirs.drop_first(), name, leaf),
                ChildView::File(_) => Err(Error::DirectoryConflict),
            },
        }
    }
}

/// The tree `t` with the file `f` placed at its path; an invalid entry
/// when a component of the path is empty, `.` or `..`.
pub open spec fn insert_file(t: TreeView, f: FileView) -> Result<TreeView, Error> {
    let cs = components(f.path);
    if !all_canonical(cs) || cs.len() == 0 {
        Err(Error::InvalidEntry)
    } else {
        place(t, 0, cs.drop_last(), cs.last(), f)
    }
}

/// The tree `t` with the files placed one after another; the first
/// failure ends it.
pub open spec fn insert_all(t: TreeView, files: Seq<FileView>) -> Result<TreeView, Error>
    decreases files.len(),
{
    if files.len() == 0 {
        Ok(t)
    } else {
        match insert_file(t, files[0]) {
            Ok(t2) => insert_all(t2, files.drop_first()),
            Err(e) => Err(e),
        }
    }
}

/// A root with no children.
pub open spec fn empty_tree() -> TreeView {
    seq![seq![]]
}

impl TreeFile {
    /// A file at `rel_path` with object id `oid` (40 hexadecimal digits)
    /// and mode bits `mode`; an invalid entry when the id is malformed.
    pub fn new(rel_path: &str, oid: &str, mode: u32) -> (r: Result<TreeFile, Error>)
        ensures
            r is Ok <==> oid.spec_bytes().len() == 40 && is_hex(oid.spec_bytes()),
            r matches Ok(f) ==> f@ == (FileView {
                path: rel_path.spec_bytes(),
                mode,
                oid: bytes_of_hex(oid.spec_bytes()),
            }),
            r matches Err(e) ==> e is InvalidEntry,
    {
        let hex = oid.as_bytes();
        if hex.len() != 40 {
            return Err(Error::InvalidEntry);
        }
        match crate::hex::from_hex(hex) {
            Some(raw) => Ok(TreeFile { rel_path: rel_path.to_owned(), oid: raw, mode }),
            None => Err(Error::InvalidEntry),
        }
    }

    /// The file's mode text: `100755` when any execute bit is set, else
    /// `100644`.
    pub fn mode(&self) -> (r: Vec<u8>)
        ensures
            r@ == file_mode(self@.mode),
    {
        let r = if self.mode & 0o111 != 0 {
            vec![49u8, 48u8, 48u8, 55u8, 53u8, 53u8]
        } else {
            vec![49u8, 48u8, 48u8, 54u8, 52u8, 52u8]
        };
        assert(r@ =~= file_mode(self@.mode));
        r
    }

    /// The directories that lead to the file, outermost first, and its
    /// name; an invalid entry when a component of its path is empty, `.`
    /// or `..`.
    fn split(&self) -> (r: Result<(Vec<Vec<u8>>, Vec<u8>), Error>)
        ensures
            r is Ok <==> all_canonical(components(self@.path)),
            r matches Ok((dirs, name)) ==> components(self@.path).len() > 0 && byte_views(dirs@)
                == components(self@.path).drop_last() && name@ == components(self@.path).last(),
            r matches Err(e) ==> e is InvalidEntry,
    {
        let mut comps = split_path(self.rel_path.as_str().as_bytes());
        let ghost cs = components(self@.path);
        assert(byte_views(comps@) == cs);
        let mut i: usize = 0;
        while i < comps.len()
            invariant
                cs == components(self@.path),
                byte_views(comps@) == cs,
                i <= comps@.len(),
                forall|k: int| 0 <= k < i ==> canonical(#[trigger] cs[k]),
            decreases comps@.len() - i,
        {
            let c = comps[i].as_slice();
            assert(c@ == cs[i as int]);
            if c.len() == 0 || (c.len() == 1 && c[0] == 46) || (c.len() == 2 && c[0] == 46 && c[1]
                == 46) {
                proof {
                    if c@.len() == 1 {
                        assert(c@ =~= seq![46u8]);
                    }
                    if c@.len() == 2 {
                        assert(c@ =~= seq![46u8, 46u8]);
                    }
                    assert(!canonical(cs[i as int]));
                    assert(!all_canonical(cs));
                }
                return Err(Error::InvalidEntry);
            }
            proof {
                if c@ == seq![46u8] {
                    assert(c@.len() == 1);
                }
                if c@ == seq![46u8, 46u8] {
                    assert(c@.len() == 2);
                }
            }
            i = i + 1;
        }
        if comps.len() == 0 {
            proof {
                reveal(components);
            }
            return Err(Error::InvalidEntry);
        }
        let name = comps.pop().unwrap();
        assert(byte_views(comps@) =~= cs.drop_last());
        Ok((comps, name))
    }

    /// The directories that lead to the file, outermost first; an invalid
    /// entry when a component of its path is empty, `.` or `..`.
    pub fn ancestors(&self) -> (r: Result<Vec<Vec<u8>>, Error>)
        ensures
            r is Ok <==> all_canonical(components(self@.path)),
            r matches Ok(dirs) ==> byte_views(dirs@) == components(self@.path).drop_last(),
            r matches Err(e) ==> e is InvalidEntry,
    {
        match self.split() {
            Ok((dirs, _name)) => Ok(dirs),
            Err(e) => Err(e),
        }
    }
}

impl Tree {
    /// A tree holding only an empty root.
    pub fn new() -> (r: Tree)
        ensures
            r@ == empty_tree(),
            well_formed(r@),
    {
        let mut nodes: Vec<Vec<TreeChild>> = Vec::new();
        let root: Vec<TreeChild> = Vec::new();
        assert(node_view(root) =~= Seq::<(Seq<u8>, ChildView)>::empty());
        nodes.push(root);
        let r = Tree { nodes };
        assert(r@ =~= empty_tree());
        r
    }

    /// Where `name` stands in the listing of node `i`.
    fn find_child(&self, i: usize, name: &[u8]) -> (r: Option<usize>)
        requires
            well_formed(self@),
            i < self@.len(),
        ensures
            r is None <==> find_name(self@[i as int], name@) is None,
            r matches Some(k) ==> find_name(self@[i as int], name@) == Some(k as int) && k
                < self@[i as int].len() && self@[i as int][k as int].0 == name@,
    {
        let node = &self.nodes[i];
        let ghost ch = self@[i as int];
        assert(ch == node_view(*node));
        let mut k: usize = 0;
        while k < node.len()
            invariant
                ch == node_view(*node),
                well_formed(self@),
                ch == self@[i as int],
                i < self@.len(),
                k <= node@.len(),
                forall|m: int| 0 <= m < k ==> ch[m].0 != name@,
            decreases node@.len() - k,
        {
            assert(ch[k as int].0 == node@[k as int].name@);
            if crate::path::bytes_equal(node[k].name.as_slice(), name) {
                proof {
                    assert(ch[k as int].0 == name@);
                    let c = choose|c: int| 0 <= c < ch.len() && ch[c].0 == name@;
                    if c != k {
                        if c < k {
                            assert(self@[i as int][c].0 != self@[i as int][k as int].0);
                        } else {
                            assert(self@[i as int][k as int].0 != self@[i as int][c].0);
                        }
                    }
                }
                return Some(k);
            }
            k = k + 1;
        }
        None
    }
}


impl Tree {
    /// Places `entry` at `parents` and then `name`, creating the
    /// directories that are missing.
    #[verifier::rlimit(40)]
    fn add_entry(&mut self, parents: &Vec<Vec<u8>>, name: Vec<u8>, entry: TreeFile) -> (r: Result<
        (),
        Error,
    >)
        requires
            well_formed(old(self)@),
        ensures
            match place(old(self)@, 0, byte_views(parents@), name@, entry@) {
                Ok(t) => r is Ok && final(self)@ == t && well_formed(t),
                Err(e) => r == Err::<(), Error>(e) && final(self)@ == old(self)@,
            },
    {
        let ghost t0 = self@;
        let ghost ps = byte_views(parents@);
        let ghost leaf = entry@;
        let mut i: usize = 0;
        let mut d: usize = 0;
        assert(ps.subrange(0, ps.len() as int) =~= ps);
        while d < parents.len()
            invariant
                t0 == old(self)@,
                well_formed(self@),
                i < self@.len(),
                self@ == t0 || self@[i as int].len() == 0,
                d <= ps.len(),
                ps == byte_views(parents@),
                leaf == entry@,
                place(t0, 0, ps, name@, leaf) == place(
                    self@,
                    i as int,
                    ps.subrange(d as int, ps.len() as int),
                    name@,
                    leaf,
                ),
            decreases ps.len() - d,
        {
            let ghost t = self@;
            let ghost rest = ps.subrange(d as int, ps.len() as int);
            assert(rest[0] == parents@[d as int]@);
            assert(rest.drop_first() =~= ps.subrange(d + 1, ps.len() as int));
            match self.find_child(i, parents[d].as_slice()) {
                None => {
                    let j = self.nodes.len();
                    let comp = crate::encode::copy_range(parents[d].as_slice(), 0, parents[d].len());
                    assert(comp@ =~= rest[0]);
                    let child = TreeChild { name: comp, entry: TreeEntry::Tree(j) };
                    let ghost old_node = self.nodes@[i as int];
                    self.nodes[i].push(child);
                    proof {
                        assert(node_view(self.nodes@[i as int]) =~= node_view(old_node).push(
                            child_view(child),
                        ));
                    }
                    let ghost mid = self@;
                    assert(mid =~= t.update(i as int, t[i as int].push((rest[0], ChildView::Dir(j as int)))));
                    let empty: Vec<TreeChild> = Vec::new();
                    assert(node_view(empty) =~= Seq::<(Seq<u8>, ChildView)>::empty());
                    self.nodes.push(empty);
                    proof {
                        let t2 = self@;
                        assert(t2 =~= mid.push(seq![]));
                        assert forall|a: int, k: int|
                            0 <= a < t2.len() && 0 <= k < t2[a].len() implies match #[trigger] t2[a][k].1 {
                            ChildView::Dir(jj) => a < jj < t2.len(),
                            ChildView::File(_) => true,
                        } by {
                            if a != i {
                                assert(t2[a] == t[a]);
                            } else if k < t[a].len() {
                                assert(t2[a][k] == t[a][k]);
                            }
                        }
                        assert forall|a: int, k: int, m: int|
                            0 <= a < t2.len() && 0 <= k < m < t2[a].len() implies #[trigger] t2[a][k].0
                            != #[trigger] t2[a][m].0 by {
                            if a == i && m == t[a].len() {
                                assert(t2[a][k] == t[a][k]);
                            } else if a != i {
                                assert(t2[a] == t[a]);
                            } else {
                                assert(t2[a][k] == t[a][k]);
                                assert(t2[a][m] == t[a][m]);
                            }
                        }
                    }
                    i = j;
                },
                Some(k) => {
                    match &self.nodes[i][k].entry {
                        TreeEntry::Tree(j) => {
                            assert(t[i as int][k as int].1 == ChildView::Dir(*j as int));
                            i = *j;
                        },
                        TreeEntry::File(_) => {
                            assert(t[i as int][k as int].1 is File);
                            assert(rest.len() != 0);
                            assert(find_name(t[i as int], rest[0]) == Some(k as int));
                            assert(place(t, i as int, rest, name@, leaf) == Err::<TreeView, Error>(
                                Error::DirectoryConflict,
                            ));
                            return Err(Error::DirectoryConflict);
                        },
                    }
                },
            }
            d = d + 1;
        }
        let ghost t = self@;
        assert(ps.subrange(d as int, ps.len() as int) =~= Seq::<Seq<u8>>::empty());
        match self.find_child(i, name.as_slice()) {
            None => {
                let ghost nm = name@;
                let child = TreeChild { name, entry: TreeEntry::File(entry) };
                let ghost old_node = self.nodes@[i as int];
                self.nodes[i].push(child);
                proof {
                    assert(node_view(self.nodes@[i as int]) =~= node_view(old_node).push(
                        child_view(child),
                    ));
                    let t2 = self@;
                    assert(t2 =~= t.update(i as int, t[i as int].push((nm, ChildView::File(leaf)))));
                    assert forall|a: int, k: int|
                        0 <= a < t2.len() && 0 <= k < t2[a].len() implies match #[trigger] t2[a][k].1 {
                        ChildView::Dir(jj) => a < jj < t2.len(),
                        ChildView::File(_) => true,
                    } by {
                        if a != i {
                            assert(t2[a] == t[a]);
                        } else if k < t[a].len() {
                            assert(t2[a][k] == t[a][k]);
                        }
                    }
                    assert forall|a: int, k: int, m: int|
                        0 <= a < t2.len() && 0 <= k < m < t2[a].len() implies #[trigger] t2[a][k].0
                        != #[trigger] t2[a][m].0 by {
                        if a == i && m == t[a].len() {
                            assert(t2[a][k] == t[a][k]);
                        } else if a != i {
                            assert(t2[a] == t[a]);
                        } else {
                            assert(t2[a][k] == t[a][k]);
                            assert(t2[a][m] == t[a][m]);
                        }
                    }
                }
                Ok(())
            },
            Some(k) => {
                let is_file = match &self.nodes[i][k].entry {
                    TreeEntry::File(_) => true,
                    TreeEntry::Tree(_) => false,
                };
                if !is_file {
                    assert(t[i as int][k as int].1 is Dir);
                    return Err(Error::DirectoryConflict);
                }
                let ghost nm = name@;
                assert(t[i as int][k as int].1 is File);
                assert(t[i as int][k as int].0 == nm);
                let child = TreeChild { name, entry: TreeEntry::File(entry) };
                let ghost old_node = self.nodes@[i as int];
                self.nodes[i].remove(k);
                self.nodes[i].insert(k, child);
                proof {
                    assert(self.nodes@[i as int]@ =~= old_node@.update(k as int, child));
                    assert(node_view(self.nodes@[i as int]) =~= node_view(old_node).update(
                        k as int,
                        child_view(child),
                    ));
                    let t2 = self@;
                    assert(t2 =~= t.update(i as int, t[i as int].update(k as int, (nm, ChildView::File(leaf)))));
                    assert forall|a: int, kk: int|
                        0 <= a < t2.len() && 0 <= kk < t2[a].len() implies match #[trigger] t2[a][kk].1 {
                        ChildView::Dir(jj) => a < jj < t2.len(),
                        ChildView::File(_) => true,
                    } by {
                        if a != i {
                            assert(t2[a] == t[a]);
                        } else if kk != k {
                            assert(t2[a][kk] == t[a][kk]);
                        }
                    }
                    assert forall|a: int, kk: int, m: int|
                        0 <= a < t2.len() && 0 <= kk < m < t2[a].len() implies #[trigger] t2[a][kk].0
                        != #[trigger] t2[a][m].0 by {
                        if a != i {
                            assert(t2[a] == t[a]);
                        } else {
                            assert(t2[a][kk].0 == t[a][kk].0);
                            assert(t2[a][m].0 == t[a][m].0);
                        }
                    }
                }
                Ok(())
            },
        }
    }
}

/// Where a file goes among files in path order: after every file whose
/// path does not sort after its own.
pub open spec fn sorted_position(s: Seq<FileView>, f: FileView) -> int
    decreases s.len(),
{
    if s.len() == 0 {
        0
    } else if bytes_lt(f.path, s[0].path) {
        0
    } else {
        1 + sorted_position(s.drop_first(), f)
    }
}

/// The files in path order; files at the same path keep their order.
pub open spec fn sort_files(files: Seq<FileView>) -> Seq<FileView>
    decreases files.len(),
{
    if files.len() == 0 {
        seq![]
    } else {
        let s = sort_files(files.drop_last());
        s.insert(sorted_position(s, files.last()), files.last())
    }
}

pub open spec fn file_views(v: Seq<TreeFile>) -> Seq<FileView> {
    Seq::new(v.len(), |i: int| v[i]@)
}

/// The tree that building from `files` gives: the files in path order,
/// placed one after another into an empty root.
pub open spec fn build_spec(files: Seq<FileView>) -> Result<TreeView, Error> {
    insert_all(empty_tree(), sort_files(files))
}

/// Every node's payload is small enough to store.
pub open spec fn payloads_fit(t: TreeView) -> bool {
    forall|i: int| 0 <= i < t.len() ==> (#[trigger] node_payload(t, i)).len() <= MAX_PAYLOAD
}

proof fn lemma_position_skip(s: Seq<FileView>, f: FileView, p: int)
    requires
        0 <= p <= s.len(),
        forall|m: int| 0 <= m < p ==> !bytes_lt(f.path, #[trigger] s[m].path),
    ensures
        sorted_position(s, f) == p + sorted_position(s.subrange(p, s.len() as int), f),
    decreases p,
{
    if p == 0 {
        assert(s.subrange(0, s.len() as int) =~= s);
    } else {
        let d = s.drop_first();
        assert forall|m: int| 0 <= m < p - 1 implies !bytes_lt(f.path, #[trigger] d[m].path) by {
            assert(d[m] == s[m + 1]);
        }
        lemma_position_skip(d, f, p - 1);
        assert(d.subrange(p - 1, d.len() as int) =~= s.subrange(p, s.len() as int));
    }
}

/// The files in path order, keeping the order of files at the same path.
fn sort_by_path(files: Vec<TreeFile>) -> (r: Vec<TreeFile>)
    ensures
        file_views(r@) == sort_files(file_views(files@)),
{
    let ghost all = file_views(files@);
    let ghost n = files@.len();
    let mut rest = files;
    let mut out: Vec<TreeFile> = Vec::new();
    assert(file_views(out@) =~= sort_files(all.subrange(0, 0)));
    assert(file_views(rest@) =~= all.subrange(0, n as int));
    while rest.len() > 0
        invariant
            n == all.len(),
            rest@.len() <= n,
            file_views(rest@) == all.subrange(n - rest@.len(), n as int),
            file_views(out@) == sort_files(all.subrange(0, n - rest@.len())),
        decreases rest@.len(),
    {
        let ghost k = n - rest@.len();
        let ghost rv = file_views(rest@);
        let f = rest.remove(0);
        assert(f@ == rv[0]);
        assert(file_views(rest@) =~= rv.subrange(1, rv.len() as int));
        assert(file_views(rest@) =~= all.subrange(n - rest@.len(), n as int));
        let ghost ov = file_views(out@);
        let mut p: usize = 0;
        while p < out.len() && !crate::path::less_than(
            f.rel_path.as_str().as_bytes(),
            out[p].rel_path.as_str().as_bytes(),
        )
            invariant
                ov == file_views(out@),
                p <= out@.len(),
                forall|m: int| 0 <= m < p ==> !bytes_lt(f@.path, #[trigger] ov[m].path),
            decreases out@.len() - p,
        {
            assert(ov[p as int].path == out@[p as int]@.path);
            p = p + 1;
        }
        proof {
            lemma_position_skip(ov, f@, p as int);
            if p < ov.len() {
                assert(ov[p as int].path == out@[p as int]@.path);
            }
            let pre = all.subrange(0, k + 1);
            assert(pre.drop_last() =~= all.subrange(0, k));
            assert(pre.last() == f@);
        }
        out.insert(p, f);
        assert(file_views(out@) =~= ov.insert(p as int, f@));
    }
    assert(all.subrange(0, n as int) =~= all);
    out
}

impl Tree {
    /// The tree of `entries`: the files in path order, each placed below
    /// the directories of its path, which are created as first needed. An
    /// invalid entry when a path has an empty, `.` or `..` component; a
    /// conflict when a path passes through a file, or names a directory.
    pub fn build(entries: Vec<TreeFile>) -> (r: Result<Tree, Error>)
        ensures
            match build_spec(file_views(entries@)) {
                Ok(t) => r matches Ok(tree) && tree@ == t && well_formed(t),
                Err(e) => r matches Err(e2) && e2 == e,
            },
    {
        let ghost files = sort_files(file_views(entries@));
        let mut rest = sort_by_path(entries);
        let ghost n = rest@.len();
        let mut root = Tree::new();
        assert(file_views(rest@).subrange(0, n as int) =~= files);
        while rest.len() > 0
            invariant
                n == files.len(),
                rest@.len() <= n,
                file_views(rest@) == files.subrange(n - rest@.len(), n as int),
                well_formed(root@),
                build_spec(file_views(entries@)) == insert_all(root@, file_views(rest@)),
                files == sort_files(file_views(entries@)),
            decreases rest@.len(),
        {
            let ghost rv = file_views(rest@);
            let f = rest.remove(0);
            assert(f@ == rv[0]);
            assert(file_views(rest@) =~= rv.drop_first());
            let (dirs, name) = match f.split() {
                Ok(parts) => parts,
                Err(e) => {
                    return Err(e);
                },
            };
            match root.add_entry(&dirs, name, f) {
                Ok(()) => {},
                Err(e) => {
                    return Err(e);
                },
            }
        }
        assert(file_views(rest@) =~= Seq::<FileView>::empty());
        Ok(root)
    }
}

impl Tree {
    /// The payload of node `i`, from the identifiers of the nodes after it
    /// (`done[q]` belongs to node `len - 1 - q`).
    fn payload_of(&self, i: usize, done: &Vec<StoredTree>) -> (r: Vec<u8>)
        requires
            well_formed(self@),
            i < self@.len(),
            done@.len() == self@.len() - 1 - i,
            forall|q: int|
                0 <= q < done@.len() ==> (#[trigger] done@[q]).oid@ == node_id(
                    self@,
                    self@.len() - 1 - q,
                ),
        ensures
            r@ == node_payload(self@, i as int),
    {
        let ghost t = self@;
        let n = self.nodes.len();
        let node = &self.nodes[i];
        assert(t[i as int] == node_view(*node));
        let mut out: Vec<u8> = Vec::new();
        let mut k: usize = 0;
        while k < node.len()
            invariant
                t == self@,
                n == t.len(),
                well_formed(t),
                i < n,
                t[i as int] == node_view(*node),
                done@.len() == n - 1 - i,
                forall|q: int|
                    0 <= q < done@.len() ==> (#[trigger] done@[q]).oid@ == node_id(t, n - 1 - q),
                k <= node@.len(),
                out@ == children_payload(t, i as int, k as int),
            decreases node@.len() - k,
        {
            let child = &node[k];
            assert(t[i as int][k as int] == child_view(*child));
            let ghost before = out@;
            match &child.entry {
                TreeEntry::File(f) => {
                    let m = f.mode();
                    out.extend_from_slice(m.as_slice());
                    out.push(32);
                    out.extend_from_slice(child.name.as_slice());
                    out.push(0);
                    out.extend_from_slice(f.oid.as_slice());
                    assert(out@ =~= before + record(file_mode(f@.mode), child.name@, f@.oid));
                },
                TreeEntry::Tree(j) => {
                    let j = *j;
                    assert(t[i as int][k as int].1 == ChildView::Dir(j as int));
                    let q = n - 1 - j;
                    let oid = &done[q];
                    out.extend_from_slice(vec![52u8, 48u8, 48u8, 48u8, 48u8].as_slice());
                    out.push(32);
                    out.extend_from_slice(child.name.as_slice());
                    out.push(0);
                    out.extend_from_slice(oid.oid.as_slice());
                    assert(out@ =~= before + record(dir_mode(), child.name@, node_id(t, j as int)));
                },
            }
            k = k + 1;
        }
        out
    }

    /// The tree objects of every directory, each directory after all of
    /// its subdirectories and the root last; too large when a payload
    /// exceeds what an object may hold.
    pub fn traverse(&self) -> (r: Result<Vec<StoredTree>, Error>)
        requires
            well_formed(self@),
        ensures
            r is Ok <==> payloads_fit(self@),
            r matches Ok(v) ==> v@.len() == self@.len() && forall|q: int|
                0 <= q < v@.len() ==> (#[trigger] v@[q]).payload@ == node_payload(
                    self@,
                    self@.len() - 1 - q,
                ) && v@[q].oid@ == node_id(self@, self@.len() - 1 - q),
            r matches Err(e) ==> e is TooLarge,
    {
        let n = self.nodes.len();
        let mut done: Vec<StoredTree> = Vec::new();
        while done.len() < n
            invariant
                n == self@.len(),
                well_formed(self@),
                done@.len() <= n,
                forall|q: int|
                    0 <= q < done@.len() ==> (#[trigger] done@[q]).payload@ == node_payload(
                        self@,
                        n - 1 - q,
                    ) && done@[q].oid@ == node_id(self@, n - 1 - q),
                forall|q: int|
                    0 <= q < done@.len() ==> (#[trigger] node_payload(self@, n - 1 - q)).len()
                        <= MAX_PAYLOAD,
            decreases n - done@.len(),
        {
            let i = n - 1 - done.len();
            let payload = self.payload_of(i, &done);
            let oid = match hash_object(ObjectType::Tree, payload.as_slice()) {
                Ok(id) => id,
                Err(e) => {
                    assert(!payloads_fit(self@)) by {
                        assert(node_payload(self@, i as int).len() > MAX_PAYLOAD);
                    }
                    return Err(e);
                },
            };
            done.push(StoredTree { oid, payload });
        }
        proof {
            assert forall|i: int| 0 <= i < n implies (#[trigger] node_payload(self@, i)).len()
                <= MAX_PAYLOAD by {
                let q = n - 1 - i;
                assert(node_payload(self@, n - 1 - q).len() <= MAX_PAYLOAD);
            }
        }
        Ok(done)
    }
}

impl Object for Tree {
    open spec fn inv(&self) -> bool {
        well_formed(self@)
    }

    open spec fn kind(&self) -> ObjectType {
        ObjectType::Tree
    }

    /// The root's payload.
    open spec fn payload(&self) -> Seq<u8> {
        node_payload(self@, 0)
    }

    open spec fn computable(&self) -> bool {
        payloads_fit(self@)
    }

    fn object_type(&self) -> (r: ObjectType) {
        ObjectType::Tree
    }

    fn content(&self) -> (r: Result<Vec<u8>, Error>) {
        let mut all = self.traverse()?;
        let root = all.pop().unwrap();
        Ok(root.payload)
    }
}

/// No two of the files share a path.
pub open spec fn distinct_paths(files: Seq<FileView>) -> bool {
    forall|i: int, j: int|
        0 <= i < files.len() && 0 <= j < files.len() && i != j ==> #[trigger] files[i].path
            != #[trigger] files[j].path
}

/// Files in strictly ascending path order.
pub open spec fn strictly_sorted(files: Seq<FileView>) -> bool {
    forall|i: int, j: int|
        0 <= i < j < files.len() ==> bytes_lt(#[trigger] files[i].path, #[trigger] files[j].path)
}

proof fn lemma_position_props(s: Seq<FileView>, f: FileView)
    ensures
        0 <= sorted_position(s, f) <= s.len(),
        forall|m: int| 0 <= m < sorted_position(s, f) ==> !bytes_lt(f.path, #[trigger] s[m].path),
        sorted_position(s, f) < s.len() ==> bytes_lt(f.path, s[sorted_position(s, f)].path),
    decreases s.len(),
{
    if s.len() > 0 && !bytes_lt(f.path, s[0].path) {
        let d = s.drop_first();
        lemma_position_props(d, f);
        assert forall|m: int| 0 <= m < sorted_position(s, f) implies !bytes_lt(
            f.path,
            #[trigger] s[m].path,
        ) by {
            if m > 0 {
                assert(s[m] == d[m - 1]);
            }
        }
    }
}

/// Sorting files with distinct paths orders them strictly and keeps
/// exactly the same files.
proof fn lemma_sort_props(files: Seq<FileView>)
    requires
        distinct_paths(files),
    ensures
        strictly_sorted(sort_files(files)),
        sort_files(files).to_multiset() == files.to_multiset(),
    decreases files.len(),
{
    broadcast use vstd::seq_lib::to_multiset_contains;

    if files.len() == 0 {
        assert(sort_files(files).to_multiset() =~= files.to_multiset());
    } else {
        let init = files.drop_last();
        let f = files.last();
        assert(distinct_paths(init)) by {
            assert forall|i: int, j: int|
                0 <= i < init.len() && 0 <= j < init.len() && i != j implies #[trigger] init[i].path
                != #[trigger] init[j].path by {
                assert(init[i] == files[i] && init[j] == files[j]);
            }
        }
        lemma_sort_props(init);
        let s = sort_files(init);
        let p = sorted_position(s, f);
        lemma_position_props(s, f);
        let r = s.insert(p, f);
        assert(r == sort_files(files));
        vstd::seq_lib::to_multiset_insert(s, p, f);
        vstd::seq_lib::to_multiset_build(init, f);
        assert(init.push(f) =~= files);
        assert forall|m: int| 0 <= m < s.len() implies #[trigger] s[m].path != f.path by {
            assert(s.contains(s[m]));
            assert(s.to_multiset().count(s[m]) > 0);
            assert(init.contains(s[m]));
            let k = choose|k: int| 0 <= k < init.len() && init[k] == s[m];
            assert(files[k] == init[k]);
            assert(files[files.len() - 1] == f);
        }
        assert forall|i: int, j: int| 0 <= i < j < r.len() implies bytes_lt(
            #[trigger] r[i].path,
            #[trigger] r[j].path,
        ) by {
            if j < p {
                assert(r[i] == s[i] && r[j] == s[j]);
            } else if j == p {
                assert(r[i] == s[i]);
                crate::path::lemma_lt_total(f.path, s[i].path);
            } else if i == p {
                assert(r[j] == s[j - 1]);
                if j - 1 > p {
                    crate::path::lemma_lt_transitive(f.path, s[p].path, s[j - 1].path);
                }
            } else if i < p {
                assert(r[i] == s[i] && r[j] == s[j - 1]);
            } else {
                assert(r[i] == s[i - 1] && r[j] == s[j - 1]);
            }
        }
    }
}

/// Two strictly ordered file lists that hold the same files are equal.
proof fn lemma_strictly_sorted_unique(a: Seq<FileView>, b: Seq<FileView>)
    requires
        strictly_sorted(a),
        strictly_sorted(b),
        forall|x: FileView| a.contains(x) <==> b.contains(x),
    ensures
        a == b,
    decreases a.len(),
{
    if a.len() == 0 {
        if b.len() > 0 {
            assert(b.contains(b[0]));
        }
        assert(a =~= b);
    } else if b.len() == 0 {
        assert(a.contains(a[0]));
    } else {
        assert(a.contains(a[0]));
        assert(b.contains(b[0]));
        let j = choose|j: int| 0 <= j < b.len() && b[j] == a[0];
        let i = choose|i: int| 0 <= i < a.len() && a[i] == b[0];
        if j > 0 {
            if i > 0 {
                crate::path::lemma_lt_asymmetric(a[0].path, a[i].path);
            } else {
                crate::path::lemma_lt_irreflexive(b[0].path);
            }
        }
        assert(a[0] == b[0]);
        let a1 = a.drop_first();
        let b1 = b.drop_first();
        assert forall|x: FileView| a1.contains(x) <==> b1.contains(x) by {
            if a1.contains(x) {
                let p = choose|p: int| 0 <= p < a1.len() && a1[p] == x;
                assert(a[p + 1] == x);
                assert(a.contains(x));
                let q = choose|q: int| 0 <= q < b.len() && b[q] == x;
                if q == 0 {
                    crate::path::lemma_lt_irreflexive(a[0].path);
                }
                assert(b1[q - 1] == x);
            }
            if b1.contains(x) {
                let p = choose|p: int| 0 <= p < b1.len() && b1[p] == x;
                assert(b[p + 1] == x);
                assert(b.contains(x));
                let q = choose|q: int| 0 <= q < a.len() && a[q] == x;
                if q == 0 {
                    crate::path::lemma_lt_irreflexive(b[0].path);
                }
                assert(a1[q - 1] == x);
            }
        }
        lemma_strictly_sorted_unique(a1, b1);
        assert(a =~= seq![a[0]] + a1);
        assert(b =~= seq![b[0]] + b1);
    }
}

/// The trees built from a set of files with distinct paths, and so the
/// root tree id, depend on the files alone: not on the order they come
/// in, nor on the run or the machine.
pub proof fn lemma_build_deterministic(a: Seq<FileView>, b: Seq<FileView>)
    requires
        distinct_paths(a),
        distinct_paths(b),
        a.to_multiset() == b.to_multiset(),
    ensures
        build_spec(a) == build_spec(b),
        build_spec(a) matches Ok(t) ==> node_id(t, 0) == node_id(build_spec(b)->Ok_0, 0),
{
    broadcast use vstd::seq_lib::to_multiset_contains;

    lemma_sort_props(a);
    lemma_sort_props(b);
    let sa = sort_files(a);
    let sb = sort_files(b);
    assert forall|x: FileView| sa.contains(x) <==> sb.contains(x) by {
        assert(sa.to_multiset().count(x) == sb.to_multiset().count(x));
    }
    lemma_strictly_sorted_unique(sa, sb);
}

} // verus!
