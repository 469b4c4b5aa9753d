//! The working tree as the library sees it: paths relative to its root,
//! the names that listing skips, and the metadata recorded at staging.

use vstd::prelude::*;

use crate::error::Error;
use crate::text::{chars_of, join};

verus! {

/// The path of `full` relative to `root`, both absolute and canonical:
/// empty for the root itself, the part after `root` and a slash for a path
/// below it, nothing for a path elsewhere. A root that ends in a slash
/// (the file system root) is followed directly by the rest.
pub open spec fn relative_to(root: Seq<char>, full: Seq<char>) -> Option<Seq<char>> {
    if full == root {
        Some(Seq::empty())
    } else {
        let prefix = if root.len() > 0 && root.last() == '/' {
            root
        } else {
            root.push('/')
        };
        if prefix.len() <= full.len() && full.subrange(0, prefix.len() as int) == prefix {
            Some(full.subrange(prefix.len() as int, full.len() as int))
        } else {
            None
        }
    }
}

/// Whether `pat` occurs in `s`.
pub open spec fn occurs_in(pat: Seq<char>, s: Seq<char>) -> bool {
    exists|i: int| 0 <= i && i + pat.len() <= s.len() && #[trigger] s.subrange(i, i + pat.len()) == pat
}

/// Names that listing the working tree skips: `.git` and `target`, and any
/// name holding `.swp` or `.un~`.
pub open spec fn ignored_name(name: Seq<char>) -> bool {
    ||| name == seq!['.', 'g', 'i', 't']
    ||| name == seq!['t', 'a', 'r', 'g', 'e', 't']
    ||| occurs_in(seq!['.', 's', 'w', 'p'], name)
    ||| occurs_in(seq!['.', 'u', 'n', '~'], name)
}

/// File metadata as staging records it.
#[derive(Clone, Copy, Debug)]
pub struct FileStat {
    pub ctime: i64,
    pub ctime_nsec: i64,
    pub mtime: i64,
    pub mtime_nsec: i64,
    pub dev: u64,
    pub ino: u64,
    pub mode: u32,
    pub uid: u32,
    pub gid: u32,
    pub size: u64,
}

pub struct Workspace {
    root: String,
}

pub struct WorkspacePath {
    root: String,
    rel_path: String,
}

impl Workspace {
    pub closed spec fn root_spec(&self) -> Seq<char> {
        self.root@
    }

    /// A workspace rooted at the canonical absolute path `path`.
    pub fn new(path: &str) -> (r: Self)
        ensures
            r.root_spec() == path@,
    {
        Workspace { root: path.to_owned() }
    }

    pub fn root(&self) -> (r: &str)
        ensures
            r@ == self.root_spec(),
    {
        self.root.as_str()
    }

    /// The workspace path of `full_path`, a canonical absolute path;
    /// an error when it lies outside the workspace.
    pub fn path(&self, full_path: &str) -> (r: Result<WorkspacePath, Error>)
        ensures
            match relative_to(self.root_spec(), full_path@) {
                Some(rel) => r matches Ok(p) && p.rel_path_spec() == rel && p.root_spec()
                    == self.root_spec(),
                None => r == Err::<WorkspacePath, Error>(Error::OutsideWorkspace),
            },
    {
        let root = self.root.as_str();
        if str_eq(full_path, root) {
            return Ok(WorkspacePath { root: self.root.clone(), rel_path: String::new() });
        }
        let ends_in_slash = root.unicode_len() > 0 && last_is_slash(root);
        let prefix = if ends_in_slash {
            root.to_owned()
        } else {
            proof {
                reveal_strlit("/");
                assert("/"@ =~= seq!['/']);
            }
            root.to_owned().concat("/")
        };
        assert(prefix@ =~= if self.root@.len() > 0 && self.root@.last() == '/' {
            self.root@
        } else {
            self.root@.push('/')
        });
        let full = chars_of(full_path);
        let pre = chars_of(prefix.as_str());
        if pre.len() > full.len() || !chars_eq(&slice_chars(&full, pre.len()), &pre) {
            return Err(Error::OutsideWorkspace);
        }
        let rest = full_path.substring_char(pre.len(), full.len());
        Ok(WorkspacePath { root: self.root.clone(), rel_path: rest.to_owned() })
    }

    /// Whether listing the working tree skips an entry named `name`.
    pub fn is_ignored(name: &str) -> (r: bool)
        ensures
            r == ignored_name(name@),
    {
        let chars = chars_of(name);
        proof {
            reveal_strlit(".git");
        }
        let a = chars_eq(&chars, &chars_of(".git"));
        let b = chars_eq(&chars, &chars_of("target"));
        let c = contains(&chars, &chars_of(".swp"));
        let d = contains(&chars, &chars_of(".un~"));
        proof {
            reveal_strlit("target");
            reveal_strlit(".swp");
            reveal_strlit(".un~");
            assert(".git"@ =~= seq!['.', 'g', 'i', 't']);
            assert("target"@ =~= seq!['t', 'a', 'r', 'g', 'e', 't']);
            assert(".swp"@ =~= seq!['.', 's', 'w', 'p']);
            assert(".un~"@ =~= seq!['.', 'u', 'n', '~']);
        }
        a || b || c || d
    }
}

/// The texts that a list of strings holds.
pub open spec fn texts(v: Seq<String>) -> Seq<Seq<char>> {
    Seq::new(v.len(), |i: int| v[i]@)
}

/// Directory entry names that listing keeps.
pub open spec fn listed(names: Seq<Seq<char>>) -> Seq<Seq<char>> {
    names.filter(|n: Seq<char>| !ignored_name(n))
}

impl Workspace {
    /// The names of a directory's entries that listing descends into or
    /// reports, in their order: all but the ignored ones.
    pub fn visible(names: Vec<String>) -> (r: Vec<String>)
        ensures
            texts(r@) == listed(texts(names@)),
    {
        let ghost all = texts(names@);
        let ghost n = names@.len();
        let mut rest = names;
        let mut out: Vec<String> = Vec::new();
        assert(all.subrange(0, 0) =~= Seq::<Seq<char>>::empty());
        assert(texts(out@) =~= listed(all.subrange(0, 0)));
        assert(texts(rest@) =~= all.subrange(0, n as int));
        while rest.len() > 0
            invariant
                n == all.len(),
                rest@.len() <= n,
                texts(rest@) == all.subrange(n - rest@.len(), n as int),
                texts(out@) == listed(all.subrange(0, n - rest@.len())),
            decreases rest@.len(),
        {
            let ghost k = n - rest@.len();
            let ghost rv = texts(rest@);
            let name = rest.remove(0);
            assert(name@ == rv[0]);
            assert(texts(rest@) =~= rv.subrange(1, rv.len() as int));
            assert(texts(rest@) =~= all.subrange(n - rest@.len(), n as int));
            let ghost before = texts(out@);
            assert(all.subrange(0, k + 1).drop_last() =~= all.subrange(0, k));
            assert(all.subrange(0, k + 1).last() == name@);
            let ghost cur = all.subrange(0, k + 1);
            proof {
                reveal(Seq::filter);
            }
            if !Workspace::is_ignored(name.as_str()) {
                out.push(name);
                assert(texts(out@) =~= before.push(rv[0]));
                assert(listed(cur) == listed(cur.drop_last()).push(cur.last()));
            } else {
                assert(listed(cur) == listed(cur.drop_last()));
            }
        }
        assert(all.subrange(0, n as int) =~= all);
        out
    }
}

impl WorkspacePath {
    pub closed spec fn root_spec(&self) -> Seq<char> {
        self.root@
    }

    pub closed spec fn rel_path_spec(&self) -> Seq<char> {
        self.rel_path@
    }

    /// The path relative to the workspace root, with forward slashes.
    pub fn rel_path(&self) -> (r: &String)
        ensures
            r@ == self.rel_path_spec(),
    {
        &self.rel_path
    }

    /// The absolute path: the root, a slash unless the root ends in one,
    /// and the relative path; the root itself for the empty relative path.
    pub fn path(&self) -> (r: String)
        ensures
            self.rel_path_spec().len() == 0 ==> r@ == self.root_spec(),
            self.rel_path_spec().len() > 0 ==> relative_to(self.root_spec(), r@) == Some(
                self.rel_path_spec(),
            ),
    {
        if self.rel_path.as_str().unicode_len() == 0 {
            return self.root.clone();
        }
        let root = self.root.as_str();
        let full = if root.unicode_len() > 0 && last_is_slash(root) {
            root.to_owned().concat(self.rel_path.as_str())
        } else {
            proof {
                reveal_strlit("/");
                assert("/"@ =~= seq!['/']);
            }
            root.to_owned().concat("/").concat(self.rel_path.as_str())
        };
        proof {
            let rs = self.root@;
            let prefix = if rs.len() > 0 && rs.last() == '/' {
                rs
            } else {
                rs.push('/')
            };
            assert(full@ =~= prefix + self.rel_path@);
            assert(full@.subrange(0, prefix.len() as int) =~= prefix);
            assert(full@.subrange(prefix.len() as int, full@.len() as int) =~= self.rel_path@);
            if full@ == rs {
                assert(full@.len() > rs.len());
            }
        }
        full
    }
}

/// The first `n` characters of `s`.
fn slice_chars(s: &Vec<char>, n: usize) -> (r: Vec<char>)
    requires
        n <= s@.len(),
    ensures
        r@ == s@.subrange(0, n as int),
{
    let mut r: Vec<char> = Vec::new();
    let mut i: usize = 0;
    while i < n
        invariant
            n <= s@.len(),
            i <= n,
            r@ == s@.subrange(0, i as int),
        decreases n - i,
    {
        r.push(s[i]);
        i = i + 1;
        assert(r@ =~= s@.subrange(0, i as int));
    }
    r
}

fn str_eq(a: &str, b: &str) -> (r: bool)
    ensures
        r == (a@ == b@),
{
    chars_eq(&chars_of(a), &chars_of(b))
}

fn last_is_slash(s: &str) -> (r: bool)
    requires
        s@.len() > 0,
    ensures
        r == (s@.last() == '/'),
{
    let c = chars_of(s);
    c[c.len() - 1] == '/'
}

fn chars_eq(a: &Vec<char>, b: &Vec<char>) -> (r: bool)
    ensures
        r == (a@ == b@),
{
    if a.len() != b.len() {
        return false;
    }
    let mut i: usize = 0;
    while i < a.len()
        invariant
            a@.len() == b@.len(),
            i <= a@.len(),
            forall|k: int| 0 <= k < i ==> a@[k] == b@[k],
        decreases a@.len() - i,
    {
        if a[i] != b[i] {
            return false;
        }
        i = i + 1;
    }
    assert(a@ =~= b@);
    true
}

fn contains(s: &Vec<char>, pat: &Vec<char>) -> (r: bool)
    ensures
        r == occurs_in(pat@, s@),
{
    if pat.len() > s.len() {
        return false;
    }
    let mut i: usize = 0;
    while i <= s.len() - pat.len()
        invariant
            pat@.len() <= s@.len(),
            i <= s@.len() - pat@.len() + 1,
            forall|j: int| 0 <= j < i ==> #[trigger] s@.subrange(j, j + pat@.len()) != pat@,
        decreases s@.len() - pat@.len() + 1 - i,
    {
        let slen = s.len();
        let mut k: usize = 0;
        let mut same = true;
        while k < pat.len()
            invariant
                slen == s@.len(),
                i + pat@.len() <= s@.len(),
                k <= pat@.len(),
                same <==> forall|m: int| 0 <= m < k ==> s@[i + m] == pat@[m],
            decreases pat@.len() - k,
        {
            if s[i + k] != pat[k] {
                same = false;
            }
            k = k + 1;
        }
        if same {
            assert(s@.subrange(i as int, i + pat@.len()) =~= pat@);
            return true;
        }
        proof {
            if s@.subrange(i as int, i + pat@.len()) == pat@ {
                assert forall|m: int| 0 <= m < pat@.len() implies s@[i + m] == pat@[m] by {
                    assert(s@.subrange(i as int, i + pat@.len())[m] == s@[i + m]);
                }
            }
        }
        i = i + 1;
    }
    false
}

} // verus!
