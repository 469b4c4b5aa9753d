//! The `HEAD` reference: the current commit's id, read and written
//! under a lock.

use vstd::prelude::*;
use vstd::string::StringSliceAdditionalSpecFns;

use crate::text::{join, trimmed_end, trim_end};

verus! {

/// `HEAD`.
pub open spec fn head_name() -> Seq<char> {
    seq!['H', 'E', 'A', 'D']
}

/// What `HEAD` holds for the commit `oid`: the id and a newline.
pub open spec fn head_record(oid: Seq<u8>) -> Seq<u8> {
    oid.push(10u8)
}

pub struct Refs {
    root: String,
}

/// A new content for `HEAD`, to be written under its lock.
pub struct HeadUpdate {
    pub path: String,
    pub contents: Vec<u8>,
}

impl Refs {
    pub closed spec fn root_spec(&self) -> Seq<char> {
        self.root@
    }

    /// The references of the repository whose metadata directory is `path`.
    pub fn new(path: &str) -> (r: Refs)
        ensures
            r.root_spec() == path@,
    {
        Refs { root: path.to_owned() }
    }

    /// Where `HEAD` is.
    pub fn head_path(&self) -> (r: String)
        ensures
            r@ == self.root_spec() + seq!['/'] + head_name(),
    {
        proof {
            reveal_strlit("HEAD");
            assert("HEAD"@ =~= head_name());
        }
        join(self.root.as_str(), "HEAD")
    }

    /// The write that moves `HEAD` to the commit `oid`: its path, and the
    /// id followed by a newline.
    pub fn update_head(&self, oid: &str) -> (r: HeadUpdate)
        ensures
            r.path@ == self.root_spec() + seq!['/'] + head_name(),
            r.contents@ == head_record(oid.spec_bytes()),
    {
        let mut contents: Vec<u8> = Vec::new();
        contents.extend_from_slice(oid.as_bytes());
        contents.push(10);
        assert(contents@ =~= head_record(oid.spec_bytes()));
        HeadUpdate { path: self.head_path(), contents }
    }

    /// The commit `HEAD` names, from its text (`None` when there is no
    /// `HEAD` yet), without the whitespace that ends it.
    pub fn read_head(contents: Option<&str>) -> (r: Option<String>)
        ensures
            match contents {
                None => r is None,
                Some(text) => r matches Some(s) && s@ == trimmed_end(text@),
            },
    {
        match contents {
            None => None,
            Some(text) => Some(trim_end(text)),
        }
    }
}

} // verus!
