//! A repository: its working tree and the metadata directory inside it.

use vstd::prelude::*;

use crate::database::Database;
use crate::refs::Refs;
use crate::text::join;
use crate::workspace::Workspace;

verus! {

/// `.git`.
pub open spec fn meta_name() -> Seq<char> {
    seq!['.', 'g', 'i', 't']
}

pub struct Repository {
    root: String,
}

impl Repository {
    pub closed spec fn root_spec(&self) -> Seq<char> {
        self.root@
    }

    /// The repository whose working tree is rooted at `root`.
    pub fn new(root: &str) -> (r: Repository)
        ensures
            r.root_spec() == root@,
    {
        Repository { root: root.to_owned() }
    }

    /// The metadata directory: `<root>/.git`.
    pub fn git_path(&self) -> (r: String)
        ensures
            r@ == self.root_spec() + seq!['/'] + meta_name(),
    {
        proof {
            reveal_strlit(".git");
            assert(".git"@ =~= meta_name());
        }
        join(self.root.as_str(), ".git")
    }

    /// The object database at `<root>/.git/objects`.
    pub fn database(&self) -> (r: Database)
        ensures
            r.root_spec() == self.root_spec() + seq!['/'] + meta_name() + seq!['/'] + seq![
                'o',
                'b',
                'j',
                'e',
                'c',
                't',
                's',
            ],
    {
        proof {
            reveal_strlit("objects");
            assert("objects"@ =~= seq!['o', 'b', 'j', 'e', 'c', 't', 's']);
        }
        let git = self.git_path();
        let path = join(git.as_str(), "objects");
        Database::new(path.as_str())
    }

    /// Where the index is: `<root>/.git/index`.
    pub fn index_path(&self) -> (r: String)
        ensures
            r@ == self.root_spec() + seq!['/'] + meta_name() + seq!['/'] + seq!['i', 'n', 'd', 'e', 'x'],
    {
        proof {
            reveal_strlit("index");
            assert("index"@ =~= seq!['i', 'n', 'd', 'e', 'x']);
        }
        let git = self.git_path();
        join(git.as_str(), "index")
    }

    /// The references, kept in `<root>/.git`.
    pub fn refs(&self) -> (r: Refs)
        ensures
            r.root_spec() == self.root_spec() + seq!['/'] + meta_name(),
    {
        let git = self.git_path();
        Refs::new(git.as_str())
    }

    /// The working tree, rooted at `<root>`.
    pub fn workspace(&self) -> (r: Workspace)
        ensures
            r.root_spec() == self.root_spec(),
    {
        Workspace::new(self.root.as_str())
    }
}

} // verus!
