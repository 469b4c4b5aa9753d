//! Naming of the `.lock` sidecar that guards a file.

use vstd::prelude::*;

verus! {

/// The sidecar that locks `path`: the same path with `.lock` appended.
pub fn lock_path(path: &str) -> (r: String)
    ensures
        r@ == path@ + seq!['.', 'l', 'o', 'c', 'k'],
{
    proof {
        reveal_strlit(".lock");
        assert(".lock"@ =~= seq!['.', 'l', 'o', 'c', 'k']);
    }
    path.to_owned().concat(".lock")
}

} // verus!
