//! The kinds of failure that the library reports.

use vstd::prelude::*;

verus! {

#[derive(PartialEq, Eq, Structural, Clone, Copy, Debug)]
pub enum Error {
    /// The `.lock` sidecar of a file already exists.
    LockBusy,
    /// The file system failed.
    Io,
    /// Bytes do not follow the expected layout: signature, version,
    /// entry structure, ordering, or trailing data.
    Format,
    /// The trailing digest differs from the digest of the bytes before it.
    ChecksumMismatch,
    /// A path has an empty, `.` or `..` component, or no file name.
    InvalidEntry,
    /// A path passes through a name that is already a file, or names a
    /// file where a directory already stands.
    DirectoryConflict,
    /// The author's name or email was not provided.
    MissingEnv,
    /// The commit message has no first line.
    EmptyMessage,
    /// A path lies outside the working tree.
    OutsideWorkspace,
    /// A value exceeds what the formats or the digest can hold.
    TooLarge,
}

} // verus!
