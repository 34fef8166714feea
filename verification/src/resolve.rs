//! Classification of a single path.
//!
//! One step of the traversal looks at what the filesystem reported for a
//! path and decides whether the path contributes bytes to the total, must be
//! expanded as a directory, is skipped silently, or is skipped with an error
//! report.  The decision is pure; gathering the metadata is left to the
//! caller.

use vstd::prelude::*;

verus! {

/// The identity of a physical filesystem object within one traversal:
/// device id and inode number.  Two paths with equal identity refer to the
/// same underlying object.
#[derive(Clone, Copy, PartialEq, Eq, Structural, Hash, Debug)]
pub struct FileIdentity {
    pub dev: u64,
    pub ino: u64,
}

impl FileIdentity {
    /// The identity as a plain pair, the form in which the deduplication
    /// store keeps it.
    pub open spec fn key(self) -> (u64, u64) {
        (self.dev, self.ino)
    }
}

/// What the filesystem said about one path, reduced to plain values.
///
/// A caller obtains this by reading the path's own metadata first, without
/// following links, and then following the link if there is one.
#[derive(Clone, Copy, PartialEq, Eq, Structural, Debug)]
pub enum PathFact {
    /// The metadata could not be read (for a reason other than a dangling
    /// symbolic link); the failure is reported.
    StatError,
    /// The path is a symbolic link whose target does not exist; such links
    /// are routine and are skipped silently.
    BrokenLink,
    /// The path resolved, through symbolic links if any, to an object with
    /// this identity.  `dir` says whether the object is a directory; `len`
    /// is its byte length as reported by the metadata.
    Object { dev: u64, ino: u64, dir: bool, len: u64 },
}

/// What one classified path contributes to the traversal.
#[derive(Clone, Copy, PartialEq, Eq, Structural, Debug)]
pub enum Contribution {
    /// A regular file seen for the first time: count this many bytes.
    Bytes(u64),
    /// A directory seen for the first time: enqueue a listing job for it.
    Enqueue,
    /// Nothing to count and nothing to report: a dangling link or an object
    /// whose identity was already counted.
    Skip,
    /// Nothing to count, but the failure is reported with the path as
    /// context.
    Fail,
}

/// The identity a path fact carries, if it resolved to an object.
pub open spec fn spec_identity_of(f: PathFact) -> Option<FileIdentity> {
    match f {
        PathFact::Object { dev, ino, .. } => Some(FileIdentity { dev, ino }),
        _ => None,
    }
}

/// The contribution of a path whose fact is `f`, where `already` says
/// whether the object's identity had been recorded before this sighting.
pub open spec fn spec_resolve(f: PathFact, already: bool) -> Contribution {
    match f {
        PathFact::StatError => Contribution::Fail,
        PathFact::BrokenLink => Contribution::Skip,
        PathFact::Object { dev, ino, dir, len } => if already {
            Contribution::Skip
        } else if dir {
            Contribution::Enqueue
        } else {
            Contribution::Bytes(len)
        },
    }
}

/// The identity to check against the deduplication store, if any.
///
/// Only a path that resolved to an object has an identity; failed and
/// dangling paths are never recorded.
pub fn identity_of(f: &PathFact) -> (r: Option<FileIdentity>)
    ensures
        r == spec_identity_of(*f),
{
    match f {
        PathFact::Object { dev, ino, .. } => Some(FileIdentity { dev: *dev, ino: *ino }),
        _ => None,
    }
}

/// Decide what a path contributes, given whether its identity was already
/// recorded.
///
/// A metadata failure is reported; a dangling symbolic link is skipped
/// silently; an object already seen contributes nothing; a new directory is
/// deferred to the queue; a new regular file contributes its length.
pub fn resolve_with(f: &PathFact, already: bool) -> (c: Contribution)
    ensures
        c == spec_resolve(*f, already),
{
    match f {
        PathFact::StatError => Contribution::Fail,
        PathFact::BrokenLink => Contribution::Skip,
        PathFact::Object { dev: _, ino: _, dir, len } => {
            if already {
                Contribution::Skip
            } else if *dir {
                Contribution::Enqueue
            } else {
                Contribution::Bytes(*len)
            }
        },
    }
}

} // verus!
