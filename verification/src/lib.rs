//! Engine for chunk-based, encrypted asset packages ("paks").
//!
//! A catalog is built from a pair of manifests: the application manifest
//! declares each package and the ordered chunks it is assembled from, and the
//! chunk manifest declares the set of fetchable chunks.  The download pipeline
//! reassembles a package from its chunks in manifest order, yielding an
//! encrypted package handle that can be decrypted at most once; a successful
//! decryption produces a read-only reader over the package's mount point and
//! internal file table.

use vstd::prelude::*;

pub mod bytes;
pub mod catalog;
pub mod pipeline;
pub mod service;
pub mod pak;

verus! {

/// The error taxonomy of the engine.  Every fallible operation reports its
/// outcome as one of these kinds; none is ever swallowed.
#[derive(Clone, Copy, Debug, PartialEq, Eq, Structural)]
pub enum PakErrorKind {
    /// A manifest byte-stream could not be decoded.
    ManifestError,
    /// A package references a chunk absent from the chunk manifest.
    CatalogInconsistency,
    /// The requested package or file name is absent from its index.
    NotFound,
    /// Retrieval of a chunk exhausted its retry budget.
    FetchFailed,
    /// A decrypt was attempted on an already-consumed package handle.
    AlreadyConsumed,
    /// The decryption primitive rejected the payload: wrong key or
    /// corrupted/truncated ciphertext, not distinguished.
    DecryptFailed,
    /// The decrypted payload's internal structure is malformed.
    CorruptPackage,
}

/// An error value as it crosses the engine's boundary: the kind, and the
/// name of the resource the failed operation was about (a package name, a
/// chunk reference, a file path; empty where the operation has none).
#[derive(Clone, Debug, PartialEq, Eq)]
pub struct PakError {
    pub kind: PakErrorKind,
    pub resource: Vec<u8>,
}

impl PakError {
    /// An error carrying no resource name.
    pub fn bare(kind: PakErrorKind) -> (r: PakError)
        ensures
            r.kind == kind,
            r.resource@ == Seq::<u8>::empty(),
    {
        let e = PakError { kind, resource: Vec::new() };
        proof {
            assert(e.resource@ =~= Seq::<u8>::empty());
        }
        e
    }

    /// An error about the named resource.
    pub fn about(kind: PakErrorKind, resource: Vec<u8>) -> (r: PakError)
        ensures
            r.kind == kind,
            r.resource@ == resource@,
    {
        PakError { kind, resource }
    }
}

} // verus!
