//! The top-level service state: it owns the catalog built from the two
//! manifests and exposes package enumeration, download, and
//! fetch-for-decrypt.  The state is read-only after construction; per-
//! operation failures never invalidate it.

use vstd::prelude::*;

use crate::PakError;
use crate::PakErrorKind;
use crate::bytes::append_bytes;
use crate::bytes::blobs_ok;
use crate::bytes::concat_all;
use crate::bytes::copy_range;
use crate::bytes::enc_blob_list;
use crate::bytes::lemma_blobs_deep_view;
use crate::bytes::lemma_concat_all_push;
use crate::catalog::Catalog;
use crate::catalog::app_ok;
use crate::catalog::consistent;
use crate::catalog::enc_app_manifest;
use crate::catalog::lookup_spec;
use crate::pak::EncryptedPak;
use crate::pipeline::ChunkSource;
use crate::pipeline::assemble_chunks;
use crate::pipeline::assembled;
use crate::pipeline::fetch_with_retry;
use crate::pipeline::parts_view;
use crate::pipeline::parts_wf;

verus! {

/// How many retrieval attempts each chunk of a download is given.
pub const FETCH_ATTEMPTS: u32 = 4;

/// The package service.  Owns the immutable manifest catalog; every
/// operation is scoped to one package and leaves the state untouched.
pub struct ServiceState {
    catalog: Catalog,
}

impl ServiceState {
    /// The declared packages: name and ordered chunk references each.
    pub closed spec fn pkgs(&self) -> Seq<(Seq<u8>, Seq<Seq<u8>>)> {
        self.catalog.pkgs()
    }

    /// The declared chunk references.
    pub closed spec fn ids(&self) -> Seq<Seq<u8>> {
        self.catalog.ids()
    }

    /// The state is exactly what the manifest pair declared, cross-checked.
    pub open spec fn wf_from(&self, app: Seq<u8>, chunk: Seq<u8>) -> bool {
        &&& app_ok(self.pkgs())
        &&& app == enc_app_manifest(self.pkgs())
        &&& blobs_ok(self.ids())
        &&& chunk == enc_blob_list(self.ids())
        &&& consistent(self.pkgs(), self.ids())
    }

    /// The sole construction path: decodes and cross-validates the manifest
    /// pair.  On any failure no service state exists at all; the error says
    /// whether a manifest was undecodable (`ManifestError`) or a package
    /// referenced an undeclared chunk (`CatalogInconsistency`, carrying
    /// that chunk reference).
    pub fn from_manifests(app: &Vec<u8>, chunk: &Vec<u8>) -> (r: Result<ServiceState, PakError>)
        ensures
            r is Ok ==> r->Ok_0.wf_from(app@, chunk@),
            r is Err ==> r->Err_0.kind == PakErrorKind::ManifestError || r->Err_0.kind
                == PakErrorKind::CatalogInconsistency,
            forall|pkgs: Seq<(Seq<u8>, Seq<Seq<u8>>)>, ids: Seq<Seq<u8>>|
                app_ok(pkgs) && app@ == enc_app_manifest(pkgs) && blobs_ok(ids) && chunk@
                    == enc_blob_list(ids) ==> if consistent(pkgs, ids) {
                    r is Ok && r->Ok_0.pkgs() == pkgs && r->Ok_0.ids() == ids
                } else {
                    r is Err && r->Err_0.kind == PakErrorKind::CatalogInconsistency
                },
            (r is Err && r->Err_0.kind == PakErrorKind::ManifestError) <==> (forall|
                pkgs: Seq<(Seq<u8>, Seq<Seq<u8>>)>,
            |
                !(app_ok(pkgs) && app@ == enc_app_manifest(pkgs))) || (forall|ids: Seq<Seq<u8>>|
                !(blobs_ok(ids) && chunk@ == enc_blob_list(ids))),
    {
        match Catalog::build(app, chunk) {
            Ok(catalog) => Ok(ServiceState { catalog }),
            Err(e) => Err(e),
        }
    }

    /// The declared package names, in manifest declaration order.
    pub fn get_paks(&self) -> (r: Vec<Vec<u8>>)
        ensures
            r.deep_view() == Seq::new(self.pkgs().len(), |i: int| self.pkgs()[i].0),
    {
        self.catalog.list_package_names()
    }

    /// Assembles the named package's encrypted bytes, fetching each declared
    /// chunk through `src` in manifest order with bounded retries; the
    /// ghost half of the result reports the bytes each chunk fetch
    /// delivered.  On success the package bytes are exactly those per-chunk
    /// results concatenated in manifest-declared order, one per declared
    /// chunk; a package with no chunks succeeds without consulting the
    /// source at all.  The caller writes the returned bytes to its target
    /// location.  `NotFound` (carrying the name) exactly when the name is
    /// not declared; otherwise only `FetchFailed`, carrying the identity of
    /// a declared chunk that exhausted its retries.
    pub fn download_pak<S: ChunkSource>(&self, name: &Vec<u8>, src: &mut S) -> (r: (
        Result<Vec<u8>, PakError>,
        Ghost<Seq<Seq<u8>>>,
    ))
        ensures
            lookup_spec(self.pkgs(), name@) is None <==> (r.0 is Err && r.0->Err_0.kind
                == PakErrorKind::NotFound),
            r.0 is Err ==> r.0->Err_0.kind == PakErrorKind::NotFound || r.0->Err_0.kind
                == PakErrorKind::FetchFailed,
            r.0 is Err && r.0->Err_0.kind == PakErrorKind::NotFound ==> r.0->Err_0.resource@
                == name@,
            r.0 is Err && r.0->Err_0.kind == PakErrorKind::FetchFailed ==> (lookup_spec(
                self.pkgs(),
                name@,
            ) matches Some(c) && c.contains(r.0->Err_0.resource@)),
            r.0 is Ok ==> (lookup_spec(self.pkgs(), name@) matches Some(c) && r.1@.len()
                == c.len() && r.0->Ok_0@ == concat_all(r.1@)),
            (lookup_spec(self.pkgs(), name@) matches Some(c) && c.len() == 0) ==> r.0 is Ok
                && r.0->Ok_0@ == Seq::<u8>::empty(),
    {
        let entry = match self.catalog.lookup(name) {
            None => {
                let owned = copy_range(name, 0, name.len());
                proof {
                    assert(name@.subrange(0, name@.len() as int) =~= name@);
                }
                return (Err(PakError::about(PakErrorKind::NotFound, owned)), Ghost(Seq::empty()));
            },
            Some(e) => e,
        };
        let ghost chunks_dv = entry.chunks.deep_view();
        proof {
            lemma_blobs_deep_view(entry.chunks);
        }
        let mut out: Vec<u8> = Vec::new();
        let ghost mut parts: Seq<Seq<u8>> = Seq::empty();
        proof {
            assert(out@ =~= concat_all(parts));
        }
        let mut k: usize = 0;
        while k < entry.chunks.len()
            invariant
                k <= entry.chunks@.len(),
                lookup_spec(self.pkgs(), name@) == Some(chunks_dv),
                chunks_dv == entry.chunks.deep_view(),
                chunks_dv.len() == entry.chunks@.len(),
                forall|m: int| 0 <= m < chunks_dv.len() ==> chunks_dv[m] == entry.chunks@[m]@,
                parts.len() == k,
                out@ == concat_all(parts),
            decreases entry.chunks@.len() - k,
        {
            match fetch_with_retry(src, &entry.chunks[k], FETCH_ATTEMPTS) {
                Ok(d) => {
                    append_bytes(&mut out, &d);
                    proof {
                        lemma_concat_all_push(parts, d@);
                        parts = parts.push(d@);
                    }
                },
                Err(e) => {
                    proof {
                        assert(chunks_dv[k as int] == entry.chunks@[k as int]@);
                        assert(chunks_dv.contains(e.resource@));
                    }
                    return (Err(e), Ghost(parts));
                },
            }
            k = k + 1;
        }
        (Ok(out), Ghost(parts))
    }

    /// Assembles the named package in memory and hands it back as a
    /// consume-once encrypted package handle whose payload is the fetched
    /// per-chunk results (the ghost half) concatenated in manifest order.
    /// Errors exactly as `download_pak`.
    pub fn get_pak<S: ChunkSource>(&self, name: &Vec<u8>, src: &mut S) -> (r: (
        Result<EncryptedPak, PakError>,
        Ghost<Seq<Seq<u8>>>,
    ))
        ensures
            lookup_spec(self.pkgs(), name@) is None <==> (r.0 is Err && r.0->Err_0.kind
                == PakErrorKind::NotFound),
            r.0 is Err ==> r.0->Err_0.kind == PakErrorKind::NotFound || r.0->Err_0.kind
                == PakErrorKind::FetchFailed,
            r.0 is Err && r.0->Err_0.kind == PakErrorKind::NotFound ==> r.0->Err_0.resource@
                == name@,
            r.0 is Err && r.0->Err_0.kind == PakErrorKind::FetchFailed ==> (lookup_spec(
                self.pkgs(),
                name@,
            ) matches Some(c) && c.contains(r.0->Err_0.resource@)),
            r.0 is Ok ==> ({
                &&& !r.0->Ok_0.is_consumed()
                &&& r.0->Ok_0.name_spec() == name@
                &&& lookup_spec(self.pkgs(), name@) matches Some(c) && r.1@.len() == c.len()
                &&& r.0->Ok_0.payload_spec() == concat_all(r.1@)
            }),
            (lookup_spec(self.pkgs(), name@) matches Some(c) && c.len() == 0) ==> r.0 is Ok,
    {
        let (dl, parts) = self.download_pak(name, src);
        match dl {
            Err(e) => (Err(e), parts),
            Ok(bytes) => {
                let owned = copy_range(name, 0, name.len());
                proof {
                    assert(name@.subrange(0, name@.len() as int) =~= name@);
                }
                (Ok(EncryptedPak::new(owned, bytes)), parts)
            },
        }
    }

    /// Reassembles already-fetched completions for the named package: the
    /// entry point for callers that fetch the declared chunks concurrently
    /// and deliver them in completion order.  Success exactly when the
    /// completions cover each declared chunk position exactly once, and the
    /// result is their contents joined in manifest-declared order, whatever
    /// order they completed in; an incomplete or ambiguous set is
    /// `FetchFailed`, an undeclared name `NotFound`, both carrying the name.
    pub fn assemble_pak(&self, name: &Vec<u8>, parts: &Vec<(usize, Vec<u8>)>) -> (r: Result<
        Vec<u8>,
        PakError,
    >)
        ensures
            lookup_spec(self.pkgs(), name@) is None <==> (r is Err && r->Err_0.kind
                == PakErrorKind::NotFound),
            r is Err ==> (r->Err_0.kind == PakErrorKind::NotFound || r->Err_0.kind
                == PakErrorKind::FetchFailed) && r->Err_0.resource@ == name@,
            lookup_spec(self.pkgs(), name@) matches Some(c) ==> ({
                &&& (r is Ok <==> parts_wf(parts_view(parts@), c.len() as int))
                &&& (r is Ok ==> r->Ok_0@ == assembled(parts_view(parts@), c.len() as int))
            }),
    {
        let entry = match self.catalog.lookup(name) {
            None => {
                let owned = copy_range(name, 0, name.len());
                proof {
                    assert(name@.subrange(0, name@.len() as int) =~= name@);
                }
                return Err(PakError::about(PakErrorKind::NotFound, owned));
            },
            Some(e) => e,
        };
        proof {
            lemma_blobs_deep_view(entry.chunks);
        }
        match assemble_chunks(entry.chunks.len(), parts) {
            Some(bytes) => Ok(bytes),
            None => {
                let owned = copy_range(name, 0, name.len());
                proof {
                    assert(name@.subrange(0, name@.len() as int) =~= name@);
                }
                Err(PakError::about(PakErrorKind::FetchFailed, owned))
            },
        }
    }
}

} // verus!
