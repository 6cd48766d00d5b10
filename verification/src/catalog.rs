//! The manifest catalog: decoding of the application and chunk manifests and
//! the cross-validated, immutable package index built from them.
//!
//! The application manifest is a counted blob list whose blobs each encode
//! one package: a length-prefixed name followed by the counted list of its
//! chunk references, in download order.  The chunk manifest is a counted
//! blob list of the known chunk references.

use vstd::prelude::*;

use crate::PakError;
use crate::PakErrorKind;
use crate::bytes::blob_ok;
use crate::bytes::blobs_ok;
use crate::bytes::bytes_eq;
use crate::bytes::enc_blob;
use crate::bytes::enc_blob_list;
use crate::bytes::lemma_blob_here;
use crate::bytes::lemma_blobs_deep_view;
use crate::bytes::lemma_enc_blob_inj;
use crate::bytes::lemma_enc_blob_list_inj;
use crate::bytes::parse_blob_list;
use crate::bytes::read_blob;

verus! {

/// The encoding of one package declaration.
pub open spec fn enc_pkg(name: Seq<u8>, chunks: Seq<Seq<u8>>) -> Seq<u8> {
    enc_blob(name) + enc_blob_list(chunks)
}

/// A package declaration that fits the manifest layout.
pub open spec fn pkg_ok(name: Seq<u8>, chunks: Seq<Seq<u8>>) -> bool {
    &&& blob_ok(name)
    &&& blobs_ok(chunks)
    &&& blob_ok(enc_pkg(name, chunks))
}

/// The package declarations, each encoded to one blob.
pub open spec fn app_view(pkgs: Seq<(Seq<u8>, Seq<Seq<u8>>)>) -> Seq<Seq<u8>> {
    Seq::new(pkgs.len(), |i: int| enc_pkg(pkgs[i].0, pkgs[i].1))
}

/// A package list that fits the application-manifest layout.
pub open spec fn app_ok(pkgs: Seq<(Seq<u8>, Seq<Seq<u8>>)>) -> bool {
    &&& pkgs.len() < 0x1_0000_0000
    &&& forall|i: int| 0 <= i < pkgs.len() ==> pkg_ok((#[trigger] pkgs[i]).0, pkgs[i].1)
}

/// The application manifest encoding of a package list.
pub open spec fn enc_app_manifest(pkgs: Seq<(Seq<u8>, Seq<Seq<u8>>)>) -> Seq<u8> {
    enc_blob_list(app_view(pkgs))
}

/// A well-formed package list encodes to a well-formed blob list.
pub proof fn lemma_app_view_ok(pkgs: Seq<(Seq<u8>, Seq<Seq<u8>>)>)
    requires
        app_ok(pkgs),
    ensures
        blobs_ok(app_view(pkgs)),
{
    assert forall|i: int| 0 <= i < app_view(pkgs).len() implies blob_ok(
        #[trigger] app_view(pkgs)[i],
    ) by {
        assert(pkg_ok(pkgs[i].0, pkgs[i].1));
    }
}

/// Two package declarations encoding to the same blob are the same.
pub proof fn lemma_enc_pkg_inj(n1: Seq<u8>, c1: Seq<Seq<u8>>, n2: Seq<u8>, c2: Seq<Seq<u8>>)
    requires
        pkg_ok(n1, c1),
        pkg_ok(n2, c2),
        enc_pkg(n1, c1) == enc_pkg(n2, c2),
    ensures
        n1 == n2,
        c1 == c2,
{
    lemma_enc_blob_inj(n1, n2, enc_blob_list(c1), enc_blob_list(c2));
    lemma_enc_blob_list_inj(c1, c2, Seq::empty(), Seq::empty());
    assert(enc_blob_list(c1) + Seq::<u8>::empty() =~= enc_blob_list(c1));
    assert(enc_blob_list(c2) + Seq::<u8>::empty() =~= enc_blob_list(c2));
}

/// One catalog entry: a package name and its ordered chunk references.
pub struct PakEntry {
    pub name: Vec<u8>,
    pub chunks: Vec<Vec<u8>>,
}

/// The mathematical view of a list of catalog entries.
pub open spec fn entries_view(entries: Seq<PakEntry>) -> Seq<(Seq<u8>, Seq<Seq<u8>>)> {
    Seq::new(entries.len(), |i: int| (entries[i].name@, entries[i].chunks.deep_view()))
}

/// Every chunk reference used by a package is declared in the chunk list.
pub open spec fn consistent(pkgs: Seq<(Seq<u8>, Seq<Seq<u8>>)>, ids: Seq<Seq<u8>>) -> bool {
    forall|i: int, j: int|
        0 <= i < pkgs.len() && 0 <= j < pkgs[i].1.len() ==> ids.contains(#[trigger] pkgs[i].1[j])
}

/// The chunk list of the first entry declared under `name`, if any.
pub open spec fn lookup_spec(pkgs: Seq<(Seq<u8>, Seq<Seq<u8>>)>, name: Seq<u8>) -> Option<
    Seq<Seq<u8>>,
>
    decreases pkgs.len(),
{
    if pkgs.len() == 0 {
        None
    } else if pkgs[0].0 == name {
        Some(pkgs[0].1)
    } else {
        lookup_spec(pkgs.drop_first(), name)
    }
}

/// Parses one package declaration out of its manifest blob.
fn parse_pkg(blob: &Vec<u8>) -> (r: Option<(Vec<u8>, Vec<Vec<u8>>)>)
    requires
        blob_ok(blob@),
    ensures
        match r {
            Some(p) => pkg_ok(p.0@, p.1.deep_view()) && blob@ == enc_pkg(p.0@, p.1.deep_view()),
            None => true,
        },
        forall|n: Seq<u8>, c: Seq<Seq<u8>>|
            pkg_ok(n, c) && blob@ == enc_pkg(n, c) ==> r is Some && (r->0).0@ == n && (
            r->0).1.deep_view() == c,
{
    let (name, c1) = match read_blob(blob, 0) {
        None => {
            proof {
                assert forall|n: Seq<u8>, c: Seq<Seq<u8>>|
                    pkg_ok(n, c) && blob@ == enc_pkg(n, c) implies false by {
                    assert(blob@.subrange(0, enc_blob(n).len() as int) =~= enc_blob(n));
                    lemma_blob_here(blob@, 0, n);
                }
            }
            return None;
        },
        Some(p) => p,
    };
    let (chunks, c2) = match parse_blob_list(blob, c1) {
        None => {
            proof {
                assert forall|n: Seq<u8>, c: Seq<Seq<u8>>|
                    pkg_ok(n, c) && blob@ == enc_pkg(n, c) implies false by {
                    lemma_pkg_parts(blob@, n, c, name@, c1 as int);
                    assert(blob@.subrange(c1 as int, c1 + enc_blob_list(c).len())
                        == enc_blob_list(c));
                }
            }
            return None;
        },
        Some(p) => p,
    };
    if c2 != blob.len() {
        proof {
            assert forall|n: Seq<u8>, c: Seq<Seq<u8>>|
                pkg_ok(n, c) && blob@ == enc_pkg(n, c) implies false by {
                lemma_pkg_parts(blob@, n, c, name@, c1 as int);
                let t = blob@.subrange(c1 as int, blob@.len() as int);
                assert(t =~= enc_blob_list(chunks.deep_view()) + blob@.subrange(
                    c2 as int,
                    blob@.len() as int,
                ));
                assert(t =~= enc_blob_list(c) + Seq::<u8>::empty());
                lemma_enc_blob_list_inj(
                    chunks.deep_view(),
                    c,
                    blob@.subrange(c2 as int, blob@.len() as int),
                    Seq::empty(),
                );
                assert(blob@.subrange(c2 as int, blob@.len() as int).len() == 0);
            }
        }
        return None;
    }
    proof {
        assert(blob@ =~= enc_blob(name@) + enc_blob_list(chunks.deep_view()));
        assert forall|n: Seq<u8>, c: Seq<Seq<u8>>|
            pkg_ok(n, c) && blob@ == enc_pkg(n, c) implies name@ == n && chunks.deep_view()
            == c by {
            lemma_enc_pkg_inj(name@, chunks.deep_view(), n, c);
        }
    }
    Some((name, chunks))
}

/// With the name blob identified at the head of a declaration, the rest is
/// exactly the encoded chunk list.
proof fn lemma_pkg_parts(b: Seq<u8>, n: Seq<u8>, c: Seq<Seq<u8>>, name: Seq<u8>, c1: int)
    requires
        pkg_ok(n, c),
        b == enc_pkg(n, c),
        blob_ok(name),
        4 + name.len() == c1,
        c1 <= b.len(),
        b.subrange(0, c1) == enc_blob(name),
    ensures
        name == n,
        c1 + enc_blob_list(c).len() == b.len(),
        b.subrange(c1, b.len() as int) == enc_blob_list(c),
{
    assert(b =~= enc_blob(name) + b.subrange(c1, b.len() as int));
    lemma_enc_blob_inj(name, n, b.subrange(c1, b.len() as int), enc_blob_list(c));
}

/// Decodes the application manifest into catalog entries.  Success exactly
/// on the encodings of well-formed package lists; otherwise `ManifestError`.
pub fn parse_app_manifest(b: &Vec<u8>) -> (r: Result<Vec<PakEntry>, PakError>)
    ensures
        r is Ok ==> app_ok(entries_view(r->Ok_0@)) && b@ == enc_app_manifest(
            entries_view(r->Ok_0@),
        ),
        forall|pkgs: Seq<(Seq<u8>, Seq<Seq<u8>>)>|
            app_ok(pkgs) && b@ == enc_app_manifest(pkgs) ==> r is Ok && entries_view(r->Ok_0@)
                == pkgs,
        r is Err ==> r->Err_0.kind == PakErrorKind::ManifestError,
{
    let (blobs, c) = match parse_blob_list(b, 0) {
        None => {
            proof {
                assert forall|pkgs: Seq<(Seq<u8>, Seq<Seq<u8>>)>|
                    app_ok(pkgs) && b@ == enc_app_manifest(pkgs) implies false by {
                    lemma_app_view_ok(pkgs);
                    assert(b@.subrange(0, enc_blob_list(app_view(pkgs)).len() as int)
                        =~= enc_blob_list(app_view(pkgs)));
                }
            }
            return Err(PakError::bare(PakErrorKind::ManifestError));
        },
        Some(p) => p,
    };
    if c != b.len() {
        proof {
            assert forall|pkgs: Seq<(Seq<u8>, Seq<Seq<u8>>)>|
                app_ok(pkgs) && b@ == enc_app_manifest(pkgs) implies false by {
                lemma_app_view_ok(pkgs);
                assert(b@ =~= enc_blob_list(blobs.deep_view()) + b@.subrange(
                    c as int,
                    b@.len() as int,
                ));
                assert(b@ =~= enc_blob_list(app_view(pkgs)) + Seq::<u8>::empty());
                lemma_enc_blob_list_inj(
                    blobs.deep_view(),
                    app_view(pkgs),
                    b@.subrange(c as int, b@.len() as int),
                    Seq::empty(),
                );
                assert(b@.subrange(c as int, b@.len() as int).len() == 0);
            }
        }
        return Err(PakError::bare(PakErrorKind::ManifestError));
    }
    let ghost dvb = blobs.deep_view();
    proof {
        assert(b@.subrange(0, b@.len() as int) =~= b@);
    }
    let mut entries: Vec<PakEntry> = Vec::new();
    let mut k: usize = 0;
    while k < blobs.len()
        invariant
            dvb == blobs.deep_view(),
            blobs_ok(dvb),
            dvb.len() == blobs@.len(),
            b@ == enc_blob_list(dvb),
            k <= blobs@.len(),
            entries@.len() == k,
            forall|m: int|
                0 <= m < k ==> pkg_ok(
                    (#[trigger] entries_view(entries@)[m]).0,
                    entries_view(entries@)[m].1,
                ) && dvb[m] == enc_pkg(
                    entries_view(entries@)[m].0,
                    entries_view(entries@)[m].1,
                ),
        decreases blobs@.len() - k,
    {
        proof {
            lemma_blobs_deep_view(blobs);
            assert(dvb[k as int] == blobs@[k as int]@);
            assert(blob_ok(dvb[k as int]));
        }
        match parse_pkg(&blobs[k]) {
            None => {
                proof {
                    assert forall|pkgs: Seq<(Seq<u8>, Seq<Seq<u8>>)>|
                        app_ok(pkgs) && b@ == enc_app_manifest(pkgs) implies false by {
                        lemma_app_view_ok(pkgs);
                        assert(enc_blob_list(dvb) + Seq::<u8>::empty() =~= enc_blob_list(dvb));
                        assert(enc_blob_list(app_view(pkgs)) + Seq::<u8>::empty() =~= enc_blob_list(
                            app_view(pkgs),
                        ));
                        lemma_enc_blob_list_inj(dvb, app_view(pkgs), Seq::empty(), Seq::empty());
                        assert(dvb[k as int] == enc_pkg(pkgs[k as int].0, pkgs[k as int].1));
                        assert(pkg_ok(pkgs[k as int].0, pkgs[k as int].1));
                    }
                }
                return Err(PakError::bare(PakErrorKind::ManifestError));
            },
            Some((name, chunks)) => {
                let ghost pn = name@;
                let ghost pc = chunks.deep_view();
                let ghost pre = entries@;
                entries.push(PakEntry { name, chunks });
                proof {
                    assert(entries@[k as int].name@ == pn);
                    assert(entries@[k as int].chunks.deep_view() == pc);
                    assert forall|m: int| 0 <= m < k + 1 implies pkg_ok(
                        (#[trigger] entries_view(entries@)[m]).0,
                        entries_view(entries@)[m].1,
                    ) && dvb[m] == enc_pkg(
                        entries_view(entries@)[m].0,
                        entries_view(entries@)[m].1,
                    ) by {
                        if m < k {
                            assert(entries@[m] == pre[m]);
                            assert(entries_view(pre)[m] == (pre[m].name@, pre[m].chunks.deep_view()));
                            assert(entries_view(entries@)[m] == (
                                entries@[m].name@,
                                entries@[m].chunks.deep_view(),
                            ));
                        } else {
                            assert(entries_view(entries@)[m] == (pn, pc));
                        }
                    }
                }
                k = k + 1;
            },
        }
    }
    proof {
        let ev = entries_view(entries@);
        assert(app_view(ev) =~= dvb);
        assert forall|pkgs: Seq<(Seq<u8>, Seq<Seq<u8>>)>|
            app_ok(pkgs) && b@ == enc_app_manifest(pkgs) implies ev == pkgs by {
            lemma_app_view_ok(pkgs);
            assert(enc_blob_list(dvb) + Seq::<u8>::empty() =~= enc_blob_list(dvb));
            assert(enc_blob_list(app_view(pkgs)) + Seq::<u8>::empty() =~= enc_blob_list(
                app_view(pkgs),
            ));
            lemma_enc_blob_list_inj(dvb, app_view(pkgs), Seq::empty(), Seq::empty());
            assert forall|m: int| 0 <= m < ev.len() implies ev[m] == pkgs[m] by {
                assert(enc_pkg(ev[m].0, ev[m].1) == dvb[m]);
                assert(app_view(pkgs)[m] == enc_pkg(pkgs[m].0, pkgs[m].1));
                lemma_enc_pkg_inj(ev[m].0, ev[m].1, pkgs[m].0, pkgs[m].1);
            }
            assert(ev =~= pkgs);
        }
    }
    Ok(entries)
}

/// Decodes the chunk manifest into the list of known chunk references.
/// Success exactly on encoded blob lists; otherwise `ManifestError`.
pub fn parse_chunk_manifest(b: &Vec<u8>) -> (r: Result<Vec<Vec<u8>>, PakError>)
    ensures
        r is Ok ==> blobs_ok(r->Ok_0.deep_view()) && b@ == enc_blob_list(r->Ok_0.deep_view()),
        forall|ids: Seq<Seq<u8>>|
            blobs_ok(ids) && b@ == enc_blob_list(ids) ==> r is Ok && r->Ok_0.deep_view() == ids,
        r is Err ==> r->Err_0.kind == PakErrorKind::ManifestError,
{
    let (ids, c) = match parse_blob_list(b, 0) {
        None => {
            proof {
                assert forall|l: Seq<Seq<u8>>|
                    blobs_ok(l) && b@ == enc_blob_list(l) implies false by {
                    assert(b@.subrange(0, enc_blob_list(l).len() as int) =~= enc_blob_list(l));
                }
            }
            return Err(PakError::bare(PakErrorKind::ManifestError));
        },
        Some(p) => p,
    };
    if c != b.len() {
        proof {
            assert forall|l: Seq<Seq<u8>>| blobs_ok(l) && b@ == enc_blob_list(l) implies false by {
                assert(b@ =~= enc_blob_list(ids.deep_view()) + b@.subrange(
                    c as int,
                    b@.len() as int,
                ));
                assert(b@ =~= enc_blob_list(l) + Seq::<u8>::empty());
                lemma_enc_blob_list_inj(
                    ids.deep_view(),
                    l,
                    b@.subrange(c as int, b@.len() as int),
                    Seq::empty(),
                );
                assert(b@.subrange(c as int, b@.len() as int).len() == 0);
            }
        }
        return Err(PakError::bare(PakErrorKind::ManifestError));
    }
    proof {
        assert(b@.subrange(0, b@.len() as int) =~= b@);
        assert forall|l: Seq<Seq<u8>>|
            blobs_ok(l) && b@ == enc_blob_list(l) implies ids.deep_view() == l by {
            assert(enc_blob_list(ids.deep_view()) + Seq::<u8>::empty() =~= enc_blob_list(
                ids.deep_view(),
            ));
            assert(enc_blob_list(l) + Seq::<u8>::empty() =~= enc_blob_list(l));
            lemma_enc_blob_list_inj(ids.deep_view(), l, Seq::empty(), Seq::empty());
        }
    }
    Ok(ids)
}

/// Whether `ids` holds a blob equal to `x`.
fn contains_blob(ids: &Vec<Vec<u8>>, x: &Vec<u8>) -> (r: bool)
    ensures
        r == ids.deep_view().contains(x@),
{
    let ghost dv = ids.deep_view();
    proof {
        lemma_blobs_deep_view(*ids);
    }
    let mut k: usize = 0;
    while k < ids.len()
        invariant
            dv == ids.deep_view(),
            dv.len() == ids@.len(),
            forall|m: int| 0 <= m < dv.len() ==> dv[m] == ids@[m]@,
            k <= ids@.len(),
            forall|m: int| 0 <= m < k ==> dv[m] != x@,
        decreases ids@.len() - k,
    {
        if bytes_eq(&ids[k], x) {
            proof {
                assert(dv[k as int] == x@);
            }
            return true;
        }
        k = k + 1;
    }
    proof {
        if dv.contains(x@) {
            let w = choose|m: int| 0 <= m < dv.len() && dv[m] == x@;
            assert(dv[w] != x@);
        }
    }
    false
}

/// Checks that every chunk reference of every entry is a declared chunk;
/// on failure hands back a copy of the first undeclared reference.
fn check_consistent(entries: &Vec<PakEntry>, ids: &Vec<Vec<u8>>) -> (r: Option<Vec<u8>>)
    ensures
        r is None <==> consistent(entries_view(entries@), ids.deep_view()),
        r matches Some(x) ==> !ids.deep_view().contains(x@) && exists|a: int, b: int|
            0 <= a < entries_view(entries@).len() && 0 <= b < entries_view(entries@)[a].1.len()
                && entries_view(entries@)[a].1[b] == x@,
{
    let ghost ev = entries_view(entries@);
    let mut i: usize = 0;
    while i < entries.len()
        invariant
            ev == entries_view(entries@),
            ev.len() == entries@.len(),
            i <= entries@.len(),
            forall|a: int, b: int|
                0 <= a < i && 0 <= b < ev[a].1.len() ==> ids.deep_view().contains(
                    #[trigger] ev[a].1[b],
                ),
        decreases entries@.len() - i,
    {
        let chunks = &entries[i].chunks;
        proof {
            assert(ev[i as int].1 == chunks.deep_view());
            lemma_blobs_deep_view(*chunks);
        }
        let mut j: usize = 0;
        while j < chunks.len()
            invariant
                ev == entries_view(entries@),
                i < entries@.len(),
                ev.len() == entries@.len(),
                chunks == &entries@[i as int].chunks,
                ev[i as int].1 == chunks.deep_view(),
                chunks.deep_view().len() == chunks@.len(),
                forall|m: int| 0 <= m < chunks@.len() ==> chunks.deep_view()[m] == chunks@[m]@,
                j <= chunks@.len(),
                forall|b: int|
                    0 <= b < j ==> ids.deep_view().contains(#[trigger] ev[i as int].1[b]),
            decreases chunks@.len() - j,
        {
            if !contains_blob(ids, &chunks[j]) {
                let missing = crate::bytes::copy_range(&chunks[j], 0, chunks[j].len());
                proof {
                    assert(ev[i as int].1[j as int] == chunks@[j as int]@);
                    assert(!consistent(ev, ids.deep_view()));
                    assert(missing@ =~= chunks@[j as int]@);
                }
                return Some(missing);
            }
            j = j + 1;
        }
        i = i + 1;
    }
    None
}

/// The immutable package index built from the two manifests: the declared
/// packages in declaration order, and the set of known chunk references.
pub struct Catalog {
    entries: Vec<PakEntry>,
    chunk_ids: Vec<Vec<u8>>,
}

impl Catalog {
    /// The declared packages: name and ordered chunk references each.
    pub closed spec fn pkgs(&self) -> Seq<(Seq<u8>, Seq<Seq<u8>>)> {
        entries_view(self.entries@)
    }

    /// The declared chunk references.
    pub closed spec fn ids(&self) -> Seq<Seq<u8>> {
        self.chunk_ids.deep_view()
    }

    /// The catalog is exactly what its manifests declared, and every chunk
    /// reference in use is a declared chunk.
    pub open spec fn wf(&self, app: Seq<u8>, chunk: Seq<u8>) -> bool {
        &&& app_ok(self.pkgs())
        &&& app == enc_app_manifest(self.pkgs())
        &&& blobs_ok(self.ids())
        &&& chunk == enc_blob_list(self.ids())
        &&& consistent(self.pkgs(), self.ids())
    }

    /// Decodes both manifests and cross-validates them.  `ManifestError`
    /// exactly when either manifest is undecodable; `CatalogInconsistency`
    /// exactly when both decode but a package uses an undeclared chunk,
    /// carrying that chunk reference as the resource.
    pub fn build(app: &Vec<u8>, chunk: &Vec<u8>) -> (r: Result<Catalog, PakError>)
        ensures
            r is Ok ==> r->Ok_0.wf(app@, chunk@),
            r is Err ==> r->Err_0.kind == PakErrorKind::ManifestError || r->Err_0.kind
                == PakErrorKind::CatalogInconsistency,
            forall|pkgs: Seq<(Seq<u8>, Seq<Seq<u8>>)>, ids: Seq<Seq<u8>>|
                app_ok(pkgs) && app@ == enc_app_manifest(pkgs) && blobs_ok(ids) && chunk@
                    == enc_blob_list(ids) ==> if consistent(pkgs, ids) {
                    r is Ok && r->Ok_0.pkgs() == pkgs && r->Ok_0.ids() == ids
                } else {
                    r is Err && r->Err_0.kind == PakErrorKind::CatalogInconsistency && (exists|
                        a: int,
                        b: int,
                    |
                        0 <= a < pkgs.len() && 0 <= b < pkgs[a].1.len() && pkgs[a].1[b]
                            == r->Err_0.resource@) && !ids.contains(r->Err_0.resource@)
                },
            (r is Err && r->Err_0.kind == PakErrorKind::ManifestError) <==> (forall|
                pkgs: Seq<(Seq<u8>, Seq<Seq<u8>>)>,
            |
                !(app_ok(pkgs) && app@ == enc_app_manifest(pkgs))) || (forall|ids: Seq<Seq<u8>>|
                !(blobs_ok(ids) && chunk@ == enc_blob_list(ids))),
    {
        let entries = match parse_app_manifest(app) {
            Err(e) => {
                return Err(e);
            },
            Ok(v) => v,
        };
        let chunk_ids = match parse_chunk_manifest(chunk) {
            Err(e) => {
                return Err(e);
            },
            Ok(v) => v,
        };
        match check_consistent(&entries, &chunk_ids) {
            Some(missing) => Err(PakError::about(PakErrorKind::CatalogInconsistency, missing)),
            None => Ok(Catalog { entries, chunk_ids }),
        }
    }

    /// The declared package names, in declaration order.
    pub fn list_package_names(&self) -> (r: Vec<Vec<u8>>)
        ensures
            r.deep_view() == Seq::new(self.pkgs().len(), |i: int| self.pkgs()[i].0),
    {
        let mut r: Vec<Vec<u8>> = Vec::new();
        let mut k: usize = 0;
        while k < self.entries.len()
            invariant
                k <= self.entries@.len(),
                r.deep_view() == Seq::new(k as nat, |i: int| entries_view(self.entries@)[i].0),
            decreases self.entries@.len() - k,
        {
            let ghost pre = r@;
            let ghost predv = r.deep_view();
            let p = &self.entries[k].name;
            let pcopy = crate::bytes::copy_range(p, 0, p.len());
            r.push(pcopy);
            proof {
                crate::bytes::lemma_deep_view_push(pre, pcopy, r);
                assert(pre.len() == predv.len() && predv.len() == k);
                assert(predv =~= Seq::new(pre.len(), |m: int| pre[m]@)) by {
                    assert forall|m: int| 0 <= m < pre.len() implies predv[m] == pre[m]@ by {
                        assert(predv[m] =~= pre[m]@);
                    }
                }
                assert(pcopy@ =~= self.entries@[k as int].name@);
                assert(r.deep_view() =~= Seq::new(
                    (k + 1) as nat,
                    |i: int| entries_view(self.entries@)[i].0,
                ));
            }
            k = k + 1;
        }
        r
    }

    /// Finds the first entry declared under `name`.
    pub fn lookup(&self, name: &Vec<u8>) -> (r: Option<&PakEntry>)
        ensures
            match r {
                Some(e) => lookup_spec(self.pkgs(), name@) == Some(e.chunks.deep_view()) && e.name@
                    == name@,
                None => lookup_spec(self.pkgs(), name@) is None,
            },
    {
        let ghost ps = self.pkgs();
        proof {
            assert(ps.skip(0) =~= ps);
        }
        let mut k: usize = 0;
        while k < self.entries.len()
            invariant
                ps == self.pkgs(),
                ps.len() == self.entries@.len(),
                k <= self.entries@.len(),
                lookup_spec(ps, name@) == lookup_spec(ps.skip(k as int), name@),
            decreases self.entries@.len() - k,
        {
            proof {
                assert(ps.skip(k as int).len() > 0);
                assert(ps.skip(k as int)[0] == ps[k as int]);
                assert(ps.skip(k as int).drop_first() =~= ps.skip(k + 1));
            }
            if bytes_eq(&self.entries[k].name, name) {
                proof {
                    assert(ps[k as int].0 == name@);
                    assert(ps[k as int].1 == self.entries@[k as int].chunks.deep_view());
                }
                return Some(&self.entries[k]);
            }
            proof {
                assert(ps[k as int].0 != name@);
            }
            k = k + 1;
        }
        proof {
            assert(ps.skip(ps.len() as int).len() == 0);
        }
        None
    }
}

} // verus!
