//! The encrypted package handle, the one-shot decryption transition, and the
//! read-only package reader.
//!
//! A package image is laid out as a magic marker, a length-prefixed mount
//! point, and a counted blob list that alternates file paths and file
//! contents.  The image is enciphered by a repeating-key byte stream
//! (`xor_seq`), so enciphering and deciphering are the same involution.

use vstd::prelude::*;

use crate::PakError;
use crate::PakErrorKind;
use crate::bytes::blob_ok;
use crate::bytes::lemma_enc_u32_val;
use crate::bytes::read_u32;
use crate::bytes::blobs_ok;
use crate::bytes::copy_range;
use crate::bytes::enc_blob;
use crate::bytes::enc_blob_list;
use crate::bytes::enc_blobs;
use crate::bytes::enc_u32;
use crate::bytes::lemma_blob_here;
use crate::bytes::lemma_blobs_deep_view;
use crate::bytes::lemma_deep_view_push;
use crate::bytes::lemma_enc_blob_inj;
use crate::bytes::lemma_enc_blob_list_inj;
use crate::bytes::lemma_enc_blobs_concat;
use crate::bytes::parse_blob_list;
use crate::bytes::read_blob;
use crate::bytes::u32_le_val;
use crate::bytes::write_blob;
use crate::bytes::write_u32;

verus! {

/// The marker that heads every package image.
pub open spec fn pak_magic() -> Seq<u8> {
    seq![0x50u8, 0x41u8, 0x4bu8, 0x31u8]
}

/// `b` begins with the package marker.
pub open spec fn has_magic(b: Seq<u8>) -> bool {
    b.len() >= 4 && b.subrange(0, 4) == pak_magic()
}

/// `data` enciphered by the repeating key stream of `key`.
pub open spec fn xor_seq(data: Seq<u8>, key: Seq<u8>) -> Seq<u8>
    recommends
        key.len() > 0,
{
    Seq::new(data.len(), |i: int| data[i] ^ key[i % key.len() as int])
}

/// Enciphering twice with one key gives the data back.
pub proof fn lemma_xor_involution(data: Seq<u8>, key: Seq<u8>)
    requires
        key.len() > 0,
    ensures
        xor_seq(xor_seq(data, key), key) == data,
{
    assert forall|i: int| 0 <= i < data.len() implies xor_seq(xor_seq(data, key), key)[i]
        == data[i] by {
        let k = key[i % key.len() as int];
        let d = data[i];
        assert((d ^ k) ^ k == d) by (bit_vector);
    }
    assert(xor_seq(xor_seq(data, key), key) =~= data);
}

/// The integrity checksum the model cipher appends to the plain bytes: the
/// byte sum, reduced to 32 bits.
pub open spec fn checksum(b: Seq<u8>) -> int
    decreases b.len(),
{
    if b.len() == 0 {
        0
    } else {
        (checksum(b.drop_last()) + b.last()) % 0x1_0000_0000
    }
}

/// The checksum fits its four-byte field.
pub proof fn lemma_checksum_range(b: Seq<u8>)
    ensures
        0 <= checksum(b) < 0x1_0000_0000,
    decreases b.len(),
{
    if b.len() > 0 {
        lemma_checksum_range(b.drop_last());
    }
}

/// Computes the model cipher's integrity checksum.
pub fn checksum_bytes(b: &Vec<u8>) -> (r: u32)
    ensures
        r == checksum(b@),
{
    let mut acc: u64 = 0;
    let mut k: usize = 0;
    while k < b.len()
        invariant
            k <= b@.len(),
            acc == checksum(b@.take(k as int)),
            acc < 0x1_0000_0000,
        decreases b@.len() - k,
    {
        acc = (acc + b[k] as u64) % 0x1_0000_0000;
        proof {
            assert(b@.take(k + 1).drop_last() =~= b@.take(k as int));
            assert(b@.take(k + 1).last() == b@[k as int]);
        }
        k = k + 1;
    }
    proof {
        assert(b@.take(b@.len() as int) =~= b@);
    }
    acc as u32
}

/// What the decryption primitive accepts.  Deciphering with `key` must
/// reveal a trailing four-byte checksum that matches the rest; `None` is
/// the primitive's cryptographic/integrity failure, where a wrong key and
/// a corrupted or truncated payload land indistinguishably.
pub open spec fn decipher(payload: Seq<u8>, key: Seq<u8>) -> Option<Seq<u8>> {
    if key.len() == 0 {
        None
    } else {
        let full = xor_seq(payload, key);
        if full.len() < 4 {
            None
        } else {
            let plain = full.take(full.len() - 4);
            let tag = full.skip(full.len() - 4);
            if u32_le_val(tag) == checksum(plain) {
                Some(plain)
            } else {
                None
            }
        }
    }
}

/// What the encryption primitive produces: the plain bytes with their
/// checksum appended, enciphered by the repeating key stream.
pub open spec fn encipher(plain: Seq<u8>, key: Seq<u8>) -> Seq<u8>
    recommends
        key.len() > 0,
{
    xor_seq(plain + enc_u32(checksum(plain) as u32), key)
}

/// The primitive always accepts its own output under the key that made it:
/// the key stream cancels and the checksum matches.
pub proof fn lemma_encipher_decipher(plain: Seq<u8>, key: Seq<u8>)
    requires
        key.len() > 0,
    ensures
        decipher(encipher(plain, key), key) == Some(plain),
{
    let ext = plain + enc_u32(checksum(plain) as u32);
    lemma_xor_involution(ext, key);
    lemma_checksum_range(plain);
    lemma_enc_u32_val(checksum(plain) as u32);
    assert(ext.len() == plain.len() + 4);
    assert(ext.take(ext.len() - 4) =~= plain);
    assert(ext.skip(ext.len() - 4) =~= enc_u32(checksum(plain) as u32));
}

/// Runs the decryption primitive: deciphers, splits off the trailing
/// checksum, and verifies it.
fn decipher_bytes(payload: &Vec<u8>, key: &Vec<u8>) -> (r: Option<Vec<u8>>)
    ensures
        match r {
            Some(p) => decipher(payload@, key@) == Some(p@),
            None => decipher(payload@, key@) is None,
        },
{
    if key.len() == 0 {
        return None;
    }
    let full = xor_bytes(payload, key);
    if full.len() < 4 {
        return None;
    }
    let cut = full.len() - 4;
    let plain = copy_range(&full, 0, cut);
    let tag = match read_u32(&full, cut) {
        Some(p) => p.0,
        None => {
            proof {
                assert(false);
            }
            0
        },
    };
    let cs = checksum_bytes(&plain);
    proof {
        assert(full@.take(cut as int) =~= plain@);
        assert(full@.skip(cut as int) =~= full@.subrange(cut as int, full@.len() as int));
    }
    if tag == cs {
        Some(plain)
    } else {
        None
    }
}

/// One logical file of a package: its path and its content.
pub struct PakFile {
    pub path: Vec<u8>,
    pub data: Vec<u8>,
}

/// The mathematical view of a file table.
pub open spec fn files_view(files: Seq<PakFile>) -> Seq<(Seq<u8>, Seq<u8>)> {
    Seq::new(files.len(), |i: int| (files[i].path@, files[i].data@))
}

/// The file table flattened to alternating path and content blobs.
pub open spec fn interleave(files: Seq<(Seq<u8>, Seq<u8>)>) -> Seq<Seq<u8>>
    decreases files.len(),
{
    if files.len() == 0 {
        Seq::empty()
    } else {
        seq![files[0].0, files[0].1] + interleave(files.drop_first())
    }
}

/// A mount point and file table that fit the image layout.
pub open spec fn image_ok(mount: Seq<u8>, files: Seq<(Seq<u8>, Seq<u8>)>) -> bool {
    &&& blob_ok(mount)
    &&& files.len() < 0x8000_0000
    &&& forall|i: int|
        0 <= i < files.len() ==> blob_ok((#[trigger] files[i]).0) && blob_ok(files[i].1)
}

/// The plain (deciphered) package image of a mount point and file table.
pub open spec fn enc_pak_image(mount: Seq<u8>, files: Seq<(Seq<u8>, Seq<u8>)>) -> Seq<u8>
    recommends
        image_ok(mount, files),
{
    pak_magic() + enc_blob(mount) + enc_blob_list(interleave(files))
}

/// `interleave` distributes over concatenation.
pub proof fn lemma_interleave_concat(a: Seq<(Seq<u8>, Seq<u8>)>, b: Seq<(Seq<u8>, Seq<u8>)>)
    ensures
        interleave(a + b) == interleave(a) + interleave(b),
    decreases a.len(),
{
    if a.len() == 0 {
        assert(a + b =~= b);
        assert(interleave(a) + interleave(b) =~= interleave(b));
    } else {
        assert((a + b).drop_first() =~= a.drop_first() + b);
        lemma_interleave_concat(a.drop_first(), b);
        assert(seq![(a + b)[0].0, (a + b)[0].1] + (interleave(a.drop_first()) + interleave(b))
            =~= interleave(a) + interleave(b));
    }
}

/// Each file contributes its path at slot `2k` and its content at `2k + 1`.
pub proof fn lemma_interleave_index(files: Seq<(Seq<u8>, Seq<u8>)>, k: int)
    requires
        0 <= k < files.len(),
    ensures
        interleave(files).len() == 2 * files.len(),
        interleave(files)[2 * k] == files[k].0,
        interleave(files)[2 * k + 1] == files[k].1,
    decreases k,
{
    lemma_interleave_len(files);
    if k == 0 {
    } else {
        lemma_interleave_index(files.drop_first(), k - 1);
        lemma_interleave_len(files.drop_first());
    }
}

/// `interleave` doubles the length.
pub proof fn lemma_interleave_len(files: Seq<(Seq<u8>, Seq<u8>)>)
    ensures
        interleave(files).len() == 2 * files.len(),
    decreases files.len(),
{
    if files.len() > 0 {
        lemma_interleave_len(files.drop_first());
    }
}

/// The flattened table of a well-formed image is a well-formed blob list.
pub proof fn lemma_interleave_blobs_ok(files: Seq<(Seq<u8>, Seq<u8>)>)
    requires
        files.len() < 0x8000_0000,
        forall|i: int|
            0 <= i < files.len() ==> blob_ok((#[trigger] files[i]).0) && blob_ok(files[i].1),
    ensures
        blobs_ok(interleave(files)),
{
    lemma_interleave_len(files);
    assert forall|i: int| 0 <= i < interleave(files).len() implies blob_ok(
        #[trigger] interleave(files)[i],
    ) by {
        let k = i / 2;
        lemma_interleave_index(files, k);
        if i % 2 == 0 {
            assert(i == 2 * k);
        } else {
            assert(i == 2 * k + 1);
        }
    }
}

/// The file pairs recovered from an alternating blob sequence.
pub open spec fn pairs_of(flat: Seq<Seq<u8>>) -> Seq<(Seq<u8>, Seq<u8>)> {
    Seq::new(flat.len() / 2, |k: int| (flat[2 * k], flat[2 * k + 1]))
}

/// Pairing inverts flattening.
pub proof fn lemma_pairs_of_interleave(files: Seq<(Seq<u8>, Seq<u8>)>)
    ensures
        pairs_of(interleave(files)) == files,
{
    lemma_interleave_len(files);
    assert forall|k: int| 0 <= k < files.len() implies pairs_of(interleave(files))[k]
        == files[k] by {
        lemma_interleave_index(files, k);
    }
    assert(pairs_of(interleave(files)) =~= files);
}

/// Flattening inverts pairing on even-length sequences.
pub proof fn lemma_interleave_pairs_of(flat: Seq<Seq<u8>>)
    requires
        flat.len() % 2 == 0,
    ensures
        interleave(pairs_of(flat)) == flat,
    decreases flat.len(),
{
    if flat.len() == 0 {
        assert(interleave(pairs_of(flat)) =~= flat);
    } else {
        let rest = flat.skip(2);
        lemma_interleave_pairs_of(rest);
        assert(pairs_of(flat).drop_first() =~= pairs_of(rest)) by {
            assert forall|k: int| 0 <= k < pairs_of(flat).len() - 1 implies pairs_of(
                flat,
            ).drop_first()[k] == pairs_of(rest)[k] by {
                assert(rest[2 * k] == flat[2 * (k + 1)]);
                assert(rest[2 * k + 1] == flat[2 * (k + 1) + 1]);
            }
        }
        assert(pairs_of(flat)[0] == (flat[0], flat[1]));
        assert(interleave(pairs_of(flat)) == seq![flat[0], flat[1]] + interleave(pairs_of(rest)));
        assert(seq![flat[0], flat[1]] + rest =~= flat);
    }
}

/// Enciphers `data` with the repeating key stream of `key`.
pub fn xor_bytes(data: &Vec<u8>, key: &Vec<u8>) -> (r: Vec<u8>)
    requires
        key@.len() > 0,
    ensures
        r@ == xor_seq(data@, key@),
{
    let mut r: Vec<u8> = Vec::new();
    let mut k: usize = 0;
    while k < data.len()
        invariant
            key@.len() > 0,
            k <= data@.len(),
            r@.len() == k,
            forall|m: int| 0 <= m < k ==> r@[m] == data@[m] ^ key@[m % key@.len() as int],
        decreases data@.len() - k,
    {
        r.push(data[k] ^ key[k % key.len()]);
        k = k + 1;
    }
    proof {
        assert(r@ =~= xor_seq(data@, key@));
    }
    r
}

/// The first content recorded for `path`, if the table holds the path.
pub open spec fn find_file(files: Seq<(Seq<u8>, Seq<u8>)>, path: Seq<u8>) -> Option<Seq<u8>>
    decreases files.len(),
{
    if files.len() == 0 {
        None
    } else if files[0].0 == path {
        Some(files[0].1)
    } else {
        find_file(files.drop_first(), path)
    }
}

/// The decrypted, indexed view of a package: a mount point and a file table,
/// immutable once constructed.
pub struct PakReader {
    mount: Vec<u8>,
    files: Vec<PakFile>,
}

impl PakReader {
    /// The mount point as a byte sequence.
    pub closed spec fn mount_spec(&self) -> Seq<u8> {
        self.mount@
    }

    /// The file table, in internal table order.
    pub closed spec fn files_spec(&self) -> Seq<(Seq<u8>, Seq<u8>)> {
        files_view(self.files@)
    }

    /// The logical root path under which the package's files are addressed.
    pub fn mount_point(&self) -> (r: Vec<u8>)
        ensures
            r@ == self.mount_spec(),
    {
        let r = copy_range(&self.mount, 0, self.mount.len());
        proof {
            assert(self.mount@.subrange(0, self.mount@.len() as int) =~= self.mount@);
        }
        r
    }

    /// All file paths, in table order; duplicates of the table are kept.
    pub fn list_files(&self) -> (r: Vec<Vec<u8>>)
        ensures
            r.deep_view() == Seq::new(self.files_spec().len(), |i: int| self.files_spec()[i].0),
    {
        let mut r: Vec<Vec<u8>> = Vec::new();
        let mut k: usize = 0;
        while k < self.files.len()
            invariant
                k <= self.files@.len(),
                r.deep_view() == Seq::new(k as nat, |i: int| files_view(self.files@)[i].0),
            decreases self.files@.len() - k,
        {
            let ghost pre = r@;
            let ghost predv = r.deep_view();
            let p = &self.files[k].path;
            let pcopy = copy_range(p, 0, p.len());
            r.push(pcopy);
            proof {
                lemma_deep_view_push(pre, pcopy, r);
                assert(pre.len() == predv.len() && predv.len() == k);
                assert(predv =~= Seq::new(pre.len(), |m: int| pre[m]@)) by {
                    assert forall|m: int| 0 <= m < pre.len() implies predv[m] == pre[m]@ by {
                        assert(predv[m] =~= pre[m]@);
                    }
                }
                assert(pcopy@ =~= self.files@[k as int].path@);
                assert(r.deep_view() =~= Seq::new(
                    (k + 1) as nat,
                    |i: int| files_view(self.files@)[i].0,
                ));
            }
            k = k + 1;
        }
        r
    }

    /// The content of the file first recorded under `path`, or `NotFound`
    /// carrying the path.  Reading mutates nothing and is deterministic in
    /// the reader and path.
    pub fn get_file_data(&self, path: &Vec<u8>) -> (r: Result<Vec<u8>, PakError>)
        ensures
            match find_file(self.files_spec(), path@) {
                Some(d) => r is Ok && r->Ok_0@ == d,
                None => r is Err && r->Err_0.kind == PakErrorKind::NotFound
                    && r->Err_0.resource@ == path@,
            },
    {
        let ghost fs = self.files_spec();
        proof {
            assert(fs.skip(0) =~= fs);
        }
        let mut k: usize = 0;
        while k < self.files.len()
            invariant
                k <= self.files@.len(),
                fs == self.files_spec(),
                find_file(fs, path@) == find_file(fs.skip(k as int), path@),
            decreases self.files@.len() - k,
        {
            proof {
                assert(fs.skip(k as int).len() > 0);
                assert(fs.skip(k as int)[0] == fs[k as int]);
                assert(fs.skip(k as int).drop_first() =~= fs.skip(k + 1));
            }
            if crate::bytes::bytes_eq(&self.files[k].path, path) {
                let d = &self.files[k].data;
                let out = copy_range(d, 0, d.len());
                proof {
                    assert(d@.subrange(0, d@.len() as int) =~= d@);
                    assert(fs[k as int].0 == path@);
                }
                return Ok(out);
            }
            proof {
                assert(fs[k as int].0 != path@);
            }
            k = k + 1;
        }
        proof {
            assert(fs.skip(fs.len() as int).len() == 0);
        }
        let owned = copy_range(path, 0, path.len());
        proof {
            assert(path@.subrange(0, path@.len() as int) =~= path@);
        }
        Err(PakError::about(PakErrorKind::NotFound, owned))
    }
}

/// A fully downloaded, still-encrypted package.  Its payload can be taken by
/// exactly one decrypt attempt; afterwards the handle is consumed for good.
pub struct EncryptedPak {
    name: Vec<u8>,
    payload: Option<Vec<u8>>,
}

impl EncryptedPak {
    /// The package name the payload was assembled for.
    pub closed spec fn name_spec(&self) -> Seq<u8> {
        self.name@
    }

    /// Whether the one decrypt attempt has already been spent.
    pub closed spec fn is_consumed(&self) -> bool {
        self.payload is None
    }

    /// The encrypted payload, while the handle is not consumed.
    pub closed spec fn payload_spec(&self) -> Seq<u8> {
        match self.payload {
            Some(p) => p@,
            None => Seq::empty(),
        }
    }

    /// Wraps freshly assembled encrypted bytes.
    pub fn new(name: Vec<u8>, payload: Vec<u8>) -> (r: EncryptedPak)
        ensures
            !r.is_consumed(),
            r.name_spec() == name@,
            r.payload_spec() == payload@,
    {
        EncryptedPak { name, payload: Some(payload) }
    }

    /// Whether the handle has been consumed.
    pub fn consumed(&self) -> (r: bool)
        ensures
            r == self.is_consumed(),
    {
        self.payload.is_none()
    }

    /// The one-shot decryption transition.  The payload is taken out of the
    /// handle up front, so the attempt consumes the handle whether or not the
    /// cryptographic step succeeds; a second call always reports
    /// `AlreadyConsumed`.  A rejection by the decryption primitive — wrong
    /// key or corrupted/truncated payload, not distinguished — is
    /// `DecryptFailed`; a payload the primitive accepts but whose internal
    /// structure is malformed is `CorruptPackage`.  Every error carries the
    /// package name.
    pub fn decrypt(&mut self, key: &Vec<u8>) -> (r: Result<PakReader, PakError>)
        ensures
            final(self).is_consumed(),
            final(self).name_spec() == old(self).name_spec(),
            r is Err ==> r->Err_0.resource@ == old(self).name_spec(),
            old(self).is_consumed() ==> r is Err && r->Err_0.kind
                == PakErrorKind::AlreadyConsumed,
            !old(self).is_consumed() ==> ({
                let d = decipher(old(self).payload_spec(), key@);
                &&& (d is None ==> r is Err && r->Err_0.kind == PakErrorKind::DecryptFailed)
                &&& (d is Some ==> {
                    let plain = d->0;
                    &&& (r is Err ==> r->Err_0.kind == PakErrorKind::CorruptPackage)
                    &&& (r is Ok ==> image_ok(r->Ok_0.mount_spec(), r->Ok_0.files_spec()) && plain
                        == enc_pak_image(r->Ok_0.mount_spec(), r->Ok_0.files_spec()))
                    &&& (forall|m: Seq<u8>, fs: Seq<(Seq<u8>, Seq<u8>)>|
                        image_ok(m, fs) && plain == enc_pak_image(m, fs) ==> r is Ok
                            && r->Ok_0.mount_spec() == m && r->Ok_0.files_spec() == fs)
                })
            }),
    {
        let ghost oldname = self.name@;
        let who = copy_range(&self.name, 0, self.name.len());
        proof {
            assert(who@ =~= oldname);
        }
        let payload = self.payload.take();
        match payload {
            None => Err(PakError::about(PakErrorKind::AlreadyConsumed, who)),
            Some(data) => {
                match decipher_bytes(&data, key) {
                    None => Err(PakError::about(PakErrorKind::DecryptFailed, who)),
                    Some(plain) => {
                        match parse_pak_image(&plain) {
                            Some(reader) => Ok(reader),
                            None => Err(PakError::about(PakErrorKind::CorruptPackage, who)),
                        }
                    },
                }
            },
        }
    }
}

/// Builds the encrypted byte image of a package from its mount point and
/// file table, enciphered with `key`.  This is the exact inverse of what a
/// successful decrypt recovers.
pub fn build_pak(mount: &Vec<u8>, files: &Vec<PakFile>, key: &Vec<u8>) -> (r: Vec<u8>)
    requires
        image_ok(mount@, files_view(files@)),
        key@.len() > 0,
    ensures
        r@ == encipher(enc_pak_image(mount@, files_view(files@)), key@),
{
    let ghost fv = files_view(files@);
    let mut plain: Vec<u8> = Vec::new();
    plain.push(0x50);
    plain.push(0x41);
    plain.push(0x4b);
    plain.push(0x31);
    proof {
        assert(plain@ =~= pak_magic());
    }
    write_blob(&mut plain, mount);
    let cnt: usize = files.len();
    proof {
        let c2: usize = (2 * cnt) as usize;
        assert(c2 < 0x1_0000_0000 ==> c2 as u32 == c2) by (bit_vector);
        lemma_interleave_len(fv);
    }
    write_u32(&mut plain, (2 * cnt) as u32);
    let ghost head = pak_magic() + enc_blob(mount@) + enc_u32((2 * cnt) as u32);
    proof {
        assert(plain@ =~= head);
        assert(interleave(fv.take(0)) =~= Seq::<Seq<u8>>::empty());
        assert(plain@ =~= head + enc_blobs(interleave(fv.take(0))));
    }
    let mut j: usize = 0;
    while j < cnt
        invariant
            cnt == files@.len(),
            fv == files_view(files@),
            image_ok(mount@, fv),
            j <= cnt,
            plain@ == head + enc_blobs(interleave(fv.take(j as int))),
        decreases cnt - j,
    {
        let ghost pre = plain@;
        proof {
            assert(fv[j as int].0 == files@[j as int].path@);
            assert(fv[j as int].1 == files@[j as int].data@);
            assert(blob_ok(fv[j as int].0) && blob_ok(fv[j as int].1));
        }
        write_blob(&mut plain, &files[j].path);
        write_blob(&mut plain, &files[j].data);
        proof {
            let p = fv[j as int].0;
            let d = fv[j as int].1;
            assert(fv.take(j + 1) =~= fv.take(j as int) + seq![fv[j as int]]);
            lemma_interleave_concat(fv.take(j as int), seq![fv[j as int]]);
            assert(seq![fv[j as int]].drop_first() =~= Seq::<(Seq<u8>, Seq<u8>)>::empty());
            assert(interleave(Seq::<(Seq<u8>, Seq<u8>)>::empty()) == Seq::<Seq<u8>>::empty());
            assert(interleave(seq![fv[j as int]]) == seq![p, d] + interleave(
                seq![fv[j as int]].drop_first(),
            ));
            assert(interleave(seq![fv[j as int]]) =~= seq![p, d]);
            lemma_enc_blobs_concat(interleave(fv.take(j as int)), seq![p, d]);
            assert(seq![p, d].drop_first() =~= seq![d]);
            assert(seq![d].drop_first() =~= Seq::<Seq<u8>>::empty());
            assert(enc_blobs(Seq::<Seq<u8>>::empty()) == Seq::<u8>::empty());
            assert(enc_blobs(seq![d]) == enc_blob(d) + enc_blobs(seq![d].drop_first()));
            assert(enc_blobs(seq![p, d]) == enc_blob(p) + enc_blobs(seq![p, d].drop_first()));
            assert(enc_blobs(seq![p, d]) =~= enc_blob(p) + enc_blob(d));
            assert(plain@ =~= head + enc_blobs(interleave(fv.take(j + 1))));
        }
        j = j + 1;
    }
    proof {
        assert(fv.take(cnt as int) =~= fv);
        assert(2 * fv.len() < 0x1_0000_0000);
        assert((2 * cnt) as u32 == interleave(fv).len() as u32) by {
            lemma_interleave_len(fv);
        }
        assert(plain@ =~= enc_pak_image(mount@, fv));
    }
    let cs = checksum_bytes(&plain);
    let ghost img = plain@;
    write_u32(&mut plain, cs);
    proof {
        lemma_checksum_range(img);
        assert(cs == checksum(img) as u32);
        assert(plain@ == img + enc_u32(checksum(img) as u32));
    }
    xor_bytes(&plain, key)
}

/// Decrypting what `build_pak` produced, with the key it was built with,
/// always succeeds: the primitive accepts its own output and reveals
/// exactly the plain package image, on which the decrypt transition's
/// contract forces a reader holding that image.
pub proof fn lemma_build_decrypt_roundtrip(
    mount: Seq<u8>,
    files: Seq<(Seq<u8>, Seq<u8>)>,
    key: Seq<u8>,
)
    requires
        image_ok(mount, files),
        key.len() > 0,
    ensures
        decipher(encipher(enc_pak_image(mount, files), key), key) == Some(
            enc_pak_image(mount, files),
        ),
{
    lemma_encipher_decipher(enc_pak_image(mount, files), key);
}

/// Parses a plain package image into a reader: success exactly on the
/// encodings of well-formed images.
fn parse_pak_image(plain: &Vec<u8>) -> (r: Option<PakReader>)
    ensures
        r matches Some(rd) ==> image_ok(rd.mount_spec(), rd.files_spec()) && plain@
            == enc_pak_image(rd.mount_spec(), rd.files_spec()),
        forall|m: Seq<u8>, fs: Seq<(Seq<u8>, Seq<u8>)>|
            image_ok(m, fs) && plain@ == enc_pak_image(m, fs) ==> r is Some && r->0.mount_spec()
                == m && r->0.files_spec() == fs,
{
    proof {
        assert forall|m: Seq<u8>, fs: Seq<(Seq<u8>, Seq<u8>)>|
            image_ok(m, fs) && plain@ == enc_pak_image(m, fs) implies has_magic(plain@) by {
            assert(plain@.subrange(0, 4) =~= pak_magic());
        }
    }
    if plain.len() < 4 || plain[0] != 0x50 || plain[1] != 0x41 || plain[2] != 0x4b || plain[3]
        != 0x31 {
        proof {
            if has_magic(plain@) {
                assert(plain@.subrange(0, 4)[0] == plain@[0] && pak_magic()[0] == 0x50);
                assert(plain@.subrange(0, 4)[1] == plain@[1] && pak_magic()[1] == 0x41);
                assert(plain@.subrange(0, 4)[2] == plain@[2] && pak_magic()[2] == 0x4b);
                assert(plain@.subrange(0, 4)[3] == plain@[3] && pak_magic()[3] == 0x31);
                assert(false);
            }
        }
        return None;
    }
    proof {
        assert(plain@.subrange(0, 4) =~= pak_magic());
    }
    parse_pak_body(plain)
}

/// Parses the body of a marked package image.
fn parse_pak_body(plain: &Vec<u8>) -> (r: Option<PakReader>)
    requires
        has_magic(plain@),
    ensures
        r matches Some(rd) ==> image_ok(rd.mount_spec(), rd.files_spec()) && plain@
            == enc_pak_image(rd.mount_spec(), rd.files_spec()),
        forall|m: Seq<u8>, fs: Seq<(Seq<u8>, Seq<u8>)>|
            image_ok(m, fs) && plain@ == enc_pak_image(m, fs) ==> r is Some && r->0.mount_spec()
                == m && r->0.files_spec() == fs,
{
    let (mount, c1) = match read_blob(plain, 4) {
        None => {
            proof {
                assert forall|m: Seq<u8>, fs: Seq<(Seq<u8>, Seq<u8>)>|
                    image_ok(m, fs) && plain@ == enc_pak_image(m, fs) implies false by {
                    lemma_image_mount_here(plain@, m, fs);
                }
            }
            return None;
        },
        Some(p) => p,
    };
    let (flat, c2) = match parse_blob_list(plain, c1) {
        None => {
            proof {
                assert forall|m: Seq<u8>, fs: Seq<(Seq<u8>, Seq<u8>)>|
                    image_ok(m, fs) && plain@ == enc_pak_image(m, fs) implies false by {
                    lemma_image_parts(plain@, m, fs, mount@, c1 as int);
                    lemma_interleave_blobs_ok(fs);
                    assert(plain@.subrange(c1 as int, c1 + enc_blob_list(interleave(fs)).len())
                        == enc_blob_list(interleave(fs)));
                }
            }
            return None;
        },
        Some(p) => p,
    };
    if c2 != plain.len() {
        proof {
            assert forall|m: Seq<u8>, fs: Seq<(Seq<u8>, Seq<u8>)>|
                image_ok(m, fs) && plain@ == enc_pak_image(m, fs) implies false by {
                lemma_image_parts(plain@, m, fs, mount@, c1 as int);
                lemma_interleave_blobs_ok(fs);
                let t = plain@.subrange(c1 as int, plain@.len() as int);
                assert(t =~= enc_blob_list(flat.deep_view()) + plain@.subrange(
                    c2 as int,
                    plain@.len() as int,
                ));
                assert(t =~= enc_blob_list(interleave(fs)) + Seq::<u8>::empty());
                lemma_enc_blob_list_inj(
                    flat.deep_view(),
                    interleave(fs),
                    plain@.subrange(c2 as int, plain@.len() as int),
                    Seq::empty(),
                );
                assert(plain@.subrange(c2 as int, plain@.len() as int).len() == 0);
            }
        }
        return None;
    }
    if flat.len() % 2 != 0 {
        proof {
            assert forall|m: Seq<u8>, fs: Seq<(Seq<u8>, Seq<u8>)>|
                image_ok(m, fs) && plain@ == enc_pak_image(m, fs) implies false by {
                lemma_image_parts(plain@, m, fs, mount@, c1 as int);
                lemma_interleave_blobs_ok(fs);
                let t = plain@.subrange(c1 as int, plain@.len() as int);
                assert(t =~= enc_blob_list(flat.deep_view()) + Seq::<u8>::empty());
                assert(t =~= enc_blob_list(interleave(fs)) + Seq::<u8>::empty());
                lemma_enc_blob_list_inj(
                    flat.deep_view(),
                    interleave(fs),
                    Seq::empty(),
                    Seq::empty(),
                );
                lemma_interleave_len(fs);
            }
        }
        return None;
    }
    let ghost dvflat = flat.deep_view();
    let files = pair_up(&flat);
    let reader = PakReader { mount, files };
    proof {
        let rf = reader.files_spec();
        lemma_interleave_pairs_of(dvflat);
        assert(plain@ =~= pak_magic() + enc_blob(reader.mount_spec()) + enc_blob_list(dvflat));
        assert(rf.len() == dvflat.len() / 2);
        assert(image_ok(reader.mount_spec(), rf)) by {
            assert forall|i: int| 0 <= i < rf.len() implies blob_ok((#[trigger] rf[i]).0)
                && blob_ok(rf[i].1) by {
                assert(rf[i].0 == dvflat[2 * i]);
                assert(rf[i].1 == dvflat[2 * i + 1]);
            }
        }
        assert(enc_blob_list(interleave(rf)) == enc_blob_list(dvflat));
        assert forall|m: Seq<u8>, fs: Seq<(Seq<u8>, Seq<u8>)>|
            image_ok(m, fs) && plain@ == enc_pak_image(m, fs) implies reader.mount_spec() == m && rf
            == fs by {
            lemma_image_parts(plain@, m, fs, reader.mount_spec(), c1 as int);
            lemma_interleave_blobs_ok(fs);
            let t = plain@.subrange(c1 as int, plain@.len() as int);
            assert(t =~= enc_blob_list(dvflat) + Seq::<u8>::empty());
            assert(t =~= enc_blob_list(interleave(fs)) + Seq::<u8>::empty());
            lemma_enc_blob_list_inj(dvflat, interleave(fs), Seq::empty(), Seq::empty());
            lemma_pairs_of_interleave(fs);
        }
    }
    Some(reader)
}

/// In an encoded package image, the mount blob sits right after the marker.
proof fn lemma_image_mount_here(b: Seq<u8>, m: Seq<u8>, fs: Seq<(Seq<u8>, Seq<u8>)>)
    requires
        image_ok(m, fs),
        b == enc_pak_image(m, fs),
    ensures
        4 + enc_blob(m).len() as int <= b.len(),
        b.subrange(4, 4 + enc_blob(m).len() as int) == enc_blob(m),
        4 + 4 <= b.len(),
        u32_le_val(b.subrange(4, 8)) == m.len(),
        4 + 4 + u32_le_val(b.subrange(4, 8)) <= b.len(),
{
    assert(b.subrange(4, 4 + enc_blob(m).len() as int) =~= enc_blob(m));
    lemma_blob_here(b, 4, m);
}

/// Once the mount blob at position 4 is identified, it is the image's mount
/// point and the rest of the image is exactly the encoded flat file table.
proof fn lemma_image_parts(b: Seq<u8>, m: Seq<u8>, fs: Seq<(Seq<u8>, Seq<u8>)>, mount: Seq<u8>, c1: int)
    requires
        image_ok(m, fs),
        b == enc_pak_image(m, fs),
        blob_ok(mount),
        4 + 4 + mount.len() == c1,
        c1 <= b.len(),
        b.subrange(4, c1) == enc_blob(mount),
    ensures
        mount == m,
        c1 + enc_blob_list(interleave(fs)).len() == b.len(),
        b.subrange(c1, b.len() as int) == enc_blob_list(interleave(fs)),
{
    let t = b.subrange(4, b.len() as int);
    assert(t =~= enc_blob(mount) + b.subrange(c1, b.len() as int));
    assert(t =~= enc_blob(m) + enc_blob_list(interleave(fs)));
    lemma_enc_blob_inj(
        mount,
        m,
        b.subrange(c1, b.len() as int),
        enc_blob_list(interleave(fs)),
    );
}

/// Pairs up an even-length alternating sequence of path and content blobs.
fn pair_up(flat: &Vec<Vec<u8>>) -> (r: Vec<PakFile>)
    requires
        flat@.len() % 2 == 0,
    ensures
        files_view(r@) == pairs_of(flat.deep_view()),
{
    let len = flat.len();
    let mut files: Vec<PakFile> = Vec::new();
    let mut i: usize = 0;
    while i < len
        invariant
            len == flat@.len(),
            flat@.len() % 2 == 0,
            i % 2 == 0,
            i <= len,
            files@.len() == i / 2,
            forall|m: int|
                0 <= m < i / 2 ==> (#[trigger] files@[m]).path@ == flat.deep_view()[2 * m]
                    && files@[m].data@ == flat.deep_view()[2 * m + 1],
        decreases len - i,
    {
        proof {
            assert(i + 1 < len);
        }
        let p = &flat[i];
        let d = &flat[i + 1];
        let file = PakFile { path: copy_range(p, 0, p.len()), data: copy_range(d, 0, d.len()) };
        files.push(file);
        proof {
            lemma_blobs_deep_view(*flat);
            assert(p@.subrange(0, p@.len() as int) =~= p@);
            assert(d@.subrange(0, d@.len() as int) =~= d@);
            assert((i + 2) / 2 == i / 2 + 1);
            assert(2 * (i / 2) == i);
        }
        i = i + 2;
    }
    proof {
        lemma_blobs_deep_view(*flat);
        assert(files_view(files@) =~= pairs_of(flat.deep_view()));
    }
    files
}

} // verus!

