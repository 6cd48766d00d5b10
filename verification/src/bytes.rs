//! Length-prefixed binary encoding shared by the manifests and the package
//! image: a `u32` little-endian length, a blob of that many bytes, and
//! counted lists of blobs.

use vstd::prelude::*;

verus! {

/// Little-endian value of the four bytes `b[0..4]`.
pub open spec fn u32_le_val(b: Seq<u8>) -> int
    recommends
        b.len() == 4,
{
    b[0] + b[1] * 0x100 + b[2] * 0x1_0000 + b[3] * 0x100_0000
}

/// The four little-endian bytes of `n`.
pub open spec fn enc_u32(n: u32) -> Seq<u8> {
    seq![
        (n & 0xff) as u8,
        ((n >> 8) & 0xff) as u8,
        ((n >> 16) & 0xff) as u8,
        ((n >> 24) & 0xff) as u8,
    ]
}

/// The four bytes of `enc_u32(n)` decode back to `n`.
pub proof fn lemma_enc_u32_val(n: u32)
    ensures
        enc_u32(n).len() == 4,
        u32_le_val(enc_u32(n)) == n,
{
    assert((n & 0xff) + ((n >> 8) & 0xff) * 0x100 + ((n >> 16) & 0xff) * 0x1_0000
        + ((n >> 24) & 0xff) * 0x100_0000 == n) by (bit_vector);
    assert(((n & 0xff) as u8) == n & 0xff && (((n >> 8) & 0xff) as u8) == (n >> 8) & 0xff
        && (((n >> 16) & 0xff) as u8) == (n >> 16) & 0xff
        && (((n >> 24) & 0xff) as u8) == (n >> 24) & 0xff) by (bit_vector);
}

/// Four bytes with a given little-endian value are exactly `enc_u32` of it:
/// the encoding is injective.
pub proof fn lemma_u32_le_bytes(b0: u8, b1: u8, b2: u8, b3: u8, n: u32)
    requires
        b0 + b1 * 0x100 + b2 * 0x1_0000 + b3 * 0x100_0000 == n,
    ensures
        seq![b0, b1, b2, b3] == enc_u32(n),
{
    assert(b0 + b1 * 0x100 + b2 * 0x1_0000 + b3 * 0x100_0000 == n ==> b0 == (n & 0xff) as u8
        && b1 == ((n >> 8) & 0xff) as u8 && b2 == ((n >> 16) & 0xff) as u8
        && b3 == ((n >> 24) & 0xff) as u8) by (bit_vector);
    assert(seq![b0, b1, b2, b3] =~= enc_u32(n));
}

/// A blob can carry a four-byte length prefix.
pub open spec fn blob_ok(b: Seq<u8>) -> bool {
    b.len() < 0x1_0000_0000
}

/// A length-prefixed blob.
pub open spec fn enc_blob(b: Seq<u8>) -> Seq<u8>
    recommends
        blob_ok(b),
{
    enc_u32(b.len() as u32) + b
}

/// Every blob of the list can be length-prefixed, and so can the list itself.
pub open spec fn blobs_ok(l: Seq<Seq<u8>>) -> bool {
    &&& l.len() < 0x1_0000_0000
    &&& forall|i: int| 0 <= i < l.len() ==> blob_ok(#[trigger] l[i])
}

/// The concatenation of the length-prefixed blobs of `l`.
pub open spec fn enc_blobs(l: Seq<Seq<u8>>) -> Seq<u8>
    decreases l.len(),
{
    if l.len() == 0 {
        Seq::empty()
    } else {
        enc_blob(l[0]) + enc_blobs(l.drop_first())
    }
}

/// A counted blob list: the number of blobs, then the blobs themselves.
pub open spec fn enc_blob_list(l: Seq<Seq<u8>>) -> Seq<u8>
    recommends
        blobs_ok(l),
{
    enc_u32(l.len() as u32) + enc_blobs(l)
}

/// `enc_blobs` distributes over concatenation.
pub proof fn lemma_enc_blobs_concat(a: Seq<Seq<u8>>, b: Seq<Seq<u8>>)
    ensures
        enc_blobs(a + b) == enc_blobs(a) + enc_blobs(b),
    decreases a.len(),
{
    if a.len() == 0 {
        assert(a + b =~= b);
        assert(enc_blobs(a) + enc_blobs(b) =~= enc_blobs(b));
    } else {
        assert((a + b).drop_first() =~= a.drop_first() + b);
        lemma_enc_blobs_concat(a.drop_first(), b);
        assert(enc_blob((a + b)[0]) + (enc_blobs(a.drop_first()) + enc_blobs(b)) =~= enc_blobs(a)
            + enc_blobs(b));
    }
}

/// Appending one blob appends its encoding.
pub proof fn lemma_enc_blobs_push(l: Seq<Seq<u8>>, x: Seq<u8>)
    ensures
        enc_blobs(l.push(x)) == enc_blobs(l) + enc_blob(x),
{
    assert(l.push(x) =~= l + seq![x]);
    lemma_enc_blobs_concat(l, seq![x]);
    assert(seq![x].drop_first() =~= Seq::<Seq<u8>>::empty());
    assert(seq![x].len() == 1 && seq![x][0] == x);
    assert(enc_blobs(seq![x]) == enc_blob(x) + enc_blobs(Seq::<Seq<u8>>::empty()));
    assert(enc_blob(x) + Seq::<u8>::empty() =~= enc_blob(x));
}

/// Splitting a concatenation at the length of its first part.
pub proof fn lemma_concat_split(a: Seq<u8>, b: Seq<u8>, c: Seq<u8>, d: Seq<u8>)
    requires
        a + b == c + d,
        a.len() == c.len(),
    ensures
        a == c,
        b == d,
{
    assert forall|i: int| 0 <= i < a.len() implies a[i] == c[i] by {
        assert((a + b)[i] == a[i]);
        assert((c + d)[i] == c[i]);
    }
    assert(a =~= c);
    assert((a + b).len() == a.len() + b.len());
    assert((c + d).len() == c.len() + d.len());
    assert(b.len() == d.len());
    assert forall|i: int| 0 <= i < b.len() implies b[i] == d[i] by {
        assert((a + b)[a.len() + i] == b[i]);
        assert((c + d)[c.len() + i] == d[i]);
    }
    assert(b =~= d);
}

/// Two length-prefixed blobs heading the same byte sequence are the same blob.
pub proof fn lemma_enc_blob_inj(s1: Seq<u8>, s2: Seq<u8>, a: Seq<u8>, b: Seq<u8>)
    requires
        blob_ok(s1),
        blob_ok(s2),
        enc_blob(s1) + a == enc_blob(s2) + b,
    ensures
        s1 == s2,
        a == b,
{
    let t1 = s1 + a;
    let t2 = s2 + b;
    assert(enc_u32(s1.len() as u32) + t1 =~= enc_blob(s1) + a);
    assert(enc_u32(s2.len() as u32) + t2 =~= enc_blob(s2) + b);
    lemma_enc_u32_val(s1.len() as u32);
    lemma_enc_u32_val(s2.len() as u32);
    lemma_concat_split(enc_u32(s1.len() as u32), t1, enc_u32(s2.len() as u32), t2);
    assert(u32_le_val(enc_u32(s1.len() as u32)) == u32_le_val(enc_u32(s2.len() as u32)));
    assert(s1.len() == s2.len());
    lemma_concat_split(s1, a, s2, b);
}

/// A shorter encoded blob sequence heading the same bytes as a longer one is
/// its prefix, blob for blob.
pub proof fn lemma_enc_blobs_prefix(p: Seq<Seq<u8>>, l: Seq<Seq<u8>>, a: Seq<u8>, b: Seq<u8>)
    requires
        blobs_ok(p),
        blobs_ok(l),
        p.len() <= l.len(),
        enc_blobs(p) + a == enc_blobs(l) + b,
    ensures
        p == l.take(p.len() as int),
        a == enc_blobs(l.skip(p.len() as int)) + b,
    decreases p.len(),
{
    if p.len() == 0 {
        assert(p =~= l.take(0));
        assert(l.skip(0) =~= l);
        assert(enc_blobs(p) + a =~= a);
    } else {
        assert(enc_blob(p[0]) + (enc_blobs(p.drop_first()) + a) =~= enc_blobs(p) + a);
        assert(enc_blob(l[0]) + (enc_blobs(l.drop_first()) + b) =~= enc_blobs(l) + b);
        lemma_enc_blob_inj(p[0], l[0], enc_blobs(p.drop_first()) + a, enc_blobs(l.drop_first()) + b);
        assert(blobs_ok(p.drop_first())) by {
            assert(forall|i: int|
                0 <= i < p.drop_first().len() ==> #[trigger] p.drop_first()[i] == p[i + 1]);
        }
        assert(blobs_ok(l.drop_first())) by {
            assert(forall|i: int|
                0 <= i < l.drop_first().len() ==> #[trigger] l.drop_first()[i] == l[i + 1]);
        }
        lemma_enc_blobs_prefix(p.drop_first(), l.drop_first(), a, b);
        assert(p =~= l.take(p.len() as int)) by {
            assert(forall|i: int|
                1 <= i < p.len() ==> #[trigger] p[i] == p.drop_first()[i - 1] && l.drop_first()[i
                    - 1] == l[i]);
        }
        assert(l.drop_first().skip(p.len() - 1) =~= l.skip(p.len() as int));
    }
}

/// Equal-length encoded blob lists heading the same bytes are equal.
pub proof fn lemma_enc_blob_list_inj(p: Seq<Seq<u8>>, l: Seq<Seq<u8>>, a: Seq<u8>, b: Seq<u8>)
    requires
        blobs_ok(p),
        blobs_ok(l),
        enc_blob_list(p) + a == enc_blob_list(l) + b,
    ensures
        p == l,
        a == b,
{
    assert(enc_u32(p.len() as u32) + (enc_blobs(p) + a) =~= enc_blob_list(p) + a);
    assert(enc_u32(l.len() as u32) + (enc_blobs(l) + b) =~= enc_blob_list(l) + b);
    lemma_enc_u32_val(p.len() as u32);
    lemma_enc_u32_val(l.len() as u32);
    lemma_concat_split(
        enc_u32(p.len() as u32),
        enc_blobs(p) + a,
        enc_u32(l.len() as u32),
        enc_blobs(l) + b,
    );
    assert(p.len() == l.len());
    lemma_enc_blobs_prefix(p, l, a, b);
    assert(l.take(p.len() as int) =~= l);
    assert(l.skip(p.len() as int) =~= Seq::<Seq<u8>>::empty());
    assert(enc_blobs(l.skip(p.len() as int)) + b =~= b);
}

/// The plain concatenation of a sequence of byte sequences, in order.
pub open spec fn concat_all(l: Seq<Seq<u8>>) -> Seq<u8>
    decreases l.len(),
{
    if l.len() == 0 {
        Seq::empty()
    } else {
        l[0] + concat_all(l.drop_first())
    }
}

/// `concat_all` distributes over concatenation.
pub proof fn lemma_concat_all_concat(a: Seq<Seq<u8>>, b: Seq<Seq<u8>>)
    ensures
        concat_all(a + b) == concat_all(a) + concat_all(b),
    decreases a.len(),
{
    if a.len() == 0 {
        assert(a + b =~= b);
        assert(concat_all(a) + concat_all(b) =~= concat_all(b));
    } else {
        assert((a + b).drop_first() =~= a.drop_first() + b);
        lemma_concat_all_concat(a.drop_first(), b);
        assert((a + b)[0] + (concat_all(a.drop_first()) + concat_all(b)) =~= concat_all(a)
            + concat_all(b));
    }
}

/// Appending one sequence appends its bytes.
pub proof fn lemma_concat_all_push(l: Seq<Seq<u8>>, x: Seq<u8>)
    ensures
        concat_all(l.push(x)) == concat_all(l) + x,
{
    assert(l.push(x) =~= l + seq![x]);
    lemma_concat_all_concat(l, seq![x]);
    assert(seq![x].drop_first() =~= Seq::<Seq<u8>>::empty());
    assert(concat_all(seq![x]) == x + concat_all(Seq::<Seq<u8>>::empty()));
    assert(x + Seq::<u8>::empty() =~= x);
}

/// Where `enc_blob(s)` sits at position `i` of `b`, its length prefix and
/// its content can be read back.
pub proof fn lemma_blob_here(b: Seq<u8>, i: int, s: Seq<u8>)
    requires
        blob_ok(s),
        0 <= i,
        i + enc_blob(s).len() <= b.len(),
        b.subrange(i, i + enc_blob(s).len()) == enc_blob(s),
    ensures
        i + 4 <= b.len(),
        u32_le_val(b.subrange(i, i + 4)) == s.len(),
        b.subrange(i + 4, i + 4 + s.len()) == s,
{
    lemma_enc_u32_val(s.len() as u32);
    let e = b.subrange(i, i + enc_blob(s).len());
    assert(b.subrange(i, i + 4) =~= e.subrange(0, 4));
    assert(e.subrange(0, 4) =~= enc_u32(s.len() as u32));
    assert(b.subrange(i + 4, i + 4 + s.len()) =~= e.subrange(4, 4 + s.len() as int));
    assert(e.subrange(4, 4 + s.len() as int) =~= s);
}

/// The deep view of a vector of byte vectors, element by element.
pub proof fn lemma_blobs_deep_view(v: Vec<Vec<u8>>)
    ensures
        v.deep_view().len() == v@.len(),
        forall|i: int| 0 <= i < v@.len() ==> v.deep_view()[i] == v@[i]@,
{
    assert forall|i: int| 0 <= i < v@.len() implies v.deep_view()[i] == v@[i]@ by {
        assert(v.deep_view()[i] =~= v@[i]@);
    }
}

/// Pushing a byte vector pushes its view onto the deep view.
pub proof fn lemma_deep_view_push(v: Seq<Vec<u8>>, x: Vec<u8>, w: Vec<Vec<u8>>)
    requires
        w@ == v.push(x),
    ensures
        w.deep_view() == Seq::new(v.len(), |i: int| v[i]@).push(x@),
{
    let dv = Seq::new(v.len(), |i: int| v[i]@);
    assert forall|i: int| 0 <= i < w@.len() implies w.deep_view()[i] == dv.push(x@)[i] by {
        if i < v.len() {
            assert(w@[i] == v[i]);
            assert(w.deep_view()[i] =~= v[i]@);
        } else {
            assert(w@[i] == x);
            assert(w.deep_view()[i] =~= x@);
        }
    }
    assert(w.deep_view() =~= dv.push(x@));
}

/// Copies the bytes `b[i..j]`.
pub fn copy_range(b: &Vec<u8>, i: usize, j: usize) -> (r: Vec<u8>)
    requires
        i <= j <= b@.len(),
    ensures
        r@ == b@.subrange(i as int, j as int),
{
    let mut r: Vec<u8> = Vec::new();
    let mut k: usize = i;
    while k < j
        invariant
            i <= k <= j <= b@.len(),
            r@ == b@.subrange(i as int, k as int),
        decreases j - k,
    {
        r.push(b[k]);
        proof {
            assert(b@.subrange(i as int, k + 1) =~= b@.subrange(i as int, k as int).push(
                b@[k as int],
            ));
        }
        k = k + 1;
    }
    r
}

/// Compares two byte vectors by content.
pub fn bytes_eq(a: &Vec<u8>, b: &Vec<u8>) -> (r: bool)
    ensures
        r == (a@ == b@),
{
    if a.len() != b.len() {
        return false;
    }
    let mut k: usize = 0;
    while k < a.len()
        invariant
            a@.len() == b@.len(),
            k <= a@.len(),
            forall|m: int| 0 <= m < k ==> a@[m] == b@[m],
        decreases a@.len() - k,
    {
        if a[k] != b[k] {
            return false;
        }
        k = k + 1;
    }
    proof {
        assert(a@ =~= b@);
    }
    true
}

/// Reads a four-byte little-endian length at position `i`.
pub fn read_u32(b: &Vec<u8>, i: usize) -> (r: Option<(u32, usize)>)
    requires
        i <= b@.len(),
    ensures
        match r {
            Some(p) => i + 4 <= b@.len() && p.1 == i + 4 && p.0 == u32_le_val(
                b@.subrange(i as int, i + 4),
            ),
            None => i + 4 > b@.len(),
        },
{
    if b.len() - i >= 4 {
        let v: u32 = (b[i] as u32) + (b[i + 1] as u32) * 0x100 + (b[i + 2] as u32) * 0x1_0000 + (b[i
            + 3] as u32) * 0x100_0000;
        proof {
            let s = b@.subrange(i as int, i + 4);
            assert(s[0] == b@[i as int] && s[1] == b@[i + 1] && s[2] == b@[i + 2] && s[3] == b@[i
                + 3]);
        }
        Some((v, i + 4))
    } else {
        None
    }
}

/// Appends the four little-endian bytes of `n`.
pub fn write_u32(out: &mut Vec<u8>, n: u32)
    ensures
        final(out)@ == old(out)@ + enc_u32(n),
{
    out.push((n & 0xff) as u8);
    out.push(((n >> 8) & 0xff) as u8);
    out.push(((n >> 16) & 0xff) as u8);
    out.push(((n >> 24) & 0xff) as u8);
    proof {
        assert(out@ =~= old(out)@ + enc_u32(n));
    }
}

/// Appends the bytes of `src`.
pub fn append_bytes(out: &mut Vec<u8>, src: &Vec<u8>)
    ensures
        final(out)@ == old(out)@ + src@,
{
    let mut k: usize = 0;
    while k < src.len()
        invariant
            k <= src@.len(),
            out@ == old(out)@ + src@.subrange(0, k as int),
        decreases src@.len() - k,
    {
        out.push(src[k]);
        proof {
            assert(old(out)@ + src@.subrange(0, k + 1) =~= (old(out)@ + src@.subrange(
                0,
                k as int,
            )).push(src@[k as int]));
        }
        k = k + 1;
    }
    proof {
        assert(src@.subrange(0, src@.len() as int) =~= src@);
    }
}

/// Appends a length-prefixed blob.
pub fn write_blob(out: &mut Vec<u8>, src: &Vec<u8>)
    requires
        blob_ok(src@),
    ensures
        final(out)@ == old(out)@ + enc_blob(src@),
{
    let n = src.len();
    proof {
        let m = n as usize;
        assert(m < 0x1_0000_0000 ==> m as u32 == m) by (bit_vector);
    }
    write_u32(out, n as u32);
    append_bytes(out, src);
    proof {
        assert(out@ =~= old(out)@ + enc_blob(src@));
    }
}

/// Reads a length-prefixed blob at position `i`; `None` exactly when no
/// whole blob fits there.
pub fn read_blob(b: &Vec<u8>, i: usize) -> (r: Option<(Vec<u8>, usize)>)
    requires
        i <= b@.len(),
    ensures
        match r {
            Some(p) => {
                &&& blob_ok(p.0@)
                &&& p.1 == i + 4 + p.0@.len()
                &&& p.1 <= b@.len()
                &&& b@.subrange(i as int, p.1 as int) == enc_blob(p.0@)
            },
            None => i + 4 > b@.len() || i + 4 + u32_le_val(b@.subrange(i as int, i + 4))
                > b@.len(),
        },
{
    match read_u32(b, i) {
        None => None,
        Some((n, j)) => {
            let len = n as usize;
            if b.len() - j >= len {
                let blob = copy_range(b, j, j + len);
                proof {
                    let s4 = b@.subrange(i as int, i + 4);
                    lemma_u32_le_bytes(s4[0], s4[1], s4[2], s4[3], n);
                    assert(s4 =~= seq![s4[0], s4[1], s4[2], s4[3]]);
                    assert(blob@.len() as u32 == n);
                    assert(b@.subrange(i as int, j + len) =~= s4 + blob@);
                }
                Some((blob, j + len))
            } else {
                None
            }
        },
    }
}

/// Parses a counted blob list at position `i`.  On success the consumed
/// bytes are exactly the encoding of the returned blobs; `None` exactly when
/// no encoded blob list sits at `i` within `b`.
pub fn parse_blob_list(b: &Vec<u8>, i: usize) -> (r: Option<(Vec<Vec<u8>>, usize)>)
    requires
        i <= b@.len(),
    ensures
        match r {
            Some(p) => {
                &&& blobs_ok(p.0.deep_view())
                &&& i <= p.1 <= b@.len()
                &&& b@.subrange(i as int, p.1 as int) == enc_blob_list(p.0.deep_view())
            },
            None => forall|l: Seq<Seq<u8>>|
                blobs_ok(l) && i + enc_blob_list(l).len() <= b@.len() ==> b@.subrange(
                    i as int,
                    i + enc_blob_list(l).len(),
                ) != enc_blob_list(l),
        },
{
    let (n, start) = match read_u32(b, i) {
        None => {
            return None;
        },
        Some(p) => p,
    };
    let mut out: Vec<Vec<u8>> = Vec::new();
    let mut c: usize = start;
    let mut j: u32 = 0;
    while j < n
        invariant
            i + 4 <= b@.len(),
            start == i + 4,
            i + 4 <= c <= b@.len(),
            j <= n,
            n == u32_le_val(b@.subrange(i as int, i + 4)),
            out.deep_view().len() == j,
            blobs_ok(out.deep_view()),
            c == i + 4 + enc_blobs(out.deep_view()).len(),
            b@.subrange(i + 4, c as int) == enc_blobs(out.deep_view()),
        decreases n - j,
    {
        match read_blob(b, c) {
            None => {
                proof {
                    lemma_no_list_here(b@, i as int, out.deep_view(), n, c as int);
                }
                return None;
            },
            Some((blob, c2)) => {
                let ghost pre = out@;
                let ghost predv = out.deep_view();
                out.push(blob);
                proof {
                    lemma_deep_view_push(pre, blob, out);
                    assert(predv =~= Seq::new(pre.len(), |k: int| pre[k]@)) by {
                        assert forall|k: int| 0 <= k < pre.len() implies predv[k] == pre[k]@ by {
                            assert(predv[k] =~= pre[k]@);
                        }
                    }
                    assert(out.deep_view() == predv.push(blob@));
                    lemma_enc_blobs_push(predv, blob@);
                    assert(b@.subrange(i + 4, c2 as int) =~= enc_blobs(predv) + enc_blob(blob@));
                    assert(forall|k: int|
                        0 <= k < out.deep_view().len() ==> blob_ok(#[trigger] out.deep_view()[k]));
                }
                c = c2;
                j = j + 1;
            },
        }
    }
    proof {
        let dv = out.deep_view();
        let s4 = b@.subrange(i as int, i + 4);
        lemma_u32_le_bytes(s4[0], s4[1], s4[2], s4[3], n);
        assert(s4 =~= seq![s4[0], s4[1], s4[2], s4[3]]);
        assert(dv.len() as u32 == n);
        assert(b@.subrange(i as int, c as int) =~= s4 + enc_blobs(dv));
        assert(b@.subrange(i as int, c as int) == enc_blob_list(dv));
    }
    Some((out, c))
}

/// At a state where `parsed` blobs have been read and the next blob read
/// fails, no whole encoded blob list can sit at `i`.
proof fn lemma_no_list_here(b: Seq<u8>, i: int, parsed: Seq<Seq<u8>>, n: u32, c: int)
    requires
        0 <= i,
        i + 4 <= b.len(),
        blobs_ok(parsed),
        parsed.len() < n,
        n == u32_le_val(b.subrange(i, i + 4)),
        i + 4 <= c <= b.len(),
        c == i + 4 + enc_blobs(parsed).len(),
        b.subrange(i + 4, c) == enc_blobs(parsed),
        c + 4 > b.len() || c + 4 + u32_le_val(b.subrange(c, c + 4)) > b.len(),
    ensures
        forall|l: Seq<Seq<u8>>|
            blobs_ok(l) && i + enc_blob_list(l).len() <= b.len() ==> b.subrange(
                i,
                i + enc_blob_list(l).len(),
            ) != enc_blob_list(l),
{
    assert forall|l: Seq<Seq<u8>>|
        blobs_ok(l) && i + enc_blob_list(l).len() <= b.len() implies b.subrange(
        i,
        i + enc_blob_list(l).len(),
    ) != enc_blob_list(l) by {
        if b.subrange(i, i + enc_blob_list(l).len()) == enc_blob_list(l) {
            let el = enc_blob_list(l).len();
            let e = b.subrange(i, i + el);
            lemma_enc_u32_val(l.len() as u32);
            assert(b.subrange(i, i + 4) =~= e.subrange(0, 4));
            assert(e.subrange(0, 4) =~= enc_u32(l.len() as u32));
            assert(n == l.len());
            assert(b.subrange(i + 4, i + el) =~= e.subrange(4, el as int));
            assert(e.subrange(4, el as int) =~= enc_blobs(l));
            let a1 = b.subrange(c, b.len() as int);
            let b1 = b.subrange(i + el, b.len() as int);
            assert(b.subrange(i + 4, b.len() as int) =~= enc_blobs(parsed) + a1);
            assert(b.subrange(i + 4, b.len() as int) =~= enc_blobs(l) + b1);
            lemma_enc_blobs_prefix(parsed, l, a1, b1);
            let rest = l.skip(parsed.len() as int);
            assert(rest.len() > 0);
            assert(blobs_ok(rest)) by {
                assert(forall|k: int|
                    0 <= k < rest.len() ==> #[trigger] rest[k] == l[k + parsed.len()]);
            }
            assert(enc_blobs(rest) == enc_blob(rest[0]) + enc_blobs(rest.drop_first()));
            assert(a1 =~= enc_blob(rest[0]) + (enc_blobs(rest.drop_first()) + b1));
            let s0 = rest[0];
            assert(a1.len() >= 4 + s0.len());
            assert(c + 4 + s0.len() <= b.len());
            lemma_enc_u32_val(s0.len() as u32);
            assert(b.subrange(c, c + 4) =~= (enc_blob(s0) + (enc_blobs(rest.drop_first())
                + b1)).subrange(0, 4));
            assert((enc_blob(s0) + (enc_blobs(rest.drop_first()) + b1)).subrange(0, 4) =~= enc_u32(
                s0.len() as u32,
            ));
            assert(u32_le_val(b.subrange(c, c + 4)) == s0.len());
            assert(false);
        }
    }
}

} // verus!


