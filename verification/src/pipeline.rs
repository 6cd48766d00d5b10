//! The chunk fetcher and the download pipeline's reassembly step.
//!
//! Fetching is performed by a caller-supplied `ChunkSource`; the engine
//! bounds the retries, computes the backoff delays, and reassembles the
//! fetched chunks in manifest-declared order no matter in which order the
//! fetches completed.

use vstd::prelude::*;
use vstd::pervasive::VecAdditionalExecFns;

use crate::PakError;
use crate::bytes::append_bytes;
use crate::bytes::copy_range;

verus! {

/// A source of chunk bytes: one retrieval attempt per `fetch` call.
/// Implementations live outside the engine (network, disk, test fixtures);
/// the engine assumes nothing about what an attempt returns.
pub trait ChunkSource {
    /// One retrieval attempt for the chunk named `id`; `None` on failure.
    fn fetch(&mut self, id: &Vec<u8>) -> Option<Vec<u8>>;

    /// Waits for `ms` milliseconds before the next attempt.
    fn pause(&mut self, ms: u64);
}

/// The backoff delay before retrying after `attempt` failures: doubling
/// from 100 ms, capped at 6400 ms.
pub open spec fn backoff_ms_spec(attempt: int) -> int
    decreases attempt,
{
    if attempt <= 0 {
        100
    } else if attempt >= 6 {
        6400
    } else {
        2 * backoff_ms_spec(attempt - 1)
    }
}

/// Computes the backoff delay before the next retry.
pub fn backoff_ms(attempt: u32) -> (r: u64)
    ensures
        r == backoff_ms_spec(attempt as int),
        100 <= r <= 6400,
{
    proof {
        assert(backoff_ms_spec(0) == 100);
        assert(backoff_ms_spec(1) == 200);
        assert(backoff_ms_spec(2) == 400);
        assert(backoff_ms_spec(3) == 800);
        assert(backoff_ms_spec(4) == 1600);
        assert(backoff_ms_spec(5) == 3200);
    }
    if attempt == 0 {
        100
    } else if attempt == 1 {
        200
    } else if attempt == 2 {
        400
    } else if attempt == 3 {
        800
    } else if attempt == 4 {
        1600
    } else if attempt == 5 {
        3200
    } else {
        6400
    }
}

/// Fetches one chunk, retrying up to `attempts` times with backoff in
/// between.  Exhausting the budget (or a zero budget) is `FetchFailed`,
/// carrying the chunk's identity; other than that, whatever the source
/// handed back is returned.
pub fn fetch_with_retry<S: ChunkSource>(src: &mut S, id: &Vec<u8>, attempts: u32) -> (r: Result<
    Vec<u8>,
    PakError,
>)
    ensures
        r is Err ==> r->Err_0.kind == crate::PakErrorKind::FetchFailed && r->Err_0.resource@
            == id@,
        attempts == 0 ==> r is Err,
{
    let mut a: u32 = 0;
    while a < attempts
        invariant
            a <= attempts,
        decreases attempts - a,
    {
        match src.fetch(id) {
            Some(d) => {
                return Ok(d);
            },
            None => {
                if a + 1 < attempts {
                    src.pause(backoff_ms(a));
                }
            },
        }
        a = a + 1;
    }
    let owned = copy_range(id, 0, id.len());
    proof {
        assert(id@.subrange(0, id@.len() as int) =~= id@);
    }
    Err(PakError::about(crate::PakErrorKind::FetchFailed, owned))
}

/// The mathematical view of a list of fetch completions: each carries the
/// chunk's position in the package and the fetched bytes.
pub open spec fn parts_view(parts: Seq<(usize, Vec<u8>)>) -> Seq<(usize, Seq<u8>)> {
    Seq::new(parts.len(), |i: int| (parts[i].0, parts[i].1@))
}

/// Some completion carries position `k`.
pub open spec fn has_part(parts: Seq<(usize, Seq<u8>)>, k: int) -> bool {
    exists|i: int| 0 <= i < parts.len() && (#[trigger] parts[i]).0 == k
}

/// A complete, unambiguous set of completions for `n` chunk positions:
/// every position is covered exactly once.
pub open spec fn parts_wf(parts: Seq<(usize, Seq<u8>)>, n: int) -> bool {
    &&& parts.len() == n
    &&& forall|i: int| 0 <= i < parts.len() ==> (#[trigger] parts[i]).0 < n
    &&& forall|i: int, j: int| 0 <= i < j < parts.len() ==> parts[i].0 != parts[j].0
    &&& forall|k: int| 0 <= k < n ==> has_part(parts, k)
}

/// The bytes fetched for position `k`.
pub open spec fn part_at(parts: Seq<(usize, Seq<u8>)>, k: int) -> Seq<u8> {
    parts[choose|i: int| 0 <= i < parts.len() && (parts[i]).0 == k].1
}

/// The package bytes: the completions' contents joined in position order,
/// whatever order they were delivered in.
pub open spec fn assembled(parts: Seq<(usize, Seq<u8>)>, n: int) -> Seq<u8>
    decreases n,
{
    if n <= 0 {
        Seq::empty()
    } else {
        assembled(parts, n - 1) + part_at(parts, n - 1)
    }
}

/// Reassembles the completions of a package of `n` chunks, in position
/// order regardless of delivery order.  `None` exactly when the set of
/// completions does not cover each of the `n` positions exactly once.
pub fn assemble_chunks(n: usize, parts: &Vec<(usize, Vec<u8>)>) -> (r: Option<Vec<u8>>)
    ensures
        r is Some <==> parts_wf(parts_view(parts@), n as int),
        r is Some ==> r->0@ == assembled(parts_view(parts@), n as int),
{
    let ghost pv = parts_view(parts@);
    if parts.len() != n {
        return None;
    }
    let mut slots: Vec<Option<Vec<u8>>> = Vec::new();
    let mut s: usize = 0;
    while s < n
        invariant
            s <= n,
            slots@.len() == s,
            forall|k: int| 0 <= k < s ==> (#[trigger] slots@[k]) is None,
        decreases n - s,
    {
        slots.push(None);
        s = s + 1;
    }
    let mut p: usize = 0;
    while p < parts.len()
        invariant
            pv == parts_view(parts@),
            pv.len() == parts@.len(),
            parts@.len() == n,
            p <= n,
            slots@.len() == n,
            forall|i: int| 0 <= i < p ==> (#[trigger] pv[i]).0 < n,
            forall|i: int, j: int| 0 <= i < j < p ==> pv[i].0 != pv[j].0,
            forall|k: int|
                0 <= k < n ==> ((#[trigger] slots@[k]) is Some <==> exists|i: int|
                    0 <= i < p && (#[trigger] pv[i]).0 == k),
            forall|i: int|
                0 <= i < p ==> (#[trigger] slots@[pv[i].0 as int]) is Some && slots@[pv[
                    i
                ].0 as int]->0@ == pv[i].1,
        decreases parts@.len() - p,
    {
        let idx = parts[p].0;
        proof {
            assert(pv[p as int] == (parts@[p as int].0, parts@[p as int].1@));
        }
        if idx >= n {
            proof {
                assert(!parts_wf(pv, n as int));
            }
            return None;
        }
        let already = match &slots[idx] {
            Some(_) => true,
            None => false,
        };
        if already {
            proof {
                let w = choose|i: int| 0 <= i < p && (#[trigger] pv[i]).0 == idx as int;
                assert(pv[w].0 == pv[p as int].0);
                assert(!parts_wf(pv, n as int));
            }
            return None;
        }
        let data = copy_range(&parts[p].1, 0, parts[p].1.len());
        proof {
            assert(data@ =~= pv[p as int].1);
        }
        slots.set(idx, Some(data));
        p = p + 1;
    }
    let mut out: Vec<u8> = Vec::new();
    let mut k: usize = 0;
    while k < n
        invariant
            pv == parts_view(parts@),
            pv.len() == n,
            slots@.len() == n,
            k <= n,
            forall|i: int| 0 <= i < pv.len() ==> (#[trigger] pv[i]).0 < n,
            forall|i: int, j: int| 0 <= i < j < pv.len() ==> pv[i].0 != pv[j].0,
            forall|k0: int|
                0 <= k0 < n ==> ((#[trigger] slots@[k0]) is Some <==> has_part(pv, k0)),
            forall|i: int|
                0 <= i < pv.len() ==> (#[trigger] slots@[pv[i].0 as int]) is Some && slots@[pv[
                    i
                ].0 as int]->0@ == pv[i].1,
            forall|k0: int| 0 <= k0 < k ==> (#[trigger] slots@[k0]) is Some,
            out@ == assembled(pv, k as int),
        decreases n - k,
    {
        match &slots[k] {
            None => {
                proof {
                    assert(!has_part(pv, k as int));
                    assert(!parts_wf(pv, n as int));
                }
                return None;
            },
            Some(d) => {
                append_bytes(&mut out, d);
                proof {
                    assert(has_part(pv, k as int));
                    let j = choose|j: int| 0 <= j < pv.len() && (pv[j]).0 == k as int;
                    assert(0 <= j < pv.len() && pv[j].0 == k as int);
                    assert(slots@[k as int]->0@ == pv[j].1);
                    assert(d@ == part_at(pv, k as int));
                }
            },
        }
        k = k + 1;
    }
    proof {
        assert forall|k0: int| 0 <= k0 < n implies has_part(pv, k0) by {
            assert(slots@[k0] is Some);
        }
        assert(parts_wf(pv, n as int));
    }
    Some(out)
}

/// Reassembly is independent of completion order: two complete completion
/// sets that hold the same indexed chunks, in whatever delivery order,
/// assemble to the same package bytes.
pub proof fn lemma_assembly_order_independent(
    p1: Seq<(usize, Seq<u8>)>,
    p2: Seq<(usize, Seq<u8>)>,
    n: int,
)
    requires
        parts_wf(p1, n),
        parts_wf(p2, n),
        p1.to_multiset() == p2.to_multiset(),
    ensures
        assembled(p1, n) == assembled(p2, n),
{
    assert forall|k: int| 0 <= k < n implies part_at(p1, k) == part_at(p2, k) by {
        lemma_part_at_common(p1, p2, n, k);
    }
    lemma_assembled_congruent(p1, p2, n);
}

/// With every position covered exactly once on both sides and the same
/// multiset of completions, each position carries the same bytes.
proof fn lemma_part_at_common(p1: Seq<(usize, Seq<u8>)>, p2: Seq<(usize, Seq<u8>)>, n: int, k: int)
    requires
        parts_wf(p1, n),
        parts_wf(p2, n),
        p1.to_multiset() == p2.to_multiset(),
        0 <= k < n,
    ensures
        part_at(p1, k) == part_at(p2, k),
{
    let i1 = choose|i: int| 0 <= i < p1.len() && (p1[i]).0 == k;
    assert(has_part(p1, k));
    assert(0 <= i1 < p1.len() && p1[i1].0 == k);
    let e = p1[i1];
    p1.to_multiset_ensures();
    p2.to_multiset_ensures();
    assert(p1.to_multiset().contains(e)) by {
        assert(p1.contains(e));
    }
    assert(p2.contains(e));
    let i2 = choose|i: int| 0 <= i < p2.len() && p2[i] == e;
    let j2 = choose|j: int| 0 <= j < p2.len() && (p2[j]).0 == k;
    assert(has_part(p2, k));
    assert(0 <= j2 < p2.len() && p2[j2].0 == k);
    assert(p2[i2].0 == k);
    assert(i2 == j2);
}

/// `assembled` only reads the per-position contents.
proof fn lemma_assembled_congruent(p1: Seq<(usize, Seq<u8>)>, p2: Seq<(usize, Seq<u8>)>, n: int)
    requires
        forall|k: int| 0 <= k < n ==> part_at(p1, k) == part_at(p2, k),
    ensures
        assembled(p1, n) == assembled(p2, n),
    decreases n,
{
    if n > 0 {
        lemma_assembled_congruent(p1, p2, n - 1);
    }
}

/// Completions delivered already in position order assemble to their own
/// concatenation: position `k` carries the `k`-th delivered content.
pub proof fn lemma_part_at_in_order(parts: Seq<(usize, Seq<u8>)>, n: int)
    requires
        parts_wf(parts, n),
        forall|i: int| 0 <= i < parts.len() ==> (#[trigger] parts[i]).0 == i,
    ensures
        forall|k: int| 0 <= k < n ==> part_at(parts, k) == parts[k].1,
{
    assert forall|k: int| 0 <= k < n implies part_at(parts, k) == parts[k].1 by {
        let i = choose|i: int| 0 <= i < parts.len() && (parts[i]).0 == k;
        assert(has_part(parts, k));
        assert(0 <= i < parts.len() && parts[i].0 == k);
        assert(parts[i].0 == i);
    }
}

} // verus!
