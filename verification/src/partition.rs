//! The range partitioner: divide the input into one byte range per worker,
//! each realigned forward so that it ends immediately after a line
//! terminator (or at the end of the input).

use vstd::prelude::*;
use crate::lines::BYTE_NEWLINE;

verus! {

/// A contiguous byte range `[start, end)` of the input.
#[derive(Clone, Copy, Debug, PartialEq, Eq, Structural)]
pub struct ByteRange {
    pub start: usize,
    pub end: usize,
}

/// A line-aligned partition of `[0, data.len())`: contiguous ranges covering
/// the whole buffer, where every boundary except the final one (which is the
/// buffer's end) falls immediately after a line terminator or at the
/// buffer's end.
pub open spec fn ranges_wf(data: Seq<u8>, rs: Seq<ByteRange>) -> bool {
    &&& rs.len() >= 1
    &&& rs[0].start == 0
    &&& rs[rs.len() - 1].end == data.len()
    &&& forall|i: int| 0 <= i < rs.len() ==> (#[trigger] rs[i]).start <= rs[i].end <= data.len()
    &&& forall|i: int| 0 <= i < rs.len() - 1 ==> rs[i + 1].start == (#[trigger] rs[i]).end
    &&& forall|i: int| 0 <= i < rs.len() - 1 ==> ((#[trigger] rs[i]).end == data.len() || (
    rs[i].end > 0 && data[rs[i].end - 1] == BYTE_NEWLINE))
}

/// The candidate chunk size: the ceiling of `f / n`.
pub open spec fn chunk_base(f: nat, n: nat) -> nat {
    if f % n == 0 {
        f / n
    } else {
        f / n + 1
    }
}

/// The candidate boundary for a range starting at `start`: one chunk
/// further, clipped to the buffer's end.
pub open spec fn candidate_boundary(f: nat, n: nat, start: nat) -> nat {
    if start + chunk_base(f, n) >= f {
        f
    } else {
        start + chunk_base(f, n)
    }
}

/// `end` is the candidate boundary realigned forward: the position just
/// past the first line terminator at or after the candidate, or the
/// buffer's end when no terminator follows.
pub open spec fn aligned_boundary(data: Seq<u8>, n: nat, start: nat, end: nat) -> bool {
    let c = candidate_boundary(data.len(), n, start);
    &&& c <= end <= data.len()
    &&& (end == data.len() || (end >= 1 && data[end as int - 1] == BYTE_NEWLINE))
    &&& (forall|t: int| c <= t < end - 1 ==> data[t] != BYTE_NEWLINE)
    &&& (end == c ==> c == data.len())
}

/// Split `data` into `pool_size` line-aligned byte ranges: candidate
/// boundaries at multiples of the ceiling of `len / pool_size`, each scanned
/// forward to just past the next terminator; the final boundary is always
/// the buffer's end. When `pool_size` exceeds the line count, trailing
/// ranges are empty.
#[verifier::rlimit(60)]
pub fn compute_ranges(data: &[u8], pool_size: usize) -> (rs: Vec<ByteRange>)
    requires
        1 <= pool_size,
    ensures
        rs@.len() == pool_size,
        ranges_wf(data@, rs@),
        forall|i: int| 0 <= i < pool_size - 1 ==> aligned_boundary(
            data@,
            pool_size as nat,
            (#[trigger] rs@[i]).start as nat,
            rs@[i].end as nat,
        ),
{
    let f = data.len();
    let base = if f % pool_size == 0 {
        f / pool_size
    } else {
        proof {
            assert(pool_size >= 2);
            if f == 0 {
                vstd::arithmetic::div_mod::lemma_small_mod(0nat, pool_size as nat);
            }
            assert(f >= 1);
            vstd::arithmetic::div_mod::lemma_div_decreases(f as int, pool_size as int);
        }
        f / pool_size + 1
    };
    proof {
        assert(base == chunk_base(f as nat, pool_size as nat));
    }
    let mut rs: Vec<ByteRange> = Vec::new();
    let mut start: usize = 0;
    let mut i: usize = 0;
    while i < pool_size
        invariant
            1 <= pool_size,
            i <= pool_size,
            f == data@.len(),
            rs@.len() == i,
            start <= f,
            i == 0 ==> start == 0,
            i > 0 ==> rs@[0].start == 0,
            i > 0 ==> rs@[i as int - 1].end == start,
            i == pool_size ==> start == f,
            forall|j: int| 0 <= j < i ==> (#[trigger] rs@[j]).start <= rs@[j].end <= f,
            forall|j: int| 0 <= j < i as int - 1 ==> rs@[j + 1].start == (#[trigger] rs@[j]).end,
            forall|j: int| 0 <= j < i ==> ((#[trigger] rs@[j]).end == f || (rs@[j].end > 0
                && data@[rs@[j].end - 1] == BYTE_NEWLINE)),
            base == chunk_base(f as nat, pool_size as nat),
            forall|q: int| 0 <= q < i && q < pool_size - 1 ==> aligned_boundary(
                data@,
                pool_size as nat,
                (#[trigger] rs@[q]).start as nat,
                rs@[q].end as nat,
            ),
        decreases pool_size - i,
    {
        let end: usize;
        if i == pool_size - 1 {
            end = f;
        } else {
            let cand = if f - start < base {
                f
            } else {
                start + base
            };
            proof {
                assert(cand == candidate_boundary(f as nat, pool_size as nat, start as nat));
            }
            let mut j = cand;
            while j < f && data[j] != BYTE_NEWLINE
                invariant
                    cand <= j <= f,
                    f == data@.len(),
                    forall|t: int| cand <= t < j ==> data@[t] != BYTE_NEWLINE,
                decreases f - j,
            {
                j = j + 1;
            }
            if j < f {
                end = j + 1;
            } else {
                end = f;
            }
            proof {
                assert(aligned_boundary(data@, pool_size as nat, start as nat, end as nat));
            }
        }
        let ghost prev = rs@;
        rs.push(ByteRange { start, end });
        proof {
            assert forall|q: int| 0 <= q < i + 1 && q < pool_size - 1 implies aligned_boundary(
                data@,
                pool_size as nat,
                (#[trigger] rs@[q]).start as nat,
                rs@[q].end as nat,
            ) by {
                if q < i {
                    assert(rs@[q] == prev[q]);
                    assert(aligned_boundary(
                        data@,
                        pool_size as nat,
                        prev[q].start as nat,
                        prev[q].end as nat,
                    ));
                } else {
                    assert(rs@[q] == ByteRange { start, end });
                }
            }
        }
        start = end;
        i = i + 1;
    }
    rs
}

} // verus!
