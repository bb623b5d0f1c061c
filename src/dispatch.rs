//! Partition of the agent slots into contiguous chunks, one per unit of
//! parallel work.
use vstd::prelude::*;
use vstd::arithmetic::div_mod::{lemma_fundamental_div_mod, lemma_mod_bound};
use crate::store::min;

verus! {

/// Default number of agents per chunk.
pub const CHUNK_SIZE: usize = 512;

/// `s` cuts `[0, count)` into consecutive non-empty ranges `[start, end)` of
/// `size` slots each, the last one possibly shorter.
pub open spec fn is_chunking(s: Seq<(usize, usize)>, count: int, size: int) -> bool {
    &&& forall|k: int|
        0 <= k < s.len() ==> {
            &&& (#[trigger] s[k]).0 == k * size
            &&& s[k].1 == min((k + 1) * size, count)
            &&& s[k].0 < s[k].1
        }
    &&& (s.len() == 0 <==> count == 0)
    &&& s.len() > 0 ==> s.last().1 == count
}

/// The chunks of `[0, count)` for chunks of `size` slots.
pub fn chunk_bounds(count: usize, size: usize) -> (r: Vec<(usize, usize)>)
    requires
        size > 0,
    ensures
        is_chunking(r@, count as int, size as int),
{
    let mut out: Vec<(usize, usize)> = Vec::new();
    let mut start: usize = 0;
    while start < count
        invariant
            size > 0,
            start <= count,
            start < count ==> start == out@.len() * size,
            forall|k: int|
                0 <= k < out@.len() ==> {
                    &&& (#[trigger] out@[k]).0 == k * size
                    &&& out@[k].1 == min((k + 1) * size, count as int)
                    &&& out@[k].0 < out@[k].1
                },
            (out@.len() == 0 <==> start == 0),
            out@.len() > 0 ==> out@.last().1 == start,
        decreases count - start,
    {
        let end: usize = if count - start > size {
            start + size
        } else {
            count
        };
        proof {
            let k = out@.len() as int;
            assert((k + 1) * size == k * size + size) by (nonlinear_arith);
        }
        out.push((start, end));
        start = end;
        proof {
            if start < count {
                let k = out@.len() as int;
                assert(k * size == (k - 1) * size + size) by (nonlinear_arith);
            }
        }
    }
    out
}

/// Every slot of `[0, count)` lies in exactly one chunk, whatever the chunk
/// size: so each agent's force is written exactly once.
pub proof fn lemma_chunks_partition(s: Seq<(usize, usize)>, count: int, size: int, i: int)
    requires
        size > 0,
        is_chunking(s, count, size),
        0 <= i < count,
    ensures
        exists|k: int| 0 <= k < s.len() && s[k].0 <= i < #[trigger] s[k].1,
        forall|k1: int, k2: int|
            0 <= k1 < s.len() && 0 <= k2 < s.len() && (#[trigger] s[k1]).0 <= i < s[k1].1 && (
            #[trigger] s[k2]).0 <= i < s[k2].1 ==> k1 == k2,
{
    lemma_fundamental_div_mod(i, size);
    lemma_mod_bound(i, size);
    let k = i / size;
    let n = s.len() as int;
    assert(n > 0);
    let last = s[n - 1];
    assert(last.1 == min(n * size, count));
    assert(k < n) by (nonlinear_arith)
        requires
            i == size * k + i % size,
            0 <= i % size < size,
            i < count,
            min(n * size, count) == count,
            size > 0,
    ;
    assert(0 <= k) by (nonlinear_arith)
        requires
            i == size * k + i % size,
            0 <= i % size < size,
            i >= 0,
            size > 0,
    ;
    assert(k * size <= i < (k + 1) * size) by (nonlinear_arith)
        requires
            i == size * k + i % size,
            0 <= i % size < size,
    ;
    assert(s[k].0 <= i < s[k].1);
    assert forall|k1: int, k2: int|
        0 <= k1 < s.len() && 0 <= k2 < s.len() && (#[trigger] s[k1]).0 <= i < s[k1].1 && (
        #[trigger] s[k2]).0 <= i < s[k2].1 implies k1 == k2 by {
        let (a, b) = (s[k1], s[k2]);
        assert(k1 * size <= i < (k1 + 1) * size);
        assert(k2 * size <= i < (k2 + 1) * size);
        assert(k1 == k2) by (nonlinear_arith)
            requires
                k1 * size <= i < (k1 + 1) * size,
                k2 * size <= i < (k2 + 1) * size,
                size > 0,
        ;
    }
}

} // verus!
