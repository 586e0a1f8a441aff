//! Sliding analysis frames over a buffer of accumulated samples.

use vstd::prelude::*;

verus! {

/// How many frames of `frame_len` samples, `hop` samples apart, start in a
/// buffer of `buffered` samples and end inside it.
pub open spec fn frame_count(buffered: int, frame_len: int, hop: int) -> int {
    if buffered < frame_len {
        0
    } else {
        (buffered - frame_len) / hop + 1
    }
}

proof fn lemma_count_from_bounds(buffered: int, frame_len: int, hop: int, k: int)
    by (nonlinear_arith)
    requires
        0 < hop,
        0 <= k,
        buffered - k * hop < frame_len,
        k == 0 || buffered - (k - 1) * hop >= frame_len,
        k == 0 ==> buffered < frame_len,
    ensures
        k == frame_count(buffered, frame_len, hop),
{
    if k > 0 {
        let q = (buffered - frame_len) / hop;
        let r = (buffered - frame_len) % hop;
        assert(buffered - frame_len == q * hop + r);
        assert(0 <= r < hop);
        assert((k - 1) * hop <= buffered - frame_len < k * hop);
        assert(q * hop <= buffered - frame_len < (q + 1) * hop);
        if q < k - 1 {
            assert((q + 1) * hop <= (k - 1) * hop);
        }
        if q > k - 1 {
            assert(k * hop <= q * hop);
        }
    }
}

/// Schedules the frames of a buffer of `buffered` samples: frames of
/// `frame_len` samples are taken from the front while a whole frame is
/// there, and `hop` samples are dropped after each. Returns the start of
/// each frame within the buffer and how many samples are dropped in all;
/// what is left is shorter than a frame.
pub fn frame_offsets(buffered: usize, frame_len: usize, hop: usize) -> (res: (Vec<usize>, usize))
    requires
        0 < hop <= frame_len,
    ensures
        res.0@.len() == frame_count(buffered as int, frame_len as int, hop as int),
        forall|k: int| 0 <= k < res.0@.len() ==> #[trigger] res.0@[k] == k * hop,
        forall|k: int| 0 <= k < res.0@.len() ==> #[trigger] res.0@[k] + frame_len <= buffered,
        res.1 == res.0@.len() * hop,
        res.1 <= buffered,
        buffered - res.1 < frame_len,
{
    let mut offsets: Vec<usize> = Vec::new();
    let mut consumed: usize = 0;
    assert(0 * hop == 0) by (nonlinear_arith);
    while buffered - consumed >= frame_len
        invariant
            0 < hop <= frame_len,
            consumed <= buffered,
            consumed == offsets@.len() * hop,
            offsets@.len() == 0 || buffered - (offsets@.len() - 1) * hop >= frame_len,
            forall|k: int| 0 <= k < offsets@.len() ==> #[trigger] offsets@[k] == k * hop,
            forall|k: int| 0 <= k < offsets@.len() ==> #[trigger] offsets@[k] + frame_len <= buffered,
        decreases buffered - consumed,
    {
        let ghost k = offsets@.len();
        offsets.push(consumed);
        consumed = consumed + hop;
        assert(consumed == (k + 1) * hop) by (nonlinear_arith)
            requires
                consumed == k * hop + hop,
        ;
    }
    proof {
        lemma_count_from_bounds(buffered as int, frame_len as int, hop as int, offsets@.len() as int);
    }
    (offsets, consumed)
}

} // verus!
