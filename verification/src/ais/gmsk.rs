//! Placement of the shaped pulses of a burst. Every level contributes one
//! pulse of five bit durations, which begins two bit durations before its bit.

use vstd::prelude::*;

verus! {

/// Where the pulse of one level falls into the samples of a burst.
#[derive(Clone, Copy, Debug, PartialEq, Eq)]
pub struct PulseSpan {
    /// First sample that the pulse touches.
    pub first: usize,
    /// One past the last sample that it touches.
    pub end: usize,
    /// Place within the pulse that falls on `first`.
    pub offset: usize,
}

/// Sample `n` of the burst takes the pulse of level `k` at place `m`.
pub open spec fn pulse_touches(k: int, sps: int, len: int, n: int, m: int) -> bool {
    &&& 0 <= n < len
    &&& 0 <= m < 5 * sps
    &&& n == k * sps - 2 * sps + m
}

/// The span of the pulse of level `k`, with `sps` samples per bit, in a burst
/// of `len` samples.
pub fn pulse_span(k: usize, sps: usize, len: usize) -> (r: PulseSpan)
    requires
        k * sps + 3 * sps <= usize::MAX,
    ensures
        forall|n: int, m: int| #[trigger]
            pulse_touches(k as int, sps as int, len as int, n, m) <==> r.first <= n < r.end && m
                == r.offset + (n - r.first),
        r.first < r.end ==> r.end <= len && r.offset + (r.end - r.first) <= 5 * sps,
{
    assert(0 <= k * sps) by (nonlinear_arith);
    let at: usize = k * sps;
    let lead: usize = 2 * sps;
    let (first, offset): (usize, usize) = if at >= lead {
        (at - lead, 0)
    } else {
        (0, lead - at)
    };
    let past: usize = at + 3 * sps;
    let end: usize = if past < len {
        past
    } else {
        len
    };
    PulseSpan { first, end, offset }
}

} // verus!
