//! Signal detection in a spectrum.
//!
//! CA-CFAR (cell averaging, constant false alarm rate): for every bin the mean
//! of the training cells to its left and right estimates the noise; guard cells
//! in between keep the signal itself out of the estimate. A bin counts as
//! occupied if it exceeds the estimate by a fixed threshold. Occupied
//! neighbours are merged into one signal.
//!
//! The levels are order keys, see [`crate::order`].

use crate::order;
use vstd::prelude::*;

verus! {

/// Settings of the detector.
#[derive(Clone, Copy, Debug, PartialEq, Eq, Structural)]
pub struct CfarConfig {
    /// Guard cells on each side of the tested bin.
    pub guard: usize,
    /// Training cells on each side, from which the noise is estimated.
    pub train: usize,
    /// How far a bin must be above the noise estimate.
    pub threshold_db: i64,
    /// Gaps up to this width in bins join two hits to one signal.
    pub max_gap: usize,
}

impl Default for CfarConfig {
    /// Eight guard cells, 24 training cells, 10 dB, gaps up to two bins.
    fn default() -> (c: Self)
        ensures
            c == (CfarConfig { guard: 8, train: 24, threshold_db: 0x4120_0000, max_gap: 2 }),
    {
        CfarConfig { guard: 8, train: 24, threshold_db: 0x4120_0000, max_gap: 2 }
    }
}

/// Ranges of the training cells of a bin, each without its end.
#[derive(Clone, Copy, Debug, PartialEq, Eq, Structural)]
pub struct Cells {
    pub left_from: usize,
    pub left_to: usize,
    pub right_from: usize,
    pub right_to: usize,
}

/// Bin `j` is a training cell.
pub open spec fn in_cells(c: Cells, j: int) -> bool {
    c.left_from <= j < c.left_to || c.right_from <= j < c.right_to
}

/// Bin `j` of `n` is to train bin `i`: beyond the guard cells, but not further
/// than the training cells reach.
pub open spec fn trains(j: int, i: int, n: int, guard: int, train: int) -> bool {
    &&& 0 <= j < n
    &&& guard < (if j < i {
        i - j
    } else {
        j - i
    }) <= guard + train
}

impl Cells {
    /// How many cells there are.
    pub fn count(&self) -> (r: usize)
        requires
            self.left_from <= self.left_to <= self.right_from <= self.right_to,
        ensures
            r == (self.left_to - self.left_from) + (self.right_to - self.right_from),
    {
        (self.left_to - self.left_from) + (self.right_to - self.right_from)
    }
}

/// The training cells of bin `i` of `n`. At the edge only the side that exists
/// counts.
pub fn training_cells(i: usize, n: usize, cfg: &CfarConfig) -> (c: Cells)
    requires
        i < n,
        i + cfg.guard + cfg.train + 1 <= usize::MAX,
    ensures
        c.left_from <= c.left_to <= i < c.right_from <= c.right_to <= n,
        forall|j: int|
            #![trigger in_cells(c, j)]
            in_cells(c, j) <==> trains(j, i as int, n as int, cfg.guard as int, cfg.train as int),
        c.left_to == (if i >= cfg.guard {
            i - cfg.guard
        } else {
            0
        }),
        c.left_from == (if i >= cfg.guard + cfg.train {
            i - cfg.guard - cfg.train
        } else {
            0
        }),
        c.right_from == (if i + cfg.guard + 1 <= n {
            i + cfg.guard + 1
        } else {
            n as int
        }),
        c.right_to == (if i + cfg.guard + 1 + cfg.train <= n {
            i + cfg.guard + 1 + cfg.train
        } else {
            n as int
        }),
{
    let left_to: usize = if i >= cfg.guard {
        i - cfg.guard
    } else {
        0
    };
    let left_from: usize = if left_to >= cfg.train {
        left_to - cfg.train
    } else {
        0
    };
    let inner: usize = i + cfg.guard + 1;
    let outer: usize = inner + cfg.train;
    let right_from: usize = if inner <= n {
        inner
    } else {
        n
    };
    let right_to: usize = if outer <= n {
        outer
    } else {
        n
    };
    Cells { left_from, left_to, right_from, right_to }
}

/// An occupied range, its ends included, and its strongest bin.
#[derive(Clone, Copy, Debug, PartialEq, Eq, Structural)]
pub struct Span {
    pub first: usize,
    pub last: usize,
    pub peak: usize,
}

/// A hit follows bin `i` within the range, after a gap of at most `max_gap`.
pub open spec fn goes_on(hit: Seq<bool>, i: int, last: int, max_gap: int) -> bool {
    exists|j: int| i < j <= last && j <= i + max_gap + 1 && #[trigger] hit[j]
}

/// The range begins and ends with a hit and has no gap wider than `max_gap`.
pub open spec fn is_range(hit: Seq<bool>, first: int, last: int, max_gap: int) -> bool {
    &&& 0 <= first <= last < hit.len()
    &&& hit[first]
    &&& hit[last]
    &&& forall|i: int| first <= i < last ==> #[trigger] goes_on(hit, i, last, max_gap)
}

/// The ranges up to bin `n`: ascending, separated by gaps wider than
/// `max_gap`, and together they hold every hit.
pub open spec fn are_ranges(hit: Seq<bool>, spans: Seq<Span>, max_gap: int, n: int) -> bool {
    &&& forall|k: int|
        0 <= k < spans.len() ==> is_range(
            hit,
            (#[trigger] spans[k]).first as int,
            spans[k].last as int,
            max_gap,
        ) && spans[k].last < n
    &&& forall|k: int, l: int|
        0 <= k < l < spans.len() ==> (#[trigger] spans[k]).last + max_gap + 1 < (
        #[trigger] spans[l]).first
    &&& forall|i: int| 0 <= i < n && hit[i] ==> #[trigger] is_covered(spans, i)
}

/// Bin `i` lies in one of the ranges.
pub open spec fn is_covered(spans: Seq<Span>, i: int) -> bool {
    exists|k: int| 0 <= k < spans.len() && (#[trigger] spans[k]).first <= i <= spans[k].last
}

/// The end of the range that begins at `first`: it goes on for as long as the
/// gaps are short enough.
fn range_end(hit: &[bool], first: usize, max_gap: usize) -> (last: usize)
    requires
        first < hit@.len(),
        hit@[first as int],
    ensures
        is_range(hit@, first as int, last as int, max_gap as int),
        forall|x: int| last < x < hit@.len() && #[trigger] hit@[x] ==> last + max_gap + 1 < x,
{
    let n: usize = hit.len();
    let mut last: usize = first;
    let mut j: usize = first + 1;
    while j < n && j - last - 1 <= max_gap
        invariant
            n == hit@.len(),
            first <= last < j <= n,
            hit@[first as int],
            hit@[last as int],
            forall|x: int| first <= x < last ==> #[trigger] goes_on(
                hit@,
                x,
                last as int,
                max_gap as int,
            ),
            forall|x: int| last < x < j ==> !#[trigger] hit@[x],
        decreases n - j,
    {
        if hit[j] {
            let ghost end = last as int;
            assert forall|x: int| first <= x < j implies #[trigger] goes_on(
                hit@,
                x,
                j as int,
                max_gap as int,
            ) by {
                if x < end {
                    assert(goes_on(hit@, x, end, max_gap as int));
                    let y = choose|y: int|
                        x < y <= end && y <= x + max_gap + 1 && #[trigger] hit@[y];
                    assert(hit@[y]);
                } else {
                    assert(hit@[j as int]);
                }
            }
            last = j;
        }
        j += 1;
    }
    last
}

/// After the last range only hits far behind it are left.
spec fn is_behind(hit: Seq<bool>, spans: Seq<Span>, max_gap: int, from: int) -> bool {
    spans.len() > 0 ==> {
        &&& spans.last().last < from
        &&& forall|j: int|
            from <= j < hit.len() && #[trigger] hit[j] ==> spans.last().last + max_gap + 1 < j
    }
}

proof fn lemma_range_added(hit: Seq<bool>, spans: Seq<Span>, s: Span, max_gap: int)
    requires
        max_gap >= 0,
        are_ranges(hit, spans, max_gap, s.first as int),
        is_behind(hit, spans, max_gap, s.first as int),
        is_range(hit, s.first as int, s.last as int, max_gap),
    ensures
        are_ranges(hit, spans.push(s), max_gap, s.last + 1),
{
    let all = spans.push(s);
    let m = spans.len() as int;
    assert forall|x: int| 0 <= x < s.last + 1 && hit[x] implies #[trigger] is_covered(all, x) by {
        if x < s.first {
            assert(is_covered(spans, x));
            let k = choose|k: int|
                0 <= k < m && (#[trigger] spans[k]).first <= x <= spans[k].last;
            assert(all[k] == spans[k]);
        } else {
            assert(all[m].first <= x <= all[m].last);
        }
    }
    assert forall|k: int, l: int| 0 <= k < l < all.len() implies (#[trigger] all[k]).last + max_gap
        + 1 < (#[trigger] all[l]).first by {
        if l == m {
            assert(hit[s.first as int]);
            assert(spans.last() == spans[m - 1]);
            if k < m - 1 {
                assert(spans[k].last + max_gap + 1 < spans[m - 1].first);
                assert(is_range(
                    hit,
                    spans[m - 1].first as int,
                    spans[m - 1].last as int,
                    max_gap,
                ));
            }
        } else {
            assert(spans[k].last + max_gap + 1 < spans[l].first);
        }
    }
}

/// Merges hits to ranges and finds the strongest bin of each, the last one of
/// several.
pub fn cfar(hit: &[bool], levels: &[i64], cfg: &CfarConfig) -> (r: Vec<Span>)
    requires
        levels@.len() == hit@.len(),
    ensures
        are_ranges(hit@, r@, cfg.max_gap as int, hit@.len() as int),
        forall|k: int|
            0 <= k < r@.len() ==> order::is_last_max(
                levels@,
                (#[trigger] r@[k]).first as int,
                r@[k].last + 1,
                r@[k].peak as int,
            ),
{
    let n: usize = hit.len();
    let max_gap: usize = cfg.max_gap;
    let mut out: Vec<Span> = Vec::new();
    let mut i: usize = 0;
    while i < n
        invariant
            n == hit@.len() == levels@.len(),
            i <= n,
            are_ranges(hit@, out@, max_gap as int, i as int),
            is_behind(hit@, out@, max_gap as int, i as int),
            forall|k: int|
                0 <= k < out@.len() ==> order::is_last_max(
                    levels@,
                    (#[trigger] out@[k]).first as int,
                    out@[k].last + 1,
                    out@[k].peak as int,
                ),
        decreases n - i,
    {
        if !hit[i] {
            i += 1;
            continue;
        }
        let last: usize = range_end(hit, i, max_gap);
        let peak: usize = order::last_max(levels, i, last + 1);
        let s: Span = Span { first: i, last, peak };
        proof {
            lemma_range_added(hit@, out@, s, max_gap as int);
        }
        out.push(s);
        i = last + 1;
    }
    out
}

/// Two lists of ranges of the same hits are the same: the hits decide where
/// signals begin and end.
pub proof fn law_ranges_are_unique(hit: Seq<bool>, a: Seq<Span>, b: Seq<Span>, max_gap: int)
    requires
        max_gap >= 0,
        are_ranges(hit, a, max_gap, hit.len() as int),
        are_ranges(hit, b, max_gap, hit.len() as int),
    ensures
        a.len() == b.len(),
        forall|k: int|
            0 <= k < a.len() ==> (#[trigger] a[k]).first == b[k].first && a[k].last == b[k].last,
{
    lemma_same_ranges(hit, a, b, max_gap, a.len());
    lemma_same_ranges(hit, b, a, max_gap, b.len());
}

proof fn lemma_same_ranges(hit: Seq<bool>, a: Seq<Span>, b: Seq<Span>, max_gap: int, m: nat)
    requires
        max_gap >= 0,
        m <= a.len(),
        are_ranges(hit, a, max_gap, hit.len() as int),
        are_ranges(hit, b, max_gap, hit.len() as int),
    ensures
        m <= b.len(),
        forall|k: int|
            0 <= k < m ==> (#[trigger] a[k]).first == b[k].first && a[k].last == b[k].last,
    decreases m,
{
    if m > 0 {
        let j = m - 1;
        lemma_same_ranges(hit, a, b, max_gap, j as nat);
        assert(is_range(hit, a[j].first as int, a[j].last as int, max_gap));
        if j > 0 {
            assert(a[j - 1].last + max_gap + 1 < a[j].first);
            assert(a[j - 1].last == b[j - 1].last);
        }
        lemma_next_range(hit, b, j, a[j].first as int, max_gap);
        assert(is_range(hit, b[j].first as int, b[j].last as int, max_gap));
        if j > 0 {
            assert(b[j - 1].last + max_gap + 1 < b[j].first);
        }
        lemma_next_range(hit, a, j, b[j].first as int, max_gap);
        lemma_range_inside(hit, a[j].first as int, a[j].last as int, b, j, max_gap);
        lemma_range_inside(hit, b[j].first as int, b[j].last as int, a, j, max_gap);
    }
}

/// A hit behind the first `j` ranges is not in front of the next one.
proof fn lemma_next_range(hit: Seq<bool>, a: Seq<Span>, j: int, h: int, max_gap: int)
    requires
        max_gap >= 0,
        are_ranges(hit, a, max_gap, hit.len() as int),
        0 <= j <= a.len(),
        0 <= h < hit.len(),
        hit[h],
        j > 0 ==> h > a[j - 1].last,
    ensures
        j < a.len(),
        a[j].first <= h,
{
    assert(is_covered(a, h));
    let z = choose|z: int| 0 <= z < a.len() && (#[trigger] a[z]).first <= h <= a[z].last;
    if z < j {
        if z < j - 1 {
            assert(a[z].last + max_gap + 1 < a[j - 1].first);
            assert(is_range(hit, a[j - 1].first as int, a[j - 1].last as int, max_gap));
        }
        assert(false);
    }
    if z > j {
        assert(a[j].last + max_gap + 1 < a[z].first);
        assert(is_range(hit, a[j].first as int, a[j].last as int, max_gap));
    }
}

/// A range without wide gaps does not leave the range in which it begins.
proof fn lemma_range_inside(
    hit: Seq<bool>,
    first: int,
    last: int,
    spans: Seq<Span>,
    x: int,
    max_gap: int,
)
    requires
        max_gap >= 0,
        are_ranges(hit, spans, max_gap, hit.len() as int),
        is_range(hit, first, last, max_gap),
        0 <= x < spans.len(),
        spans[x].first <= first <= spans[x].last,
    ensures
        last <= spans[x].last,
{
    let end = spans[x].last as int;
    if last > end {
        assert(goes_on(hit, end, last, max_gap));
        let y = choose|y: int| end < y <= last && y <= end + max_gap + 1 && #[trigger] hit[y];
        assert(is_covered(spans, y));
        let z = choose|z: int| 0 <= z < spans.len() && (#[trigger] spans[z]).first <= y <= spans[z].last;
        if z > x {
            assert(spans[x].last + max_gap + 1 < spans[z].first);
        } else if z < x {
            assert(spans[z].last + max_gap + 1 < spans[x].first);
        }
        assert(false);
    }
}

/// Two successive hits are in one range exactly if the gap between them is no
/// longer than it may be.
pub proof fn law_gaps_decide(hit: Seq<bool>, spans: Seq<Span>, max_gap: int, i: int, j: int)
    requires
        max_gap >= 0,
        are_ranges(hit, spans, max_gap, hit.len() as int),
        0 <= i < j < hit.len(),
        hit[i],
        hit[j],
        forall|k: int| i < k < j ==> !#[trigger] hit[k],
    ensures
        (exists|k: int| 0 <= k < spans.len() && (#[trigger] spans[k]).first <= i && j <= spans[k].last)
            <==> j - i - 1 <= max_gap,
{
    assert(is_covered(spans, i) && is_covered(spans, j));
    let k = choose|k: int| 0 <= k < spans.len() && (#[trigger] spans[k]).first <= i <= spans[k].last;
    let l = choose|l: int| 0 <= l < spans.len() && (#[trigger] spans[l]).first <= j <= spans[l].last;
    if k < l {
        assert(spans[k].last + max_gap + 1 < spans[l].first);
    } else if l < k {
        assert(spans[l].last + max_gap + 1 < spans[k].first);
    }
    if exists|k: int| 0 <= k < spans.len() && (#[trigger] spans[k]).first <= i && j <= spans[k].last {
        let m = choose|m: int|
            0 <= m < spans.len() && (#[trigger] spans[m]).first <= i && j <= spans[m].last;
        assert(goes_on(hit, i, spans[m].last as int, max_gap));
        let x = choose|x: int|
            i < x <= spans[m].last && x <= i + max_gap + 1 && #[trigger] hit[x];
        assert(x >= j);
    }
}

/// A range begins and ends with a hit, and every hit is in one.
pub proof fn law_ranges_hold_the_hits(hit: Seq<bool>, spans: Seq<Span>, max_gap: int, k: int, i: int)
    requires
        are_ranges(hit, spans, max_gap, hit.len() as int),
        0 <= k < spans.len(),
        0 <= i < hit.len(),
    ensures
        spans[k].first <= spans[k].last < hit.len(),
        hit[spans[k].first as int],
        hit[spans[k].last as int],
        hit[i] ==> exists|l: int|
            0 <= l < spans.len() && (#[trigger] spans[l]).first <= i <= spans[l].last,
{
    assert(is_range(hit, spans[k].first as int, spans[k].last as int, max_gap));
    if hit[i] {
        assert(is_covered(spans, i));
    }
}

/// The noise is estimated from the cells that are farther away than the guard
/// and no farther than guard and training cells together, on either side.
pub proof fn law_training_cells_are_behind_the_guard(
    i: int,
    n: int,
    guard: int,
    train: int,
    d: int,
)
    requires
        0 <= i < n,
        guard >= 0,
        train >= 0,
        d >= 0,
    ensures
        i + d < n ==> (trains(i + d, i, n, guard, train) <==> guard + 1 <= d <= guard + train),
        i - d >= 0 ==> (trains(i - d, i, n, guard, train) <==> guard + 1 <= d <= guard + train),
{
}

} // verus!
