//! Grouping of FFT bins into contiguous, logarithmically spaced bars.

use vstd::prelude::*;

verus! {

/// A half-open range `start..end` of FFT bin indices.
#[derive(Clone, Copy, Debug, PartialEq, Eq, Structural)]
pub struct BinRange {
    pub start: usize,
    pub end: usize,
}

/// `x` clamped into `[lo, hi]`, as `Ord::clamp` computes it.
pub open spec fn clamp(x: int, lo: int, hi: int) -> int {
    if x < lo {
        lo
    } else if x > hi {
        hi
    } else {
        x
    }
}

pub open spec fn min(a: int, b: int) -> int {
    if a <= b {
        a
    } else {
        b
    }
}

pub open spec fn max(a: int, b: int) -> int {
    if a >= b {
        a
    } else {
        b
    }
}

/// The integer frame of a bar layout: the usable spectrum, the first bin
/// and the bin just past the last one that the bars cover, and how many
/// bars there are.
#[derive(Clone, Copy, Debug, PartialEq, Eq, Structural)]
pub struct BinLayout {
    pub spectrum_len: usize,
    pub first_bin: usize,
    pub end_bin: usize,
    pub bar_count: usize,
}

impl BinLayout {
    /// The bars can be laid out: at least one bar, bins `first_bin..end_bin`
    /// lie in the spectrum, and when there are several bars each of them
    /// can get a bin of its own.
    pub open spec fn wf(self) -> bool {
        &&& 1 <= self.first_bin <= self.end_bin <= self.spectrum_len
        &&& 1 <= self.bar_count
        &&& (self.bar_count == 1 || self.bar_count <= self.end_bin - self.first_bin)
    }
}

/// The `k`-th bar boundary: boundary 0 is the first bin, the last one is
/// the end bin, and each inner boundary is the caller's target bin clamped
/// so that the bar before it keeps a bin and every bar after it can still
/// get one.
pub open spec fn boundary(layout: BinLayout, targets: Seq<usize>, k: nat) -> int
    decreases k,
{
    if k == 0 {
        layout.first_bin as int
    } else if k >= layout.bar_count {
        layout.end_bin as int
    } else {
        clamp(
            targets[k - 1] as int,
            boundary(layout, targets, (k - 1) as nat) + 1,
            layout.end_bin - (layout.bar_count - k),
        )
    }
}

/// `ranges` tiles `first..end`: the first range starts at `first`, the
/// last ends at `end`, each range ends where the next one starts, and,
/// where `first < end`, no range is empty.
pub open spec fn tiles(ranges: Seq<BinRange>, first: int, end: int) -> bool {
    &&& ranges.len() >= 1
    &&& ranges[0].start == first
    &&& ranges[ranges.len() - 1].end == end
    &&& forall|i: int| 0 <= i < ranges.len() - 1 ==> #[trigger] ranges[i].end == ranges[i + 1].start
    &&& forall|i: int| 0 <= i < ranges.len() ==> #[trigger] ranges[i].start <= ranges[i].end
    &&& first < end ==> forall|i: int| 0 <= i < ranges.len() ==> #[trigger] ranges[i].start
        < ranges[i].end
}

/// The part of `r` that a spectrum of `len` magnitudes holds: `r` cut at
/// `len`, or an empty range at the cut where `r` starts past it.
pub open spec fn window(r: BinRange, len: int) -> BinRange {
    let e = min(r.end as int, len);
    if r.start <= e {
        BinRange { start: r.start, end: e as usize }
    } else {
        BinRange { start: e as usize, end: e as usize }
    }
}

/// Facts about the boundaries of a well-formed layout: they stay in
/// `first_bin..=end_bin`, each one leaves room for the bars after it, and
/// they strictly increase where `first_bin < end_bin`.
proof fn lemma_boundary(layout: BinLayout, targets: Seq<usize>, k: nat)
    requires
        layout.wf(),
        k <= layout.bar_count,
    ensures
        layout.first_bin <= boundary(layout, targets, k) <= layout.end_bin,
        layout.first_bin < layout.end_bin && k < layout.bar_count ==> boundary(layout, targets, k)
            + (layout.bar_count - k) <= layout.end_bin,
        layout.first_bin < layout.end_bin && 0 < k ==> boundary(layout, targets, (k - 1) as nat)
            < boundary(layout, targets, k),
        layout.first_bin == layout.end_bin ==> boundary(layout, targets, k) == layout.end_bin,
    decreases k,
{
    if k > 0 {
        lemma_boundary(layout, targets, (k - 1) as nat);
    }
}

/// Every bar of a well-formed layout owns bins of the spectrum, whatever
/// bins the caller aims the bar ends at: its boundaries lie between 1 and
/// the spectrum length, in order, and strictly increase while the first
/// bin is below the end bin. When the first bin is the end bin there is a
/// single bar, empty, at that bin.
pub proof fn lemma_bars_own_bins(layout: BinLayout, targets: Seq<usize>, i: nat)
    requires
        layout.wf(),
        i < layout.bar_count,
    ensures
        1 <= boundary(layout, targets, i) <= boundary(layout, targets, i + 1)
            <= layout.spectrum_len,
        layout.first_bin < layout.end_bin ==> boundary(layout, targets, i) < boundary(
            layout,
            targets,
            i + 1,
        ),
        layout.first_bin == layout.end_bin ==> layout.bar_count == 1 && boundary(layout, targets, i)
            == layout.first_bin && boundary(layout, targets, i + 1) == layout.first_bin,
{
    lemma_boundary(layout, targets, i);
    lemma_boundary(layout, targets, i + 1);
}

/// Each inner bar boundary follows its own target and nothing else: it is
/// the target, raised to one bin past the previous boundary and lowered to
/// leave one bin for each bar still to come. A target that already lies in
/// that window is taken as it is, so the bar before it ends exactly there.
pub proof fn lemma_boundary_follows_target(layout: BinLayout, targets: Seq<usize>, k: nat)
    requires
        layout.wf(),
        0 < k < layout.bar_count,
    ensures
        boundary(layout, targets, k) == max(
            boundary(layout, targets, (k - 1) as nat) + 1,
            min(targets[k - 1] as int, layout.end_bin - (layout.bar_count - k)),
        ),
        boundary(layout, targets, (k - 1) as nat) + 1 <= targets[k - 1] <= layout.end_bin - (
        layout.bar_count - k) ==> boundary(layout, targets, k) == targets[k - 1],
{
    lemma_boundary(layout, targets, (k - 1) as nat);
}

/// In a tiling, each range ends no later than any later range starts.
proof fn lemma_tiles_ordered(ranges: Seq<BinRange>, first: int, end: int, i: int, j: int)
    requires
        tiles(ranges, first, end),
        0 <= i < j < ranges.len(),
    ensures
        ranges[i].end <= ranges[j].start,
    decreases j - i,
{
    if j > i + 1 {
        lemma_tiles_ordered(ranges, first, end, i, j - 1);
        assert(ranges[j - 1].end == ranges[j].start);
    } else {
        assert(ranges[i].end == ranges[i + 1].start);
    }
}

/// Some range at or before index `k` holds `bin`, when `bin` lies at or
/// after the start of the first range and before the end of range `k`.
proof fn lemma_tiles_locate(ranges: Seq<BinRange>, first: int, end: int, bin: int, k: int)
    requires
        tiles(ranges, first, end),
        0 <= k < ranges.len(),
        first <= bin < ranges[k].end,
    ensures
        exists|i: int| 0 <= i <= k && #[trigger] ranges[i].start <= bin < ranges[i].end,
    decreases k,
{
    if ranges[k].start <= bin {
        assert(ranges[k].start <= bin < ranges[k].end);
    } else {
        assert(ranges[k - 1].end == ranges[k].start);
        lemma_tiles_locate(ranges, first, end, bin, k - 1);
    }
}

/// Every bin from the first bin up to (not including) the end bin lies in
/// exactly one bar of a tiling: no bin is skipped and none is counted twice.
pub proof fn lemma_bin_in_exactly_one_bar(ranges: Seq<BinRange>, first: int, end: int, bin: int)
    requires
        tiles(ranges, first, end),
        first <= bin < end,
    ensures
        exists|i: int| 0 <= i < ranges.len() && #[trigger] ranges[i].start <= bin < ranges[i].end,
        forall|i: int, j: int|
            0 <= i < ranges.len() && 0 <= j < ranges.len() && #[trigger] ranges[i].start <= bin
                < ranges[i].end && #[trigger] ranges[j].start <= bin < ranges[j].end ==> i == j,
{
    lemma_tiles_locate(ranges, first, end, bin, ranges.len() - 1);
    assert forall|i: int, j: int|
        0 <= i < ranges.len() && 0 <= j < ranges.len() && #[trigger] ranges[i].start <= bin
            < ranges[i].end && #[trigger] ranges[j].start <= bin < ranges[j].end implies i == j by {
        if i < j {
            lemma_tiles_ordered(ranges, first, end, i, j);
        } else if j < i {
            lemma_tiles_ordered(ranges, first, end, j, i);
        }
    }
}

/// Every range of a tiling lies within `first..end`.
pub proof fn lemma_tiles_within(ranges: Seq<BinRange>, first: int, end: int, i: int)
    requires
        tiles(ranges, first, end),
        0 <= i < ranges.len(),
    ensures
        first <= ranges[i].start <= ranges[i].end <= end,
{
    if i > 0 {
        lemma_tiles_ordered(ranges, first, end, 0, i);
    }
    if i < ranges.len() - 1 {
        lemma_tiles_ordered(ranges, first, end, i, ranges.len() - 1);
    }
}

/// Over a spectrum that reaches the end bin, the windows that the bars
/// average are the bars themselves: nothing is cut off.
pub proof fn lemma_full_spectrum_windows(ranges: Seq<BinRange>, first: int, end: int, len: int)
    requires
        tiles(ranges, first, end),
        end <= len,
    ensures
        forall|i: int| 0 <= i < ranges.len() ==> #[trigger] window(ranges[i], len) == ranges[i],
{
    assert forall|i: int| 0 <= i < ranges.len() implies #[trigger] window(ranges[i], len)
        == ranges[i] by {
        lemma_tiles_within(ranges, first, end, i);
    }
}

/// Bins grouped into bars, lowest frequencies first.
pub struct FrequencyBinner {
    ranges: Vec<BinRange>,
}

impl View for FrequencyBinner {
    type V = Seq<BinRange>;

    closed spec fn view(&self) -> Seq<BinRange> {
        self.ranges@
    }
}

impl FrequencyBinner {
    /// The integer frame of the bars: a spectrum of `fft_size / 2` bins,
    /// the first bin raised to at least 1 and both bins kept in the
    /// spectrum, and `num_bars` cut to the number of bins covered, but at
    /// least one bar. `raw_first_bin` and `raw_end_bin` are the bins of the
    /// lowest and highest audible frequency, rounded up.
    pub fn layout(num_bars: usize, fft_size: usize, raw_first_bin: usize, raw_end_bin: usize) -> (l:
        BinLayout)
        requires
            fft_size >= 2,
        ensures
            l.spectrum_len == fft_size / 2,
            l.first_bin == clamp(raw_first_bin as int, 1, l.spectrum_len as int),
            l.end_bin == clamp(raw_end_bin as int, l.first_bin as int, l.spectrum_len as int),
            l.bar_count == max(min(num_bars as int, l.end_bin - l.first_bin), 1),
            l.wf(),
    {
        let spectrum_len = fft_size / 2;
        let first_bin = if raw_first_bin < 1 {
            1
        } else if raw_first_bin > spectrum_len {
            spectrum_len
        } else {
            raw_first_bin
        };
        let end_bin = if raw_end_bin < first_bin {
            first_bin
        } else if raw_end_bin > spectrum_len {
            spectrum_len
        } else {
            raw_end_bin
        };
        let range_bins = end_bin - first_bin;
        let capped = if num_bars < range_bins {
            num_bars
        } else {
            range_bins
        };
        let bar_count = if capped > 1 {
            capped
        } else {
            1
        };
        BinLayout { spectrum_len, first_bin, end_bin, bar_count }
    }

    /// The bars of `layout`: bar `i` covers the bins from boundary `i` up
    /// to boundary `i + 1`, where `target_bins[i]` is the bin that the
    /// caller aims the end of bar `i` at (the last bar always ends at the
    /// end bin). The bars tile `first_bin..end_bin`.
    pub fn new(layout: &BinLayout, target_bins: &Vec<usize>) -> (binner: Self)
        requires
            layout.wf(),
            target_bins.len() + 1 == layout.bar_count,
        ensures
            binner@.len() == layout.bar_count,
            forall|i: int|
                0 <= i < layout.bar_count ==> (#[trigger] binner@[i]).start == boundary(
                    *layout,
                    target_bins@,
                    i as nat,
                ) && binner@[i].end == boundary(*layout, target_bins@, (i + 1) as nat),
            tiles(binner@, layout.first_bin as int, layout.end_bin as int),
            forall|i: int|
                0 <= i < layout.bar_count - 1 ==> (#[trigger] binner@[i]).end == max(
                    binner@[i].start + 1,
                    min(target_bins@[i] as int, layout.end_bin - (layout.bar_count - i - 1)),
                ),
            forall|i: int|
                0 <= i < layout.bar_count - 1 && binner@[i].start < target_bins@[i] <= layout.end_bin
                    - (layout.bar_count - i - 1) ==> (#[trigger] binner@[i]).end == target_bins@[i],
    {
        let bar_count = layout.bar_count;
        let end_bin = layout.end_bin;
        let ghost l = *layout;
        let ghost t = target_bins@;
        let mut ranges: Vec<BinRange> = Vec::with_capacity(bar_count);
        let mut start: usize = layout.first_bin;
        let mut i: usize = 0;
        while i < bar_count
            invariant
                l == *layout,
                t == target_bins@,
                l.wf(),
                t.len() + 1 == bar_count,
                bar_count == l.bar_count,
                end_bin == l.end_bin,
                i <= bar_count,
                ranges@.len() == i,
                start == boundary(l, t, i as nat),
                forall|j: int|
                    0 <= j < i ==> (#[trigger] ranges@[j]).start == boundary(l, t, j as nat)
                        && ranges@[j].end == boundary(l, t, (j + 1) as nat),
            decreases bar_count - i,
        {
            proof {
                lemma_boundary(l, t, i as nat);
                lemma_boundary(l, t, (i + 1) as nat);
            }
            let end = if i + 1 == bar_count {
                end_bin
            } else {
                let lo = start + 1;
                let hi = end_bin - (bar_count - i - 1);
                let target = target_bins[i];
                if target < lo {
                    lo
                } else if target > hi {
                    hi
                } else {
                    target
                }
            };
            assert(end == boundary(l, t, (i + 1) as nat));
            ranges.push(BinRange { start, end });
            start = end;
            i = i + 1;
        }
        let binner = FrequencyBinner { ranges };
        proof {
            lemma_boundary(l, t, 0);
            lemma_boundary(l, t, bar_count as nat);
            assert forall|j: int| 0 <= j < binner@.len() implies #[trigger] binner@[j].start
                <= binner@[j].end && (l.first_bin < l.end_bin ==> binner@[j].start
                < binner@[j].end) by {
                lemma_boundary(l, t, (j + 1) as nat);
            }
            assert forall|j: int| 0 <= j < l.bar_count - 1 implies (#[trigger] binner@[j]).end
                == max(binner@[j].start + 1, min(t[j] as int, l.end_bin - (l.bar_count - j - 1)))
                && (binner@[j].start < t[j] <= l.end_bin - (l.bar_count - j - 1) ==> binner@[j].end
                == t[j]) by {
                lemma_boundary_follows_target(l, t, (j + 1) as nat);
            }
        }
        binner
    }

    /// The number of bars.
    pub fn num_bars(&self) -> (n: usize)
        ensures
            n == self@.len(),
    {
        self.ranges.len()
    }

    /// The bin ranges of the bars, in order.
    pub fn ranges(&self) -> (r: Vec<BinRange>)
        ensures
            r@ == self@,
    {
        self.ranges.clone()
    }

    /// For each bar, the bins of a spectrum of `spectrum_len` magnitudes
    /// that it averages: its range cut at `spectrum_len`, empty where the
    /// bar starts past the end.
    pub fn sample_windows(&self, spectrum_len: usize) -> (w: Vec<BinRange>)
        ensures
            w@.len() == self@.len(),
            forall|i: int| 0 <= i < w@.len() ==> #[trigger] w@[i] == window(self@[i], spectrum_len as int),
    {
        let mut w: Vec<BinRange> = Vec::with_capacity(self.ranges.len());
        let mut i: usize = 0;
        while i < self.ranges.len()
            invariant
                i <= self.ranges@.len(),
                w@.len() == i,
                forall|j: int| 0 <= j < i ==> #[trigger] w@[j] == window(self@[j], spectrum_len as int),
            decreases self.ranges@.len() - i,
        {
            let r = self.ranges[i];
            let e = if r.end < spectrum_len {
                r.end
            } else {
                spectrum_len
            };
            let cut = if r.start <= e {
                BinRange { start: r.start, end: e }
            } else {
                BinRange { start: e, end: e }
            };
            w.push(cut);
            i = i + 1;
        }
        w
    }
}

} // verus!
