//! Geometry and text of the spectrum display: the bar columns, the values
//! each bar shows, the frequency axis labels, the bar glyphs, the popup
//! rectangle and the one-line text view.

use ratatui::layout::{Constraint, Direction, Layout, Rect};
use ratatui::widgets::{Block, Borders};
use vstd::prelude::*;

use crate::bins::{max, min, BinRange};

verus! {

/// A rectangle of terminal cells.
#[derive(Clone, Copy, Debug, PartialEq, Eq, Structural)]
pub struct Area {
    pub x: u16,
    pub y: u16,
    pub width: u16,
    pub height: u16,
}

/// A share of an axis that the layout solver is asked to give one part.
#[derive(Clone, Copy, Debug, PartialEq, Eq, Structural)]
pub enum Share {
    /// This percentage of the axis.
    Percentage(u16),
    /// At least this many cells.
    Min(u16),
    /// Exactly this many cells.
    Length(u16),
}

/// `part` lies inside `area` along the split axis (down the rows when
/// `vertical`, along the columns otherwise) and spans all of `area` across
/// it.
pub open spec fn part_of(part: Area, area: Area, vertical: bool) -> bool {
    if vertical {
        &&& part.x == area.x
        &&& part.width == area.width
        &&& area.y <= part.y
        &&& part.y + part.height <= sat_add(area.y as int, area.height as int)
    } else {
        &&& part.y == area.y
        &&& part.height == area.height
        &&& area.x <= part.x
        &&& part.x + part.width <= sat_add(area.x as int, area.width as int)
    }
}

/// `inner` lies inside `outer`.
pub open spec fn inside(inner: Area, outer: Area) -> bool {
    &&& outer.x <= inner.x
    &&& inner.x + inner.width <= sat_add(outer.x as int, outer.width as int)
    &&& outer.y <= inner.y
    &&& inner.y + inner.height <= sat_add(outer.y as int, outer.height as int)
}

/// Holds when `parts` is a split that ratatui's layout solver can give for
/// `area`, the direction (vertical when `vertical`) and the shares. This is
/// a relation, not a function: two calls with the same arguments may give
/// different splits.
pub uninterp spec fn solver_split(area: Area, vertical: bool, shares: Seq<Share>, parts: Seq<Area>)
    -> bool;

/// Calls ratatui's `Layout::split` on a layout of the given direction whose
/// constraints are the shares, each turned into the `Constraint` of the
/// same name. Trusted: there is one part per share (the solver builds one
/// segment for each constraint), and each part lies inside `area` along the
/// split axis and spans it across (the solver's required constraints keep
/// every segment edge between the area's edges and each segment's end at or
/// after its start; the parts keep the area's other coordinate and extent).
/// Where exactly the parts lie, their order, and that they do not overlap
/// rest on constraints that the solver may give up and on the order in
/// which it walks its hash maps; none of that is stated.
#[verifier::external_body]
fn split_area(area: Area, vertical: bool, shares: &Vec<Share>) -> (parts: Vec<Area>)
    ensures
        solver_split(area, vertical, shares@, parts@),
        parts@.len() == shares@.len(),
        forall|i: int| 0 <= i < parts@.len() ==> part_of(#[trigger] parts@[i], area, vertical),
{
    let direction = if vertical { Direction::Vertical } else { Direction::Horizontal };
    let rect = Rect { x: area.x, y: area.y, width: area.width, height: area.height };
    let constraints = shares.iter().map(|share| match *share {
        Share::Percentage(p) => Constraint::Percentage(p),
        Share::Min(n) => Constraint::Min(n),
        Share::Length(n) => Constraint::Length(n),
    });
    Layout::default().direction(direction).constraints(constraints).split(rect).iter().map(
        |r| Area { x: r.x, y: r.y, width: r.width, height: r.height },
    ).collect()
}

/// `a + b`, saturating at `u16::MAX`.
pub open spec fn sat_add(a: int, b: int) -> int {
    min(a + b, u16::MAX as int)
}

/// `a - b`, saturating at 0.
pub open spec fn sat_sub(a: int, b: int) -> int {
    max(a - b, 0)
}

/// The cells inside a one-cell border drawn around `a`.
pub open spec fn bordered_interior(a: Area) -> Area {
    Area {
        x: min(sat_add(a.x as int, 1), sat_add(a.x as int, a.width as int)) as u16,
        y: min(sat_add(a.y as int, 1), sat_add(a.y as int, a.height as int)) as u16,
        width: sat_sub(sat_sub(a.width as int, 1), 1) as u16,
        height: sat_sub(sat_sub(a.height as int, 1), 1) as u16,
    }
}

/// Calls ratatui's `Block::inner` on a block with all borders and no
/// padding. Trusted: as its source shows, the left and top borders move
/// the corner one cell in (never past the right or bottom edge), and the
/// borders take one cell from each side, saturating at zero.
#[verifier::external_body]
fn block_inner(area: Area) -> (inner: Area)
    ensures
        inner == bordered_interior(area),
{
    let rect = Rect { x: area.x, y: area.y, width: area.width, height: area.height };
    let r = Block::default().borders(Borders::ALL).inner(rect);
    Area { x: r.x, y: r.y, width: r.width, height: r.height }
}

/// The shares that centre a part of `percent` on an axis: margins of
/// `(100 - percent) / 2` on either side of it.
pub open spec fn centred_shares(percent: u16) -> Seq<Share> {
    let side = Share::Percentage(((100 - percent) / 2) as u16);
    seq![side, Share::Percentage(percent), side]
}

/// The popup rectangle in the middle of `r`: the middle row of a vertical
/// split with `percent_y` in the middle (the margins above and below get
/// `(100 - percent_y) / 2` each), then the middle column of a horizontal
/// split of that row with `percent_x` in the middle. It lies inside `r`.
pub fn centered_rect(percent_x: u16, percent_y: u16, r: Area) -> (c: Area)
    requires
        percent_x <= 100,
        percent_y <= 100,
    ensures
        exists|rows: Seq<Area>, cols: Seq<Area>|
            #![trigger solver_split(r, true, centred_shares(percent_y), rows), solver_split(rows[1], false, centred_shares(percent_x), cols)]
            {
                &&& solver_split(r, true, centred_shares(percent_y), rows)
                &&& rows.len() == 3
                &&& solver_split(rows[1], false, centred_shares(percent_x), cols)
                &&& cols.len() == 3
                &&& c == cols[1]
            },
        inside(c, r),
{
    let side_y = Share::Percentage((100 - percent_y) / 2);
    let rows = split_area(r, true, &vec![side_y, Share::Percentage(percent_y), side_y]);
    let middle_row = rows[1];
    let side_x = Share::Percentage((100 - percent_x) / 2);
    let cols = split_area(middle_row, false, &vec![side_x, Share::Percentage(percent_x), side_x]);
    let popup = cols[1];
    assert(centred_shares(percent_y) =~= seq![side_y, Share::Percentage(percent_y), side_y]);
    assert(centred_shares(percent_x) =~= seq![side_x, Share::Percentage(percent_x), side_x]);
    assert(part_of(middle_row, r, true));
    assert(part_of(popup, middle_row, false));
    assert(solver_split(r, true, centred_shares(percent_y), rows@));
    assert(solver_split(rows@[1], false, centred_shares(percent_x), cols@));
    popup
}

/// The shares of the spectrum screen, top to bottom: the bars, at least
/// one row, then the frequency axis, one row.
pub open spec fn screen_shares() -> Seq<Share> {
    seq![Share::Min(1), Share::Length(1)]
}

/// The regions of the spectrum screen drawn in `area`: the inside of its
/// border, then the bars (asked for at least one row) above the frequency
/// axis (asked for one row), both lying in the inside of the border and as
/// wide as it.
pub fn visualizer_regions(area: Area) -> (regions: (Area, Area, Area))
    ensures
        regions.0 == bordered_interior(area),
        exists|parts: Seq<Area>|
            #[trigger] solver_split(regions.0, true, screen_shares(), parts)
                && parts.len() == 2 && regions.1 == parts[0] && regions.2 == parts[1],
        part_of(regions.1, regions.0, true),
        part_of(regions.2, regions.0, true),
{
    let inner = block_inner(area);
    let parts = split_area(inner, true, &vec![Share::Min(1), Share::Length(1)]);
    let bars = parts[0];
    let axis = parts[1];
    assert(part_of(bars, inner, true));
    assert(part_of(axis, inner, true));
    assert(screen_shares() =~= seq![Share::Min(1), Share::Length(1)]);
    let regions = (inner, bars, axis);
    assert(solver_split(regions.0, true, screen_shares(), parts@));
    regions
}

/// The column at which bar `index` of `bars` starts, the bars sharing
/// `width` columns from `x` on.
pub open spec fn bar_column(x: int, width: int, bars: int, index: int) -> int {
    x + index * width / bars
}

/// The columns `start..end` that bar `index` of `visible_bars` fills in an
/// area `area_width` wide that starts at column `area_x`.
pub fn bar_span(area_x: u16, area_width: u16, index: u16, visible_bars: u16) -> (span: (u16, u16))
    requires
        index < visible_bars,
        (index + 1) * area_width <= u16::MAX,
        bar_column(area_x as int, area_width as int, visible_bars as int, index + 1) <= u16::MAX,
    ensures
        span.0 == bar_column(area_x as int, area_width as int, visible_bars as int, index as int),
        span.1 == bar_column(area_x as int, area_width as int, visible_bars as int, index + 1),
{
    proof {
        assert(0 <= index * area_width <= (index + 1) * area_width) by (nonlinear_arith)
            requires
                0 <= index,
                0 <= area_width,
        ;
        vstd::arithmetic::div_mod::lemma_div_is_ordered(
            index * area_width,
            (index + 1) * area_width,
            visible_bars as int,
        );
    }
    let start = area_x + (index * area_width / visible_bars);
    let end = area_x + ((index + 1) * area_width / visible_bars);
    (start, end)
}

proof fn lemma_bar_column_bounds(x: int, width: int, bars: int, index: int)
    requires
        0 <= width,
        0 <= index <= bars,
        0 < bars,
    ensures
        x <= bar_column(x, width, bars, index) <= x + width,
{
    assert(0 <= index * width / bars <= width) by (nonlinear_arith)
        requires
            0 <= width,
            0 <= index <= bars,
            0 < bars,
    {
        assert(index * width <= bars * width);
        assert(bars * width / bars == width);
        vstd::arithmetic::div_mod::lemma_div_is_ordered(index * width, bars * width, bars);
    }
}

/// The bar columns tile the area: the first bar starts at `x`, each bar
/// ends where the next begins, the last ends at `x + width`, and while
/// there are no more bars than columns every bar is at least one column
/// wide.
pub proof fn lemma_bar_columns_tile(x: int, width: int, bars: int)
    requires
        0 <= width,
        0 < bars,
    ensures
        bar_column(x, width, bars, 0) == x,
        bar_column(x, width, bars, bars) == x + width,
        forall|i: int|
            0 <= i <= bars ==> x <= #[trigger] bar_column(x, width, bars, i) <= x + width,
        bars <= width ==> forall|i: int|
            0 <= i < bars ==> #[trigger] bar_column(x, width, bars, i) < bar_column(
                x,
                width,
                bars,
                i + 1,
            ),
{
    assert(0 * width / bars == 0) by (nonlinear_arith)
        requires
            0 < bars,
    ;
    assert(bars * width / bars == width) by (nonlinear_arith)
        requires
            0 < bars,
    ;
    assert forall|i: int| 0 <= i <= bars implies x <= #[trigger] bar_column(x, width, bars, i) <= x
        + width by {
        lemma_bar_column_bounds(x, width, bars, i);
    }
    if bars <= width {
        assert forall|i: int| 0 <= i < bars implies #[trigger] bar_column(x, width, bars, i)
            < bar_column(x, width, bars, i + 1) by {
            assert(i * width / bars < (i + 1) * width / bars) by (nonlinear_arith)
                requires
                    0 < bars <= width,
                    0 <= i,
            {
                assert((i + 1) * width == i * width + width);
                vstd::arithmetic::div_mod::lemma_div_plus_one(i * width, bars);
                vstd::arithmetic::div_mod::lemma_div_is_ordered(i * width + bars, (i + 1) * width, bars);
            }
        }
    }
}

/// The values that bar `index` of `bar_count` shows, out of `len` values:
/// from `index * len / bar_count`, at least one value, up to where the
/// next bar starts, never past the end. No values when there are none.
pub open spec fn aggregation_range(len: int, index: int, bar_count: int) -> BinRange {
    if len == 0 {
        BinRange { start: 0, end: 0 }
    } else {
        let start = index * len / bar_count;
        let end = min(max((index + 1) * len / bar_count, start + 1), len);
        BinRange { start: start as usize, end: end as usize }
    }
}

/// The range of values that bar `index` of `bar_count` aggregates when
/// `len` values are squeezed into `bar_count` bars. Where `index` is a
/// visible bar it gets at least one value.
pub fn aggregation_window(len: usize, index: usize, bar_count: usize) -> (w: BinRange)
    requires
        len == 0 || (0 < bar_count && (index + 1) * len <= usize::MAX && index * len / (bar_count as int)
            <= len),
    ensures
        w == aggregation_range(len as int, index as int, bar_count as int),
        w.start <= w.end <= len,
        0 < len && index < bar_count ==> w.start < w.end,
{
    if len == 0 {
        return BinRange { start: 0, end: 0 };
    }
    proof {
        assert(0 <= index * len <= (index + 1) * len && index + 1 <= (index + 1) * len)
            by (nonlinear_arith)
            requires
                0 <= index,
                1 <= len,
        ;
        if index < bar_count {
            assert(index * len / (bar_count as int) < len) by (nonlinear_arith)
                requires
                    0 <= index < bar_count,
                    0 < len,
            {
                assert(index * len < bar_count * len);
                vstd::arithmetic::div_mod::lemma_div_by_multiple_is_strongly_ordered(
                    index * len,
                    bar_count * len,
                    len as int,
                    bar_count as int,
                );
            }
        }
        if index * len / (bar_count as int) == usize::MAX {
            assert(len == usize::MAX);
            assert(index >= 1) by (nonlinear_arith)
                requires
                    index * len / (bar_count as int) == usize::MAX,
                    0 < bar_count,
            ;
            assert((index + 1) * len > usize::MAX) by (nonlinear_arith)
                requires
                    index >= 1,
                    len == usize::MAX,
            ;
        }
    }
    let start = index * len / bar_count;
    let next = (index + 1) * len / bar_count;
    let at_least_one = if next > start + 1 {
        next
    } else {
        start + 1
    };
    let end = if at_least_one < len {
        at_least_one
    } else {
        len
    };
    BinRange { start, end }
}

proof fn lemma_share_within(len: int, index: int, bar_count: int)
    by (nonlinear_arith)
    requires
        0 <= len,
        0 <= index <= bar_count,
        0 < bar_count,
    ensures
        0 <= index * len / bar_count <= len,
{
    assert(index * len <= bar_count * len);
    vstd::arithmetic::div_mod::lemma_div_is_ordered(index * len, bar_count * len, bar_count);
    vstd::arithmetic::div_mod::lemma_div_by_multiple(len, bar_count);
}

/// Some bar at or before `k` shows value `v`, when `v` lies before the end
/// of bar `k`'s window.
proof fn lemma_value_locate(len: int, bar_count: int, v: int, k: int)
    requires
        0 <= v < len <= usize::MAX,
        0 <= k < bar_count,
        v < aggregation_range(len, k, bar_count).end,
    ensures
        exists|i: int|
            0 <= i <= k && #[trigger] aggregation_range(len, i, bar_count).start <= v
                < aggregation_range(len, i, bar_count).end,
    decreases k,
{
    lemma_share_within(len, k, bar_count);
    if aggregation_range(len, k, bar_count).start <= v {
        assert(aggregation_range(len, k, bar_count).start <= v < aggregation_range(
            len,
            k,
            bar_count,
        ).end);
    } else {
        assert(0 * len / bar_count == 0) by (nonlinear_arith)
            requires
                0 < bar_count,
        ;
        assert(k > 0);
        lemma_share_within(len, k - 1, bar_count);
        assert((k - 1 + 1) * len / bar_count == k * len / bar_count);
        assert(k * len / bar_count > v);
        assert(aggregation_range(len, k - 1, bar_count).end >= k * len / bar_count);
        lemma_value_locate(len, bar_count, v, k - 1);
    }
}

/// Squeezing values into bars loses none: every value is among those of
/// some visible bar, so the peak of all the values is the peak of some bar.
pub proof fn lemma_every_value_in_some_bar(len: int, bar_count: int, v: int)
    requires
        0 <= v < len <= usize::MAX,
        0 < bar_count,
    ensures
        exists|i: int|
            0 <= i < bar_count && #[trigger] aggregation_range(len, i, bar_count).start <= v
                < aggregation_range(len, i, bar_count).end,
{
    lemma_share_within(len, bar_count - 1, bar_count);
    assert((bar_count - 1 + 1) * len / bar_count == len) by (nonlinear_arith)
        requires
            0 < bar_count,
            0 <= len,
    {
        vstd::arithmetic::div_mod::lemma_div_by_multiple(len, bar_count);
    }
    assert(aggregation_range(len, bar_count - 1, bar_count).end == len);
    lemma_value_locate(len, bar_count, v, bar_count - 1);
}

/// With no more bars than values, the bars share the values out without
/// overlap: the first bar starts at the first value, each bar ends where
/// the next begins, the last ends after the last value, and every bar
/// shows at least one value. So each value is shown by exactly one bar.
pub proof fn lemma_aggregation_tiles(len: int, bar_count: int)
    requires
        0 < bar_count <= len <= usize::MAX,
    ensures
        aggregation_range(len, 0, bar_count).start == 0,
        aggregation_range(len, bar_count - 1, bar_count).end == len,
        forall|i: int|
            0 <= i < bar_count ==> (#[trigger] aggregation_range(len, i, bar_count)).start
                < aggregation_range(len, i, bar_count).end,
        forall|i: int|
            0 <= i < bar_count - 1 ==> (#[trigger] aggregation_range(len, i, bar_count)).end
                == aggregation_range(len, i + 1, bar_count).start,
{
    assert(0 * len / bar_count == 0) by (nonlinear_arith)
        requires
            0 < bar_count,
    ;
    assert((bar_count - 1 + 1) * len / bar_count == len) by (nonlinear_arith)
        requires
            0 < bar_count,
            0 <= len,
    {
        vstd::arithmetic::div_mod::lemma_div_by_multiple(len, bar_count);
    }
    assert forall|i: int| 0 <= i < bar_count implies {
        &&& (#[trigger] aggregation_range(len, i, bar_count)).start == i * len / bar_count
        &&& aggregation_range(len, i, bar_count).end == (i + 1) * len / bar_count
        &&& aggregation_range(len, i, bar_count).start < aggregation_range(len, i, bar_count).end
    } by {
        lemma_share_within(len, i, bar_count);
        lemma_share_within(len, i + 1, bar_count);
        assert(i * len / bar_count + 1 <= (i + 1) * len / bar_count) by (nonlinear_arith)
            requires
                0 < bar_count <= len,
                0 <= i,
        {
            assert((i + 1) * len == i * len + len);
            vstd::arithmetic::div_mod::lemma_div_plus_one(i * len, bar_count);
            vstd::arithmetic::div_mod::lemma_div_is_ordered(i * len + bar_count, (i + 1) * len, bar_count);
        }
    }
    assert forall|i: int| 0 <= i < bar_count - 1 implies (#[trigger] aggregation_range(
        len,
        i,
        bar_count,
    )).end == aggregation_range(len, i + 1, bar_count).start by {
        assert(aggregation_range(len, i, bar_count).end == (i + 1) * len / bar_count);
        assert(aggregation_range(len, i + 1, bar_count).start == (i + 1) * len / bar_count);
    }
}

/// Where a label `len` columns wide, aimed to be centred on column `pos`,
/// would go on an axis `width` columns wide: centred on `pos` where it can
/// be, pushed right to column 0 and left to the end of the axis; nowhere
/// if it is wider than the axis.
pub open spec fn label_spot(width: int, len: int, pos: int) -> Option<int> {
    if len > width {
        None
    } else {
        let centred = if pos >= len / 2 {
            pos - len / 2
        } else {
            0
        };
        Some(min(centred, width - len))
    }
}

/// The first column that label `k` may use: one past the column after the
/// last label placed before it.
pub open spec fn next_free(width: int, labels: Seq<(usize, usize)>, k: nat) -> int
    decreases k,
{
    if k == 0 {
        0
    } else {
        let prev = next_free(width, labels, (k - 1) as nat);
        let label = labels[k - 1];
        match label_spot(width, label.0 as int, label.1 as int) {
            Some(x) => if x >= prev {
                x + label.0 + 1
            } else {
                prev
            },
            None => prev,
        }
    }
}

/// The column at which label `k` is drawn, if it is drawn: at its spot,
/// where that does not run into the label placed before it.
pub open spec fn label_position(width: int, labels: Seq<(usize, usize)>, k: nat) -> Option<int> {
    let label = labels[k as int];
    match label_spot(width, label.0 as int, label.1 as int) {
        Some(x) => if x >= next_free(width, labels, k) {
            Some(x)
        } else {
            None
        },
        None => None,
    }
}

pub open spec fn as_int(o: Option<usize>) -> Option<int> {
    match o {
        Some(x) => Some(x as int),
        None => None,
    }
}

proof fn lemma_next_free_bounds(width: int, labels: Seq<(usize, usize)>, k: nat)
    requires
        0 <= width,
        k <= labels.len(),
    ensures
        0 <= next_free(width, labels, k) <= width + 1,
    decreases k,
{
    if k > 0 {
        lemma_next_free_bounds(width, labels, (k - 1) as nat);
    }
}

proof fn lemma_next_free_grows(width: int, labels: Seq<(usize, usize)>, a: nat, b: nat)
    requires
        a <= b <= labels.len(),
    ensures
        next_free(width, labels, a) <= next_free(width, labels, b),
    decreases b - a,
{
    if a < b {
        lemma_next_free_grows(width, labels, a, (b - 1) as nat);
    }
}

/// Places the labels of a frequency axis `width` columns wide, in order:
/// `labels[k]` is the width of label `k` and the column it is centred on.
/// A label is skipped when it is wider than the axis or would run into the
/// label placed before it; otherwise it is drawn at its spot.
pub fn place_labels(width: u16, labels: &Vec<(usize, usize)>) -> (placed: Vec<Option<usize>>)
    ensures
        placed@.len() == labels@.len(),
        forall|k: int|
            0 <= k < placed@.len() ==> as_int(#[trigger] placed@[k]) == label_position(
                width as int,
                labels@,
                k as nat,
            ),
        forall|k: int|
            0 <= k < placed@.len() && labels@[k].0 > width ==> (#[trigger] placed@[k]) is None,
        forall|k: int|
            0 <= k < placed@.len() && (#[trigger] placed@[k]) is Some ==> placed@[k]->0 == min(
                if labels@[k].1 >= labels@[k].0 / 2 {
                    labels@[k].1 - labels@[k].0 / 2
                } else {
                    0
                },
                width - labels@[k].0,
            ),
        forall|k: int|
            0 <= k < placed@.len() && labels@[k].0 <= width && (#[trigger] placed@[k]) is None
                ==> exists|j: int|
                0 <= j < k && (#[trigger] placed@[j]) is Some && min(
                    if labels@[k].1 >= labels@[k].0 / 2 {
                        labels@[k].1 - labels@[k].0 / 2
                    } else {
                        0
                    },
                    width - labels@[k].0,
                ) <= placed@[j]->0 + labels@[j].0,
        forall|j: int, k: int|
            0 <= j < k < placed@.len() && (#[trigger] placed@[j]) is Some && (#[trigger] placed@[k])
                is Some ==> placed@[j]->0 + labels@[j].0 < placed@[k]->0 && placed@[k]->0
                + labels@[k].0 <= width,
{
    let w = width as usize;
    let mut placed: Vec<Option<usize>> = Vec::with_capacity(labels.len());
    let mut next_available: usize = 0;
    let mut k: usize = 0;
    while k < labels.len()
        invariant
            w == width,
            k <= labels@.len(),
            placed@.len() == k,
            next_available == next_free(width as int, labels@, k as nat),
            forall|j: int|
                0 <= j < k ==> as_int(#[trigger] placed@[j]) == label_position(
                    width as int,
                    labels@,
                    j as nat,
                ),
        decreases labels@.len() - k,
    {
        proof {
            lemma_next_free_bounds(width as int, labels@, k as nat);
        }
        let (len, position) = labels[k];
        let spot = if len > w {
            None
        } else {
            let centred = if position >= len / 2 {
                position - len / 2
            } else {
                0
            };
            let limit = w - len;
            Some(
                if centred < limit {
                    centred
                } else {
                    limit
                },
            )
        };
        let slot = match spot {
            Some(x) => if x >= next_available {
                next_available = x + len + 1;
                Some(x)
            } else {
                None
            },
            None => None,
        };
        placed.push(slot);
        k = k + 1;
    }
    proof {
        let wi = width as int;
        let ls = labels@;
        assert forall|k: int| 0 <= k < placed@.len() implies {
            &&& (ls[k].0 > width ==> placed@[k] is None)
            &&& (ls[k].0 <= width && placed@[k] is Some ==> placed@[k]->0 == min(
                if ls[k].1 >= ls[k].0 / 2 {
                    ls[k].1 - ls[k].0 / 2
                } else {
                    0
                },
                width - ls[k].0,
            ))
            &&& (ls[k].0 <= width && placed@[k] is None ==> exists|j: int|
                0 <= j < k && (#[trigger] placed@[j]) is Some && min(
                    if ls[k].1 >= ls[k].0 / 2 {
                        ls[k].1 - ls[k].0 / 2
                    } else {
                        0
                    },
                    width - ls[k].0,
                ) <= placed@[j]->0 + ls[j].0)
        } by {
            lemma_label_rule(wi, ls, k as nat);
            assert(as_int(placed@[k]) == label_position(wi, ls, k as nat));
            if ls[k].0 <= width && placed@[k] is None {
                let j = choose|j: int|
                    0 <= j < k && (#[trigger] label_position(wi, ls, j as nat)) is Some && min(
                        if ls[k].1 >= ls[k].0 / 2 {
                            ls[k].1 - ls[k].0 / 2
                        } else {
                            0
                        },
                        wi - ls[k].0,
                    ) <= label_position(wi, ls, j as nat)->0 + ls[j].0;
                assert(as_int(placed@[j]) == label_position(wi, ls, j as nat));
                assert(placed@[j] is Some);
            }
        }
        assert forall|j: int, k: int|
            0 <= j < k < placed@.len() && (#[trigger] placed@[j]) is Some && (#[trigger] placed@[k])
                is Some implies placed@[j]->0 + ls[j].0 < placed@[k]->0 && placed@[k]->0 + ls[k].0
                <= width by {
            assert(as_int(placed@[j]) == label_position(wi, ls, j as nat));
            assert(as_int(placed@[k]) == label_position(wi, ls, k as nat));
            lemma_labels_apart(wi, ls, j as nat, k as nat);
        }
    }
    placed
}

/// Labels drawn on an axis stay on it and stand apart: each placed label
/// ends before the axis does, and a later placed label starts at least one
/// column after an earlier one ends.
pub proof fn lemma_labels_apart(width: int, labels: Seq<(usize, usize)>, i: nat, j: nat)
    requires
        0 <= width,
        i < j < labels.len(),
        label_position(width, labels, i) is Some,
        label_position(width, labels, j) is Some,
    ensures
        0 <= label_position(width, labels, i)->0,
        label_position(width, labels, i)->0 + labels[i as int].0 < label_position(width, labels, j)->0,
        label_position(width, labels, j)->0 + labels[j as int].0 <= width,
{
    lemma_next_free_bounds(width, labels, i);
    lemma_next_free_grows(width, labels, (i + 1) as nat, j);
}

/// The first free column, once any label is placed, is one past the end
/// of the last label placed so far.
proof fn lemma_next_free_from_placed(width: int, labels: Seq<(usize, usize)>, k: nat)
    requires
        k <= labels.len(),
        next_free(width, labels, k) != 0,
    ensures
        exists|j: int|
            0 <= j < k && (#[trigger] label_position(width, labels, j as nat)) is Some
                && next_free(width, labels, k) == label_position(width, labels, j as nat)->0
                + labels[j].0 + 1,
    decreases k,
{
    let j = (k - 1) as nat;
    if label_position(width, labels, j) is Some {
        assert(next_free(width, labels, k) == label_position(width, labels, j)->0 + labels[j as int].0
            + 1);
    } else {
        lemma_next_free_from_placed(width, labels, j);
    }
}

/// How each axis label is placed, in terms of the labels alone. A label
/// wider than the axis is never drawn. Any other label has one column it
/// can go to: centred on its position (at column 0 if the centre is too far
/// left), moved left just enough to end at the edge of the axis. It is
/// drawn there, and it is left out only when that column is not past the
/// end of a label already drawn before it.
pub proof fn lemma_label_rule(width: int, labels: Seq<(usize, usize)>, k: nat)
    requires
        0 <= width,
        k < labels.len(),
    ensures
        labels[k as int].0 > width ==> label_position(width, labels, k) is None,
        labels[k as int].0 <= width && label_position(width, labels, k) is Some ==> label_position(
            width,
            labels,
            k,
        )->0 == min(
            if labels[k as int].1 >= labels[k as int].0 / 2 {
                labels[k as int].1 - labels[k as int].0 / 2
            } else {
                0
            },
            width - labels[k as int].0,
        ),
        labels[k as int].0 <= width && label_position(width, labels, k) is None ==> exists|j: int|
            0 <= j < k && (#[trigger] label_position(width, labels, j as nat)) is Some && min(
                if labels[k as int].1 >= labels[k as int].0 / 2 {
                    labels[k as int].1 - labels[k as int].0 / 2
                } else {
                    0
                },
                width - labels[k as int].0,
            ) <= label_position(width, labels, j as nat)->0 + labels[j].0,
{
    if labels[k as int].0 <= width && label_position(width, labels, k) is None {
        lemma_next_free_from_placed(width, labels, k);
    }
}

/// The eighth-block glyphs that draw the top of a bar.
#[derive(Clone, Copy, Debug, PartialEq, Eq, Structural)]
pub enum BarGlyph {
    OneEighth,
    OneQuarter,
    ThreeEighths,
    Half,
    FiveEighths,
    ThreeQuarters,
    SevenEighths,
    Full,
}

/// How many eighths of a cell each glyph fills, from the bottom.
pub open spec fn glyph_fill(g: BarGlyph) -> nat {
    match g {
        BarGlyph::OneEighth => 1,
        BarGlyph::OneQuarter => 2,
        BarGlyph::ThreeEighths => 3,
        BarGlyph::Half => 4,
        BarGlyph::FiveEighths => 5,
        BarGlyph::ThreeQuarters => 6,
        BarGlyph::SevenEighths => 7,
        BarGlyph::Full => 8,
    }
}

/// The glyph for a cell filled to `eighths` eighths: the matching partial
/// block for one to seven eighths, a full block otherwise.
pub open spec fn glyph_of(eighths: u8) -> BarGlyph {
    if eighths == 1 {
        BarGlyph::OneEighth
    } else if eighths == 2 {
        BarGlyph::OneQuarter
    } else if eighths == 3 {
        BarGlyph::ThreeEighths
    } else if eighths == 4 {
        BarGlyph::Half
    } else if eighths == 5 {
        BarGlyph::FiveEighths
    } else if eighths == 6 {
        BarGlyph::ThreeQuarters
    } else if eighths == 7 {
        BarGlyph::SevenEighths
    } else {
        BarGlyph::Full
    }
}

/// The glyph for a cell filled to `eighths` eighths (rounded up).
pub fn bar_glyph(eighths: u8) -> (g: BarGlyph)
    ensures
        g == glyph_of(eighths),
        1 <= eighths <= 7 ==> glyph_fill(g) == eighths,
        !(1 <= eighths <= 7) ==> g == BarGlyph::Full,
{
    match eighths {
        1 => BarGlyph::OneEighth,
        2 => BarGlyph::OneQuarter,
        3 => BarGlyph::ThreeEighths,
        4 => BarGlyph::Half,
        5 => BarGlyph::FiveEighths,
        6 => BarGlyph::ThreeQuarters,
        7 => BarGlyph::SevenEighths,
        _ => BarGlyph::Full,
    }
}

/// The text of one bar in the one-line view: up to twelve blocks for a
/// bar of that many rows, a dot for an empty bar.
pub open spec fn level_piece(height: int) -> Seq<char> {
    if height > 0 {
        Seq::new(min(height, 12) as nat, |i: int| '\u{25a0}')
    } else {
        seq!['.']
    }
}

/// The one-line view of bars of the given heights: their pieces joined by
/// single spaces.
pub open spec fn level_line(heights: Seq<usize>) -> Seq<char>
    decreases heights.len(),
{
    if heights.len() == 0 {
        Seq::empty()
    } else if heights.len() == 1 {
        level_piece(heights[0] as int)
    } else {
        level_line(heights.drop_last()) + seq![' '] + level_piece(heights.last() as int)
    }
}

/// A glyph draws exactly the eighths it is asked for: from one to seven
/// eighths the partial block fills that many, anything else is drawn as a
/// full block.
pub proof fn lemma_glyph_fills_its_eighths(eighths: u8)
    ensures
        1 <= eighths <= 7 ==> glyph_fill(glyph_of(eighths)) == eighths,
        !(1 <= eighths <= 7) ==> glyph_of(eighths) == BarGlyph::Full,
{
}

/// One bar alone: an empty bar is a single dot, any other bar is as many
/// blocks as its height, up to twelve, and nothing else.
pub proof fn lemma_level_line_one_bar(height: usize)
    ensures
        height == 0 ==> level_line(seq![height]) == seq!['.'],
        height > 0 ==> level_line(seq![height]).len() == min(height as int, 12),
        height > 0 ==> forall|i: int|
            0 <= i < level_line(seq![height]).len() ==> #[trigger] level_line(seq![height])[i]
                == '\u{25a0}',
{
    assert(seq![height].len() == 1);
}

/// Several bars: the line for bars followed by one more bar is the line for
/// the first bars, a single space, then the line for that bar alone.
pub proof fn lemma_level_line_joins(heights: Seq<usize>, height: usize)
    ensures
        heights.len() == 0 ==> level_line(heights.push(height)) == level_line(seq![height]),
        heights.len() > 0 ==> level_line(heights.push(height)) == level_line(heights) + seq![' ']
            + level_line(seq![height]),
{
    assert(heights.push(height).drop_last() =~= heights);
    assert(seq![height].len() == 1);
    if heights.len() == 0 {
        assert(heights.push(height) =~= seq![height]);
    }
}

/// The one-line text view of bars of the given heights (in rows).
pub fn level_text(heights: &Vec<usize>) -> (text: String)
    ensures
        text@ == level_line(heights@),
        heights@.len() == 1 && heights@[0] == 0 ==> text@ == seq!['.'],
        heights@.len() == 1 && heights@[0] > 0 ==> text@.len() == min(heights@[0] as int, 12),
        heights@.len() == 1 && heights@[0] > 0 ==> forall|i: int|
            0 <= i < text@.len() ==> #[trigger] text@[i] == '\u{25a0}',
{
    let mut text = String::new();
    let mut i: usize = 0;
    while i < heights.len()
        invariant
            i <= heights@.len(),
            text@ == level_line(heights@.take(i as int)),
        decreases heights@.len() - i,
    {
        proof {
            reveal_strlit("\u{25a0}");
            reveal_strlit(" ");
            reveal_strlit(".");
        }
        if i > 0 {
            text.append(" ");
        }
        let ghost spaced = text@;
        let height = heights[i];
        if height > 0 {
            let blocks = if height < 12 {
                height
            } else {
                12
            };
            let mut b: usize = 0;
            while b < blocks
                invariant
                    b <= blocks,
                    text@ == spaced + Seq::new(b as nat, |j: int| '\u{25a0}'),
                decreases blocks - b,
            {
                proof {
                    reveal_strlit("\u{25a0}");
                }
                text.append("\u{25a0}");
                b = b + 1;
                assert(text@ =~= spaced + Seq::new(b as nat, |j: int| '\u{25a0}'));
            }
        } else {
            text.append(".");
        }
        assert(text@ =~= spaced + level_piece(height as int));
        assert(heights@.take(i + 1).drop_last() =~= heights@.take(i as int));
        if i == 0 {
            assert(text@ =~= level_line(heights@.take(1)));
        } else {
            assert(text@ =~= level_line(heights@.take(i + 1)));
        }
        i = i + 1;
    }
    assert(heights@.take(heights@.len() as int) =~= heights@);
    if heights.len() == 1 {
        proof {
            lemma_level_line_one_bar(heights@[0]);
            assert(heights@ =~= seq![heights@[0]]);
        }
    }
    text
}

} // verus!
