//! The full-screen chart: lanes of braille traces over a grid, a scale on the
//! left, a time axis below, and the keys that steer it.

use vstd::prelude::*;

use crate::canvas::{braille, braille_glyph, Canvas, Ink};
use crate::screen::{styled_end, styled_spec, Screen, ScreenCell};
use crate::text::chars_of;
use crate::tint::{Tint, GRID, DIM};

verus! {

/// Width of the y-axis label column, including the axis line.
pub const GUTTER: usize = 10;

/// The grid's glyph where a horizontal and a vertical division may cross.
pub open spec fn grid_glyph(across: bool, down: bool) -> char {
    if across && down {
        '┼'
    } else if across {
        '┈'
    } else if down {
        '┊'
    } else {
        ' '
    }
}

/// A cell of a lane: the trace where the pen has been, the grid elsewhere.
pub open spec fn lane_cell(ink: Ink, w: int, hgrid: Seq<bool>, vgrid: Seq<bool>, r: int, c: int) -> ScreenCell {
    let i = r * w + c;
    if ink.bits[i] != 0 {
        ScreenCell { ch: braille_glyph(ink.bits[i]), fg: ink.colors[i], bold: false }
    } else {
        ScreenCell { ch: grid_glyph(hgrid[r], vgrid[c]), fg: GRID, bold: false }
    }
}

/// What a lane of `w × h` cells with its top at row `top` shows at `(x, y)`:
/// the lane right of the gutter, the axis line at the gutter's edge, and
/// elsewhere what was there.
pub open spec fn lane_view(
    before: Screen,
    top: int,
    w: int,
    h: int,
    ink: Ink,
    hgrid: Seq<bool>,
    vgrid: Seq<bool>,
    x: int,
    y: int,
) -> ScreenCell {
    if top <= y < top + h && GUTTER <= x < GUTTER + w {
        lane_cell(ink, w, hgrid, vgrid, y - top, x - GUTTER)
    } else if top <= y < top + h && x == GUTTER - 1 {
        ScreenCell { ch: '│', fg: GRID, bold: false }
    } else {
        before.at(x, y)
    }
}

fn grid_char(across: bool, down: bool) -> (c: char)
    ensures
        c == grid_glyph(across, down),
{
    if across && down {
        '┼'
    } else if across {
        '┈'
    } else if down {
        '┊'
    } else {
        ' '
    }
}

proof fn lemma_lane_index(w: int, h: int, r: int, c: int)
    requires
        0 <= r < h,
        0 <= c < w,
    ensures
        0 <= r * w + c < w * h,
{
    crate::screen::lemma_cell_index(w, h, c, r);
}

impl Screen {
    /// Draw a lane: the canvas's dots where it has any, the grid elsewhere, and
    /// the axis line along its left edge.
    pub fn plot_lane(&mut self, top: usize, cv: &Canvas, hgrid: &Vec<bool>, vgrid: &Vec<bool>)
        requires
            old(self).wf(),
            cv.wf(),
            top + cv.h <= usize::MAX,
            GUTTER + cv.w <= usize::MAX,
            hgrid@.len() == cv.h,
            vgrid@.len() == cv.w,
        ensures
            final(self).wf(),
            final(self).w == old(self).w,
            final(self).h == old(self).h,
            forall|x: int, y: int|
                0 <= x < old(self).w && 0 <= y < old(self).h ==> #[trigger] final(self).at(x, y) == lane_view(
                    *old(self),
                    top as int,
                    cv.w as int,
                    cv.h as int,
                    cv.ink(),
                    hgrid@,
                    vgrid@,
                    x,
                    y,
                ),
    {
        let ghost before = *self;
        let w = cv.w;
        let h = cv.h;
        let mut r: usize = 0;
        while r < h
            invariant
                self.wf(),
                self.w == before.w,
                self.h == before.h,
                cv.wf(),
                w == cv.w,
                h == cv.h,
                top + h <= usize::MAX,
                GUTTER + w <= usize::MAX,
                hgrid@.len() == h,
                vgrid@.len() == w,
                r <= h,
                forall|x: int, y: int|
                    0 <= x < self.w && 0 <= y < self.h ==> #[trigger] self.at(x, y) == if y < top + r {
                        lane_view(before, top as int, w as int, h as int, cv.ink(), hgrid@, vgrid@, x, y)
                    } else {
                        before.at(x, y)
                    },
            decreases h - r,
        {
            let mut c: usize = 0;
            while c < w
                invariant
                    self.wf(),
                    self.w == before.w,
                    self.h == before.h,
                    cv.wf(),
                    w == cv.w,
                    h == cv.h,
                    top + h <= usize::MAX,
                    GUTTER + w <= usize::MAX,
                    hgrid@.len() == h,
                    vgrid@.len() == w,
                    r < h,
                    c <= w,
                    forall|x: int, y: int|
                        0 <= x < self.w && 0 <= y < self.h ==> #[trigger] self.at(x, y) == if y < top + r || (y
                            == top + r && GUTTER <= x < GUTTER + c) {
                            lane_view(before, top as int, w as int, h as int, cv.ink(), hgrid@, vgrid@, x, y)
                        } else {
                            before.at(x, y)
                        },
                decreases w - c,
            {
                proof {
                    lemma_lane_index(w as int, h as int, r as int, c as int);
                }
                let i = r * w + c;
                let b = cv.bits[i];
                let (ch, fg) = if b != 0 {
                    (braille(b), cv.color[i])
                } else {
                    (grid_char(hgrid[r], vgrid[c]), GRID)
                };
                self.put(GUTTER + c, top + r, ch, fg);
                c = c + 1;
            }
            self.put(GUTTER - 1, top + r, '│', GRID);
            r = r + 1;
        }
    }
}

/// The first `n` characters of `s`.
pub open spec fn clip(s: Seq<char>, n: int) -> Seq<char> {
    if s.len() <= n {
        s
    } else {
        s.take(n)
    }
}

/// The screen after the first `k` scale marks of a lane at row `top`: a tick on
/// the axis for each, and its label right-aligned in the gutter, unless the row
/// already has one.
pub open spec fn marks_upto(s: Screen, top: int, marks: Seq<(usize, Seq<char>)>, k: nat) -> (Seq<ScreenCell>, Option<usize>)
    decreases k,
{
    if k == 0 || k > marks.len() {
        (s.cells@, None)
    } else {
        let (cells, last) = marks_upto(s, top, marks, (k - 1) as nat);
        let (r, text) = marks[k - 1];
        let y = top + r;
        let ticked = if GUTTER - 1 < s.w && y < s.h {
            cells.update(y * s.w + (GUTTER - 1), ScreenCell { ch: '┤', fg: GRID, bold: false })
        } else {
            cells
        };
        if last == Some(r) {
            (ticked, last)
        } else {
            let label = clip(text, GUTTER - 2);
            (styled_spec(ticked, s.w as nat, s.h as nat, GUTTER - 2 - label.len(), y, label, DIM, false), Some(r))
        }
    }
}

fn clip_chars(s: &str, n: usize) -> (out: String)
    ensures
        out@ == clip(s@, n as int),
{
    let v = chars_of(s);
    let mut out = String::new();
    let mut i: usize = 0;
    while i < v.len() && i < n
        invariant
            v@ == s@,
            i <= v@.len(),
            i <= n,
            out@ == s@.take(i as int),
        decreases v.len() - i,
    {
        crate::text::push_char(&mut out, v[i]);
        assert(s@.take(i + 1) =~= s@.take(i as int).push(s@[i as int]));
        i = i + 1;
    }
    assert(s@.take(s@.len() as int) =~= s@);
    out
}

impl Screen {
    /// Mark a lane's scale: a tick on the axis at each mark's row, and the
    /// first label of each row, clipped to the gutter and right-aligned in it.
    pub fn scale_marks(&mut self, top: usize, marks: &Vec<(usize, String)>)
        requires
            old(self).wf(),
            forall|k: int| 0 <= k < marks@.len() ==> top + #[trigger] marks@[k].0 <= usize::MAX,
        ensures
            final(self).wf(),
            final(self).w == old(self).w,
            final(self).h == old(self).h,
            final(self).cells@ == marks_upto(*old(self), top as int, mark_views(marks@), marks@.len() as nat).0,
    {
        let ghost before = *self;
        let ghost mv = mark_views(marks@);
        let mut last: Option<usize> = None;
        let mut k: usize = 0;
        while k < marks.len()
            invariant
                self.wf(),
                self.w == before.w,
                self.h == before.h,
                forall|j: int| 0 <= j < marks@.len() ==> top + #[trigger] marks@[j].0 <= usize::MAX,
                mv == mark_views(marks@),
                mv.len() == marks@.len(),
                k <= marks.len(),
                (self.cells@, last) == marks_upto(before, top as int, mv, k as nat),
            decreases marks.len() - k,
        {
            let r = marks[k].0;
            let y = top + r;
            assert(mv[k as int] == (r, marks@[k as int].1@));
            self.put(GUTTER - 1, y, '┤', GRID);
            let same = match last {
                Some(l) => l == r,
                None => false,
            };
            if !same {
                let label = clip_chars(marks[k].1.as_str(), GUTTER - 2);
                let n = chars_of(label.as_str()).len();
                assert(n <= GUTTER - 2);
                self.text(GUTTER - 2 - n, y, label.as_str(), DIM);
                last = Some(r);
            }
            k = k + 1;
        }
    }
}

pub open spec fn mark_views(marks: Seq<(usize, String)>) -> Seq<(usize, Seq<char>)> {
    marks.map_values(|m: (usize, String)| (m.0, m.1@))
}

/// Whether the chart gives each of `n` visible channels a lane of its own:
/// when asked to, when there is more than one, and when each gets at least two
/// rows and a separator.
pub open spec fn splits(split: bool, n: nat, plot_h: nat) -> bool {
    split && n > 1 && plot_h + 1 >= n * 3
}

/// The lanes of the chart: one per channel in `visible`, or one for all of them.
pub fn chart_lanes(split: bool, visible: &Vec<usize>, plot_h: usize) -> (lanes: Vec<Vec<usize>>)
    ensures
        splits(split, visible@.len(), plot_h as nat) ==> lanes@.len() == visible@.len() && forall|i: int|
            0 <= i < visible@.len() ==> (#[trigger] lanes@[i])@ == seq![visible@[i]],
        !splits(split, visible@.len(), plot_h as nat) ==> lanes@.len() == 1 && lanes@[0]@ == visible@,
{
    let n = visible.len();
    let fits = plot_h as u128 + 1 >= n as u128 * 3;
    if split && n > 1 && fits {
        let mut lanes: Vec<Vec<usize>> = Vec::new();
        let mut i: usize = 0;
        while i < n
            invariant
                n == visible@.len(),
                i <= n,
                lanes@.len() == i,
                forall|k: int| 0 <= k < i ==> (#[trigger] lanes@[k])@ == seq![visible@[k]],
            decreases n - i,
        {
            let one = vec![visible[i]];
            assert(one@ =~= seq![visible@[i as int]]);
            lanes.push(one);
            i = i + 1;
        }
        lanes
    } else {
        let all = visible.clone();
        let lanes = vec![all];
        lanes
    }
}

/// The height of lane `i` of `n` sharing `avail` rows: an even share, with the
/// rows left over going one each to the first lanes.
pub open spec fn lane_height(avail: nat, n: nat, i: nat) -> nat {
    avail / n + if i < avail % n {
        1nat
    } else {
        0nat
    }
}

/// The rows taken by lanes `0..k`.
pub open spec fn heights_sum(avail: nat, n: nat, k: nat) -> nat
    decreases k,
{
    if k == 0 {
        0
    } else {
        heights_sum(avail, n, (k - 1) as nat) + lane_height(avail, n, (k - 1) as nat)
    }
}

proof fn lemma_heights_prefix(avail: nat, n: nat, k: nat)
    requires
        n > 0,
        k <= n,
    ensures
        heights_sum(avail, n, k) == k * (avail / n) + if k < avail % n {
            k
        } else {
            avail % n
        },
    decreases k,
{
    let q = avail / n;
    if k > 0 {
        lemma_heights_prefix(avail, n, (k - 1) as nat);
        assert(k * q == (k - 1) * q + q) by (nonlinear_arith);
        assert(heights_sum(avail, n, k) == heights_sum(avail, n, (k - 1) as nat) + lane_height(avail, n, (k - 1) as nat));
    } else {
        assert(k * q == 0) by (nonlinear_arith)
            requires
                k == 0,
        ;
    }
}

/// The lanes' heights add up to exactly the rows they share.
pub proof fn lemma_heights_fill(avail: nat, n: nat)
    requires
        n > 0,
    ensures
        heights_sum(avail, n, n) == avail,
{
    lemma_heights_prefix(avail, n, n);
    assert(avail % n < n) by (nonlinear_arith)
        requires
            n > 0,
    ;
    assert(n * (avail / n) + avail % n == avail) by (nonlinear_arith)
        requires
            n > 0,
    ;
}

/// Where each of `n` lanes stands in a plot of `plot_h` rows below the header:
/// its top row and height, one separator row between neighbours.
pub fn lane_boxes(plot_h: usize, n: usize) -> (boxes: Vec<(usize, usize)>)
    requires
        n > 0,
        n - 1 <= plot_h,
        plot_h < usize::MAX,
    ensures
        boxes@.len() == n,
        forall|i: int|
            0 <= i < n ==> #[trigger] boxes@[i] == (
                (1 + heights_sum((plot_h - (n - 1)) as nat, n as nat, i as nat) + i) as usize,
                lane_height((plot_h - (n - 1)) as nat, n as nat, i as nat) as usize,
            ),
{
    let avail = plot_h - (n - 1);
    let mut boxes: Vec<(usize, usize)> = Vec::new();
    let mut top: usize = 1;
    let mut i: usize = 0;
    while i < n
        invariant
            n > 0,
            n - 1 <= plot_h,
            plot_h < usize::MAX,
            avail == plot_h - (n - 1),
            i <= n,
            boxes@.len() == i,
            i < n ==> top == 1 + heights_sum(avail as nat, n as nat, i as nat) + i,
            forall|k: int|
                0 <= k < i ==> #[trigger] boxes@[k] == (
                    (1 + heights_sum(avail as nat, n as nat, k as nat) + k) as usize,
                    lane_height(avail as nat, n as nat, k as nat) as usize,
                ),
        decreases n - i,
    {
        proof {
            lemma_heights_prefix(avail as nat, n as nat, (i + 1) as nat);
            lemma_heights_fill(avail as nat, n as nat);
            assert(heights_sum(avail as nat, n as nat, (i + 1) as nat) <= avail) by {
                lemma_heights_mono(avail as nat, n as nat, (i + 1) as nat, n as nat);
            }
        }
        let h = avail / n + if i < avail % n {
            1
        } else {
            0
        };
        boxes.push((top, h));
        if i + 1 < n {
            top = top + h + 1;
        }
        i = i + 1;
    }
    boxes
}

proof fn lemma_heights_mono(avail: nat, n: nat, j: nat, k: nat)
    requires
        j <= k,
    ensures
        heights_sum(avail, n, j) <= heights_sum(avail, n, k),
    decreases k - j,
{
    if j < k {
        lemma_heights_mono(avail, n, j, (k - 1) as nat);
    }
}

/// The lanes laid out by [`lane_boxes`] run from the row under the header to
/// the last row of the plot, each starting one row after its neighbour above
/// ends.
pub proof fn lemma_lane_boxes(plot_h: nat, n: nat)
    requires
        n > 0,
        n - 1 <= plot_h,
    ensures
        ({
            let avail = (plot_h - (n - 1)) as nat;
            &&& forall|i: nat|
                i + 1 < n ==> 1 + heights_sum(avail, n, i + 1) + (i + 1) == (1 + heights_sum(avail, n, i) + i)
                    + #[trigger] lane_height(avail, n, i) + 1
            &&& 1 + heights_sum(avail, n, (n - 1) as nat) + (n - 1) + lane_height(avail, n, (n - 1) as nat) == plot_h + 1
        }),
{
    let avail = (plot_h - (n - 1)) as nat;
    lemma_heights_fill(avail, n);
}

/// The shortest time across the chart, in nanoseconds.
pub const MIN_SPAN: u64 = 100_000_000;

/// The longest time across the chart (a week), in nanoseconds.
pub const MAX_SPAN: u64 = 604_800_000_000_000;

/// The number of round time steps the grid lines are spaced by.
pub const TIME_STEPS: usize = 27;

/// The round time steps, in nanoseconds, chosen so grid lines fall on round
/// clock values: 1, 2, 5 ms up to a second, then 2 s, 5 s, 10 s, 15 s, 30 s,
/// a minute and so on up to a day.
pub open spec fn time_step_ns(k: int) -> nat {
    if k == 0 {
        1_000_000
    } else if k == 1 {
        2_000_000
    } else if k == 2 {
        5_000_000
    } else if k == 3 {
        10_000_000
    } else if k == 4 {
        20_000_000
    } else if k == 5 {
        50_000_000
    } else if k == 6 {
        100_000_000
    } else if k == 7 {
        200_000_000
    } else if k == 8 {
        500_000_000
    } else if k == 9 {
        1_000_000_000
    } else if k == 10 {
        2_000_000_000
    } else if k == 11 {
        5_000_000_000
    } else if k == 12 {
        10_000_000_000
    } else if k == 13 {
        15_000_000_000
    } else if k == 14 {
        30_000_000_000
    } else if k == 15 {
        60_000_000_000
    } else if k == 16 {
        120_000_000_000
    } else if k == 17 {
        300_000_000_000
    } else if k == 18 {
        600_000_000_000
    } else if k == 19 {
        900_000_000_000
    } else if k == 20 {
        1_800_000_000_000
    } else if k == 21 {
        3_600_000_000_000
    } else if k == 22 {
        7_200_000_000_000
    } else if k == 23 {
        10_800_000_000_000
    } else if k == 24 {
        21_600_000_000_000
    } else if k == 25 {
        43_200_000_000_000
    } else {
        86_400_000_000_000
    }
}

/// Round time step `k`, in nanoseconds.
pub fn time_step_at(k: usize) -> (s: u64)
    requires
        k < TIME_STEPS,
    ensures
        s == time_step_ns(k as int),
{
    if k == 0 {
        1_000_000
    } else if k == 1 {
        2_000_000
    } else if k == 2 {
        5_000_000
    } else if k == 3 {
        10_000_000
    } else if k == 4 {
        20_000_000
    } else if k == 5 {
        50_000_000
    } else if k == 6 {
        100_000_000
    } else if k == 7 {
        200_000_000
    } else if k == 8 {
        500_000_000
    } else if k == 9 {
        1_000_000_000
    } else if k == 10 {
        2_000_000_000
    } else if k == 11 {
        5_000_000_000
    } else if k == 12 {
        10_000_000_000
    } else if k == 13 {
        15_000_000_000
    } else if k == 14 {
        30_000_000_000
    } else if k == 15 {
        60_000_000_000
    } else if k == 16 {
        120_000_000_000
    } else if k == 17 {
        300_000_000_000
    } else if k == 18 {
        600_000_000_000
    } else if k == 19 {
        900_000_000_000
    } else if k == 20 {
        1_800_000_000_000
    } else if k == 21 {
        3_600_000_000_000
    } else if k == 22 {
        7_200_000_000_000
    } else if k == 23 {
        10_800_000_000_000
    } else if k == 24 {
        21_600_000_000_000
    } else if k == 25 {
        43_200_000_000_000
    } else {
        86_400_000_000_000
    }
}

/// The number of zoom steps.
pub const ZOOM_STEPS: usize = 27;

/// The spans the chart zooms through, in nanoseconds: 1, 2 and 5 times each
/// power of ten, from a millisecond to 500 000 seconds.
pub open spec fn zoom_step_ns(k: int) -> nat {
    if k == 0 {
        1_000_000
    } else if k == 1 {
        2_000_000
    } else if k == 2 {
        5_000_000
    } else if k == 3 {
        10_000_000
    } else if k == 4 {
        20_000_000
    } else if k == 5 {
        50_000_000
    } else if k == 6 {
        100_000_000
    } else if k == 7 {
        200_000_000
    } else if k == 8 {
        500_000_000
    } else if k == 9 {
        1_000_000_000
    } else if k == 10 {
        2_000_000_000
    } else if k == 11 {
        5_000_000_000
    } else if k == 12 {
        10_000_000_000
    } else if k == 13 {
        20_000_000_000
    } else if k == 14 {
        50_000_000_000
    } else if k == 15 {
        100_000_000_000
    } else if k == 16 {
        200_000_000_000
    } else if k == 17 {
        500_000_000_000
    } else if k == 18 {
        1_000_000_000_000
    } else if k == 19 {
        2_000_000_000_000
    } else if k == 20 {
        5_000_000_000_000
    } else if k == 21 {
        10_000_000_000_000
    } else if k == 22 {
        20_000_000_000_000
    } else if k == 23 {
        50_000_000_000_000
    } else if k == 24 {
        100_000_000_000_000
    } else if k == 25 {
        200_000_000_000_000
    } else {
        500_000_000_000_000
    }
}

/// Zoom step `k`, in nanoseconds.
pub fn zoom_step_at(k: usize) -> (s: u64)
    requires
        k < ZOOM_STEPS,
    ensures
        s == zoom_step_ns(k as int),
{
    if k == 0 {
        1_000_000
    } else if k == 1 {
        2_000_000
    } else if k == 2 {
        5_000_000
    } else if k == 3 {
        10_000_000
    } else if k == 4 {
        20_000_000
    } else if k == 5 {
        50_000_000
    } else if k == 6 {
        100_000_000
    } else if k == 7 {
        200_000_000
    } else if k == 8 {
        500_000_000
    } else if k == 9 {
        1_000_000_000
    } else if k == 10 {
        2_000_000_000
    } else if k == 11 {
        5_000_000_000
    } else if k == 12 {
        10_000_000_000
    } else if k == 13 {
        20_000_000_000
    } else if k == 14 {
        50_000_000_000
    } else if k == 15 {
        100_000_000_000
    } else if k == 16 {
        200_000_000_000
    } else if k == 17 {
        500_000_000_000
    } else if k == 18 {
        1_000_000_000_000
    } else if k == 19 {
        2_000_000_000_000
    } else if k == 20 {
        5_000_000_000_000
    } else if k == 21 {
        10_000_000_000_000
    } else if k == 22 {
        20_000_000_000_000
    } else if k == 23 {
        50_000_000_000_000
    } else if k == 24 {
        100_000_000_000_000
    } else if k == 25 {
        200_000_000_000_000
    } else {
        500_000_000_000_000
    }
}

/// A step to zoom in to from `span`: clearly shorter than it, and no shorter
/// than the shortest span.
pub open spec fn finer(span: nat, s: nat) -> bool {
    1000 * s < 999 * span && s >= MIN_SPAN
}

/// The longest of the first `k` steps to zoom in to, if any.
pub open spec fn finer_step(span: nat, k: nat) -> Option<nat>
    decreases k,
{
    if k == 0 {
        None
    } else if finer(span, zoom_step_ns(k - 1)) {
        Some(zoom_step_ns(k - 1))
    } else {
        finer_step(span, (k - 1) as nat)
    }
}

/// The span after zooming in: the next 1-2-5 step down, or the shortest span.
pub open spec fn zoomed_in(span: nat) -> nat {
    match finer_step(span, ZOOM_STEPS as nat) {
        Some(s) => s,
        None => if span < MIN_SPAN {
            span
        } else {
            MIN_SPAN as nat
        },
    }
}

/// The shortest of the steps from `k` on that is clearly longer than `span`, if any.
pub open spec fn coarser_step(span: nat, k: nat) -> Option<nat>
    decreases ZOOM_STEPS - k,
{
    if k >= ZOOM_STEPS {
        None
    } else if 1000 * zoom_step_ns(k as int) > 1001 * span {
        Some(zoom_step_ns(k as int))
    } else {
        coarser_step(span, k + 1)
    }
}

/// The span after zooming out: the next 1-2-5 step up, or double, at most a week.
pub open spec fn zoomed_out(span: nat) -> nat {
    let s = match coarser_step(span, 0) {
        Some(s) => s,
        None => 2 * span,
    };
    if s < MAX_SPAN {
        s
    } else {
        MAX_SPAN as nat
    }
}

/// Zoom in from `span` nanoseconds.
pub fn zoom_in(span: u64) -> (r: u64)
    ensures
        r == zoomed_in(span as nat),
{
    let mut k: usize = ZOOM_STEPS;
    while k > 0
        invariant
            k <= ZOOM_STEPS,
            finer_step(span as nat, ZOOM_STEPS as nat) == finer_step(span as nat, k as nat),
        decreases k,
    {
        let s = zoom_step_at(k - 1);
        if (s as u128) * 1000 < (span as u128) * 999 && s >= MIN_SPAN {
            return s;
        }
        k = k - 1;
    }
    if span < MIN_SPAN {
        span
    } else {
        MIN_SPAN
    }
}

/// Zoom out from `span` nanoseconds.
pub fn zoom_out(span: u64) -> (r: u64)
    ensures
        r == zoomed_out(span as nat),
{
    let mut k: usize = 0;
    while k < ZOOM_STEPS
        invariant
            k <= ZOOM_STEPS,
            coarser_step(span as nat, 0) == coarser_step(span as nat, k as nat),
        decreases ZOOM_STEPS - k,
    {
        let s = zoom_step_at(k);
        if (s as u128) * 1000 > (span as u128) * 1001 {
            return if s < MAX_SPAN {
                s
            } else {
                MAX_SPAN
            };
        }
        k = k + 1;
    }
    if span >= MAX_SPAN / 2 {
        MAX_SPAN
    } else {
        span * 2
    }
}

/// A key, as the chart reads it.
#[derive(Clone, Copy, PartialEq, Eq, Structural, Debug)]
pub enum Key {
    Char(char),
    Esc,
    Left,
    Right,
    PageUp,
    PageDown,
    End,
    Other,
}

/// How the chart is steered: the time across it and how far back from the
/// live edge it is scrolled (both in nanoseconds), whether it is paused, split
/// into lanes, and holding its scale.
#[derive(Clone, Copy, PartialEq, Eq, Structural, Debug)]
pub struct Steering {
    pub span: u64,
    pub pan: u64,
    pub paused: bool,
    pub lanes: bool,
    pub held: bool,
}

/// Whether the key ends the program: `q`, Esc or Ctrl-C.
pub open spec fn quits(key: Key, ctrl: bool) -> bool {
    key == Key::Char('q') || key == Key::Esc || (key == Key::Char('c') && ctrl)
}

/// Whether the key clears the history: `c` without Ctrl.
pub open spec fn clears(key: Key, ctrl: bool) -> bool {
    key == Key::Char('c') && !ctrl
}

/// The channel a digit key `1` to `9` shows or hides.
pub open spec fn digit_channel(key: Key) -> Option<usize> {
    match key {
        Key::Char(d) => if '1' <= d && d <= '9' {
            Some((d as u32 - '1' as u32) as usize)
        } else {
            None
        },
        _ => None,
    }
}

pub open spec fn sat_add(a: u64, b: u64) -> u64 {
    if a + b <= u64::MAX {
        (a + b) as u64
    } else {
        u64::MAX
    }
}

pub open spec fn back_to(a: u64, b: u64) -> u64 {
    if a >= b {
        (a - b) as u64
    } else {
        0
    }
}

/// The steering after a key; `found` tells whether the channel of a digit key exists.
pub open spec fn steered(st: Steering, key: Key, ctrl: bool, found: bool) -> Steering {
    if quits(key, ctrl) || clears(key, ctrl) {
        st
    } else {
        match key {
            Key::Char(c) => if c == ' ' || c == 'p' {
                if st.paused {
                    Steering { paused: false, pan: 0, ..st }
                } else {
                    Steering { paused: true, ..st }
                }
            } else if c == '+' || c == '=' {
                Steering { span: zoomed_in(st.span as nat) as u64, ..st }
            } else if c == '-' || c == '_' {
                Steering { span: zoomed_out(st.span as nat) as u64, ..st }
            } else if c == 's' {
                Steering { lanes: !st.lanes, held: false, ..st }
            } else if c == 'a' {
                Steering { held: !st.held, ..st }
            } else if '1' <= c && c <= '9' && found && st.lanes {
                Steering { held: false, ..st }
            } else {
                st
            },
            Key::Left => Steering { paused: true, pan: sat_add(st.pan, st.span / 10), ..st },
            Key::PageUp => Steering { paused: true, pan: sat_add(st.pan, st.span), ..st },
            Key::Right => if st.paused {
                Steering { pan: back_to(st.pan, st.span / 10), ..st }
            } else {
                st
            },
            Key::PageDown => if st.paused {
                Steering { pan: back_to(st.pan, st.span), ..st }
            } else {
                st
            },
            Key::End => Steering { paused: false, pan: 0, ..st },
            _ => st,
        }
    }
}

/// Whether a digit key names a channel among the first `n`.
pub open spec fn finds(key: Key, n: nat) -> bool {
    digit_channel(key) is Some && digit_channel(key)->0 < n
}

/// Channel `i` shown if it was hidden and hidden if it was shown.
pub open spec fn toggled<V>(chans: Seq<crate::data::ChannelView<V>>, i: int) -> Seq<crate::data::ChannelView<V>> {
    chans.update(i, (chans[i].0, chans[i].1, !chans[i].2))
}

/// The channels after a key: a digit key shows or hides its channel.
pub open spec fn key_chans<V>(chans: Seq<crate::data::ChannelView<V>>, key: Key, ctrl: bool) -> Seq<crate::data::ChannelView<V>> {
    if !quits(key, ctrl) && !clears(key, ctrl) && finds(key, chans.len()) {
        toggled(chans, digit_channel(key)->0 as int)
    } else {
        chans
    }
}

proof fn lemma_zoomed_in_fits(span: nat)
    requires
        span <= u64::MAX,
    ensures
        zoomed_in(span) <= u64::MAX,
{
    lemma_finer_step_fits(span, ZOOM_STEPS as nat);
}

proof fn lemma_finer_step_fits(span: nat, k: nat)
    ensures
        finer_step(span, k) is Some ==> finer_step(span, k)->0 <= 500_000_000_000_000,
    decreases k,
{
    if k > 0 {
        lemma_finer_step_fits(span, (k - 1) as nat);
    }
}

impl Steering {
    /// Act on a key: pause, scroll, zoom, split, hold, clear the history, or
    /// show or hide a channel. Returns false when the key quits.
    pub fn key<V: Copy>(&mut self, key: Key, ctrl: bool, rec: &mut crate::data::Recorder<V>) -> (go_on: bool)
        requires
            old(rec).wf(),
        ensures
            go_on == !quits(key, ctrl),
            final(rec).wf(),
            *final(self) == steered(*old(self), key, ctrl, finds(key, old(rec).chans().len())),
            final(rec).chans() == key_chans(old(rec).chans(), key, ctrl),
            final(rec).samples() == if clears(key, ctrl) {
                Seq::empty()
            } else {
                old(rec).samples()
            },
            final(rec).count() == old(rec).count(),
            final(rec).limit() == old(rec).limit(),
            final(rec).fixed() == old(rec).fixed(),
    {
        if key == Key::Char('q') || key == Key::Esc || (key == Key::Char('c') && ctrl) {
            return false;
        }
        if key == Key::Char('c') {
            rec.clear();
            return true;
        }
        match key {
            Key::Char(c) => {
                if c == ' ' || c == 'p' {
                    if self.paused {
                        self.paused = false;
                        self.pan = 0;
                    } else {
                        self.paused = true;
                    }
                } else if c == '+' || c == '=' {
                    proof {
                        lemma_zoomed_in_fits(self.span as nat);
                    }
                    self.span = zoom_in(self.span);
                } else if c == '-' || c == '_' {
                    self.span = zoom_out(self.span);
                } else if c == 's' {
                    self.lanes = !self.lanes;
                    self.held = false;
                } else if c == 'a' {
                    self.held = !self.held;
                } else if '1' <= c && c <= '9' {
                    let i = (c as u32 - '1' as u32) as usize;
                    let there = rec.toggle(i);
                    if there && self.lanes {
                        self.held = false;
                    }
                }
            },
            Key::Left => {
                self.paused = true;
                self.pan = self.pan.saturating_add(self.span / 10);
            },
            Key::PageUp => {
                self.paused = true;
                self.pan = self.pan.saturating_add(self.span);
            },
            Key::Right => {
                if self.paused {
                    self.pan = self.pan.saturating_sub(self.span / 10);
                }
            },
            Key::PageDown => {
                if self.paused {
                    self.pan = self.pan.saturating_sub(self.span);
                }
            },
            Key::End => {
                self.paused = false;
                self.pan = 0;
            },
            _ => {},
        }
        true
    }
}

pub open spec fn label_views(labels: Seq<(usize, String)>) -> Seq<(usize, Seq<char>)> {
    labels.map_values(|m: (usize, String)| (m.0, m.1@))
}

/// The screen after the first `k` time labels on row `y`, and the first column
/// still free: each label is centred under its grid column (counted from the
/// gutter), and left out where it would come closer than two columns to the
/// one before or run past the right edge.
pub open spec fn axis_upto(s: Screen, y: int, labels: Seq<(usize, Seq<char>)>, k: nat) -> (Seq<ScreenCell>, int)
    decreases k,
{
    if k == 0 || k > labels.len() {
        (s.cells@, GUTTER as int)
    } else {
        let (cells, free) = axis_upto(s, y, labels, (k - 1) as nat);
        let (c, text) = labels[k - 1];
        let n = text.len() as int;
        let x = if GUTTER + c >= n / 2 {
            GUTTER + c - n / 2
        } else {
            0
        };
        if x >= free && x + n <= s.w {
            (styled_spec(cells, s.w as nat, s.h as nat, x, y, text, DIM, false), x + n + 2)
        } else {
            (cells, free)
        }
    }
}

impl Screen {
    /// Write the time axis on row `y`: each label under its grid column, where it fits.
    pub fn time_axis(&mut self, y: usize, labels: &Vec<(usize, String)>)
        requires
            old(self).wf(),
            forall|k: int| 0 <= k < labels@.len() ==> GUTTER + #[trigger] labels@[k].0 <= usize::MAX,
        ensures
            final(self).wf(),
            final(self).w == old(self).w,
            final(self).h == old(self).h,
            final(self).cells@ == axis_upto(*old(self), y as int, label_views(labels@), labels@.len() as nat).0,
    {
        let ghost before = *self;
        let ghost lv = label_views(labels@);
        let mut free: u128 = GUTTER as u128;
        let mut k: usize = 0;
        while k < labels.len()
            invariant
                self.wf(),
                self.w == before.w,
                self.h == before.h,
                forall|j: int| 0 <= j < labels@.len() ==> GUTTER + #[trigger] labels@[j].0 <= usize::MAX,
                lv == label_views(labels@),
                lv.len() == labels@.len(),
                k <= labels.len(),
                (self.cells@, free as int) == axis_upto(before, y as int, lv, k as nat),
            decreases labels.len() - k,
        {
            let c = labels[k].0;
            let n = chars_of(labels[k].1.as_str()).len();
            assert(lv[k as int] == (c, labels@[k as int].1@));
            let x = (GUTTER + c).saturating_sub(n / 2);
            if x as u128 >= free && n <= self.w && x <= self.w - n {
                self.text(x, y, labels[k].1.as_str(), DIM);
                free = x as u128 + n as u128 + 2;
            }
            k = k + 1;
        }
    }
}

/// The key hints of the status line: each key and what it does now.
pub open spec fn hints(st: Steering) -> Seq<(Seq<char>, Seq<char>)> {
    seq![
        ("q"@, "quit"@),
        ("space"@, if st.paused { "resume"@ } else { "pause"@ }),
        ("←→"@, "scroll"@),
        ("+-"@, "span"@),
        ("s"@, if st.lanes { "overlay"@ } else { "lanes"@ }),
        ("a"@, if st.held { "autoscale"@ } else { "hold scale"@ }),
        ("c"@, "clear"@),
        ("1-9"@, "channels"@),
    ]
}

/// The key hints for steering `st`.
pub fn key_hints(st: &Steering) -> (r: Vec<(&'static str, &'static str)>)
    ensures
        r@.len() == hints(*st).len(),
        forall|i: int| 0 <= i < r@.len() ==> (#[trigger] r@[i]).0@ == hints(*st)[i].0 && r@[i].1@ == hints(*st)[i].1,
{
    let r = vec![
        ("q", "quit"),
        ("space", if st.paused { "resume" } else { "pause" }),
        ("←→", "scroll"),
        ("+-", "span"),
        ("s", if st.lanes { "overlay" } else { "lanes" }),
        ("a", if st.held { "autoscale" } else { "hold scale" }),
        ("c", "clear"),
        ("1-9", "channels"),
    ];
    r
}

/// The screen after the key hints from the `k`-th on, starting at column `x` of
/// row `y`, stopping at the first that would reach `limit`: the key in bold
/// white, then what it does, dimmed, with a space before and two after.
pub open spec fn hints_from(cells: Seq<ScreenCell>, w: nat, h: nat, y: int, hs: Seq<(Seq<char>, Seq<char>)>, k: nat, x: int, limit: int) -> Seq<ScreenCell>
    decreases hs.len() - k,
{
    if k >= hs.len() {
        cells
    } else {
        let (key, what) = hs[k as int];
        if x + key.len() + what.len() + 2 > limit {
            cells
        } else {
            let c1 = styled_spec(cells, w, h, x, y, key, Tint::White, true);
            let x1 = styled_end(w, h, x, y, key.len() as int);
            let said = seq![' '] + what + seq![' ', ' '];
            let c2 = styled_spec(c1, w, h, x1, y, said, DIM, false);
            let x2 = styled_end(w, h, x1, y, said.len() as int);
            hints_from(c2, w, h, y, hs, k + 1, x2, limit)
        }
    }
}

/// The status line at row `y`: the key hints from column 1, as many as fit
/// before `right`, which stands against the right edge, dimmed while the input
/// is live and yellow otherwise.
pub open spec fn status_view(s: Screen, y: int, st: Steering, right: Seq<char>, live: bool) -> Seq<ScreenCell> {
    let limit = if s.w >= right.len() + 1 {
        s.w - (right.len() + 1)
    } else {
        0
    };
    let cells = hints_from(s.cells@, s.w as nat, s.h as nat, y, hints(st), 0, 1, limit);
    let rx = if s.w >= right.len() {
        s.w - right.len()
    } else {
        0
    };
    styled_spec(cells, s.w as nat, s.h as nat, rx, y, right, if live { DIM } else { Tint::Yellow }, false)
}

impl Screen {
    /// Write the status line at row `y`.
    pub fn status(&mut self, y: usize, st: &Steering, right: &str, live: bool)
        requires
            old(self).wf(),
        ensures
            final(self).wf(),
            final(self).w == old(self).w,
            final(self).h == old(self).h,
            final(self).cells@ == status_view(*old(self), y as int, *st, right@, live),
    {
        let ghost before = *self;
        let rlen = chars_of(right).len();
        let limit = if rlen < self.w {
            self.w - (rlen + 1)
        } else {
            0
        };
        let hs = key_hints(st);
        let ghost hv = hints(*st);
        let mut x: usize = 1;
        let mut k: usize = 0;
        let mut stop = false;
        while k < hs.len() && !stop
            invariant
                self.wf(),
                self.w == before.w,
                self.h == before.h,
                hs@.len() == hv.len(),
                hv == hints(*st),
                forall|i: int| 0 <= i < hs@.len() ==> (#[trigger] hs@[i]).0@ == hv[i].0 && hs@[i].1@ == hv[i].1,
                k <= hs.len(),
                x <= self.w || x == 1,
                limit <= self.w,
                stop ==> hints_from(self.cells@, self.w as nat, self.h as nat, y as int, hv, k as nat, x as int, limit as int) == self.cells@,
                hints_from(before.cells@, before.w as nat, before.h as nat, y as int, hv, 0, 1, limit as int)
                    == hints_from(self.cells@, self.w as nat, self.h as nat, y as int, hv, k as nat, x as int, limit as int),
            decreases hs.len() - k + if stop { 0int } else { 1int },
        {
            let (key, what) = hs[k];
            let kn = chars_of(key).len();
            let wn = chars_of(what).len();
            assert(hv[k as int] == (key@, what@));
            if x as u128 + kn as u128 + wn as u128 + 2 > limit as u128 {
                stop = true;
            } else {
                let x1 = self.styled(x, y, key, Tint::White, true);
                let mut said = String::new();
                crate::text::push_char(&mut said, ' ');
                crate::text::append_str(&mut said, what);
                crate::text::push_char(&mut said, ' ');
                crate::text::push_char(&mut said, ' ');
                assert(said@ =~= seq![' '] + what@ + seq![' ', ' ']);
                let x2 = self.text(x1, y, said.as_str(), DIM);
                x = x2;
                k = k + 1;
            }
        }
        let rx = self.w.saturating_sub(rlen);
        let color = if live {
            DIM
        } else {
            Tint::Yellow
        };
        self.text(rx, y, right, color);
    }
}

/// The screen after the header's entries for channels `k..` from column `x`:
/// a mark (filled when shown) and the name in the channel's pen color (grey when
/// hidden), then the last reading, bold white when shown.
pub open spec fn legend_from<V>(
    cells: Seq<ScreenCell>,
    w: nat,
    h: nat,
    chans: Seq<crate::data::ChannelView<V>>,
    readings: Seq<Seq<char>>,
    k: nat,
    x: int,
) -> Seq<ScreenCell>
    decreases chans.len() - k,
{
    if k >= chans.len() {
        cells
    } else {
        let (name, _, vis) = chans[k as int];
        let mark = if vis {
            '■'
        } else {
            '□'
        };
        let color = if vis {
            crate::tint::pen(k % 7)
        } else {
            GRID
        };
        let entry = seq![' ', mark, ' '] + name + seq![' '];
        let c1 = styled_spec(cells, w, h, x, 0, entry, color, false);
        let x1 = styled_end(w, h, x, 0, entry.len() as int);
        let c2 = styled_spec(c1, w, h, x1, 0, readings[k as int], if vis { Tint::White } else { GRID }, vis);
        let x2 = styled_end(w, h, x1, 0, readings[k as int].len() as int);
        let c3 = styled_spec(c2, w, h, x2, 0, seq![' '], GRID, false);
        let x3 = styled_end(w, h, x2, 0, 1);
        legend_from(c3, w, h, chans, readings, k + 1, x3)
    }
}

/// The header row: a red REC (with its lamp lit or not) or a yellow PAUSED,
/// the span, how far back the chart is scrolled if it is, and the channels.
pub open spec fn header_view<V>(
    s: Screen,
    paused: bool,
    lamp: bool,
    span: Seq<char>,
    pan: Option<Seq<char>>,
    chans: Seq<crate::data::ChannelView<V>>,
    readings: Seq<Seq<char>>,
) -> Seq<ScreenCell> {
    let (w, h) = (s.w as nat, s.h as nat);
    let badge = if paused {
        " ❚❚ PAUSED "@
    } else if lamp {
        " ● REC "@
    } else {
        "   REC "@
    };
    let c0 = styled_spec(s.cells@, w, h, 0, 0, badge, if paused { Tint::Yellow } else { Tint::Red }, true);
    let x0 = styled_end(w, h, 0, 0, badge.len() as int);
    let sp = " span "@ + span + seq![' '];
    let c1 = styled_spec(c0, w, h, x0, 0, sp, DIM, false);
    let x1 = styled_end(w, h, x0, 0, sp.len() as int);
    let (c2, x2) = match pan {
        Some(p) => {
            let back = seq!['◂'] + p + seq![' '];
            (styled_spec(c1, w, h, x1, 0, back, Tint::Yellow, false), styled_end(w, h, x1, 0, back.len() as int))
        },
        None => (c1, x1),
    };
    let c3 = styled_spec(c2, w, h, x2, 0, seq!['│'], GRID, false);
    let x3 = styled_end(w, h, x2, 0, 1);
    let c4 = if chans.len() == 0 {
        styled_spec(c3, w, h, x3, 0, " no channels yet"@, DIM, false)
    } else {
        c3
    };
    legend_from(c4, w, h, chans, readings, 0, x3)
}

impl Screen {
    /// Write the header row.
    pub fn header<V>(
        &mut self,
        paused: bool,
        lamp: bool,
        span: &str,
        pan: Option<&str>,
        chans: &Vec<crate::data::Channel<V>>,
        readings: &Vec<String>,
    )
        requires
            old(self).wf(),
            readings@.len() == chans@.len(),
        ensures
            final(self).wf(),
            final(self).w == old(self).w,
            final(self).h == old(self).h,
            final(self).cells@ == header_view(
                *old(self),
                paused,
                lamp,
                span@,
                match pan {
                    Some(p) => Some(p@),
                    None => None,
                },
                crate::data::channel_views(chans@),
                readings@.map_values(|r: String| r@),
            ),
    {
        let ghost before = *self;
        let ghost cv = crate::data::channel_views(chans@);
        let ghost rv = readings@.map_values(|r: String| r@);
        let x0 = if paused {
            self.styled(0, 0, " ❚❚ PAUSED ", Tint::Yellow, true)
        } else if lamp {
            self.styled(0, 0, " ● REC ", Tint::Red, true)
        } else {
            self.styled(0, 0, "   REC ", Tint::Red, true)
        };
        let mut sp = String::new();
        crate::text::append_str(&mut sp, " span ");
        crate::text::append_str(&mut sp, span);
        crate::text::push_char(&mut sp, ' ');
        let x1 = self.text(x0, 0, sp.as_str(), DIM);
        let x2 = match pan {
            Some(p) => {
                let mut back = String::new();
                crate::text::push_char(&mut back, '◂');
                crate::text::append_str(&mut back, p);
                crate::text::push_char(&mut back, ' ');
                assert(back@ =~= seq!['◂'] + p@ + seq![' ']);
                self.text(x1, 0, back.as_str(), Tint::Yellow)
            },
            None => x1,
        };
        let mut bar = String::new();
        crate::text::push_char(&mut bar, '│');
        assert(bar@ =~= seq!['│']);
        let x3 = self.text(x2, 0, bar.as_str(), GRID);
        if chans.len() == 0 {
            self.text(x3, 0, " no channels yet", DIM);
        }
        let ghost c4 = self.cells@;
        let mut x = x3;
        let mut k: usize = 0;
        while k < chans.len()
            invariant
                self.wf(),
                self.w == before.w,
                self.h == before.h,
                readings@.len() == chans@.len(),
                cv == crate::data::channel_views(chans@),
                rv == readings@.map_values(|r: String| r@),
                k <= chans@.len(),
                legend_from(c4, before.w as nat, before.h as nat, cv, rv, 0, x3 as int) == legend_from(
                    self.cells@,
                    self.w as nat,
                    self.h as nat,
                    cv,
                    rv,
                    k as nat,
                    x as int,
                ),
            decreases chans.len() - k,
        {
            let vis = chans[k].visible;
            let mark = if vis {
                '■'
            } else {
                '□'
            };
            let color = if vis {
                crate::tint::palette(k)
            } else {
                GRID
            };
            let mut entry = String::new();
            crate::text::push_char(&mut entry, ' ');
            crate::text::push_char(&mut entry, mark);
            crate::text::push_char(&mut entry, ' ');
            crate::text::append_str(&mut entry, chans[k].name.as_str());
            crate::text::push_char(&mut entry, ' ');
            assert(entry@ =~= seq![' ', mark, ' '] + cv[k as int].0 + seq![' ']);
            let x1 = self.text(x, 0, entry.as_str(), color);
            let x2 = self.styled(
                x1,
                0,
                readings[k].as_str(),
                if vis {
                    Tint::White
                } else {
                    GRID
                },
                vis,
            );
            let mut gap = String::new();
            crate::text::push_char(&mut gap, ' ');
            assert(gap@ =~= seq![' ']);
            x = self.text(x2, 0, gap.as_str(), GRID);
            k = k + 1;
        }
        proof {
            assert(sp@ =~= " span "@ + span@ + seq![' ']);
        }
    }
}


proof fn lemma_finer_step(span: nat, k: nat)
    ensures
        finer_step(span, k) matches Some(s) ==> finer(span, s),
    decreases k,
{
    if k > 0 {
        lemma_finer_step(span, (k - 1) as nat);
    }
}

proof fn lemma_coarser_step(span: nat, k: nat)
    ensures
        coarser_step(span, k) matches Some(s) ==> 1000 * s > 1001 * span,
        span == 0 && k == 0 ==> coarser_step(span, k) is Some,
    decreases ZOOM_STEPS - k,
{
    if k < ZOOM_STEPS {
        lemma_coarser_step(span, k + 1);
    }
}

/// Zooming in shortens the span, but not below the shortest span (a span
/// already shorter is kept).
pub proof fn lemma_zoom_in(span: nat)
    ensures
        zoomed_in(span) <= span,
        span > MIN_SPAN ==> MIN_SPAN <= zoomed_in(span) < span,
        span <= MIN_SPAN ==> zoomed_in(span) == span,
{
    lemma_finer_step(span, ZOOM_STEPS as nat);
}

/// Zooming out lengthens the span, up to a week.
pub proof fn lemma_zoom_out(span: nat)
    ensures
        zoomed_out(span) <= MAX_SPAN,
        span < MAX_SPAN ==> zoomed_out(span) > span,
{
    lemma_coarser_step(span, 0);
}

/// `End` goes back to the live edge.
pub proof fn lemma_end_goes_live(st: Steering, ctrl: bool, found: bool)
    ensures
        !steered(st, Key::End, ctrl, found).paused,
        steered(st, Key::End, ctrl, found).pan == 0,
{
}

/// Scrolling back pauses the chart first.
pub proof fn lemma_scroll_back_pauses(st: Steering, ctrl: bool, found: bool)
    ensures
        steered(st, Key::Left, ctrl, found).paused,
        steered(st, Key::PageUp, ctrl, found).paused,
        steered(st, Key::Left, ctrl, found).pan >= st.pan,
{
}

/// Pausing and then resuming comes back to the live edge, with nothing else changed.
pub proof fn lemma_pause_resume(st: Steering, ctrl: bool, found: bool)
    requires
        !st.paused,
    ensures
        steered(steered(st, Key::Char(' '), ctrl, found), Key::Char(' '), ctrl, found) == (Steering { pan: 0, ..st }),
{
}


/// `n` flags, set at the positions in `at` (the rows or columns of grid lines).
pub fn flags(n: usize, at: &Vec<usize>) -> (r: Vec<bool>)
    requires
        forall|k: int| 0 <= k < at@.len() ==> #[trigger] at@[k] < n,
    ensures
        r@.len() == n,
        forall|i: int| 0 <= i < n ==> #[trigger] r@[i] == at@.contains(i as usize),
{
    let mut r: Vec<bool> = Vec::new();
    while r.len() < n
        invariant
            r@.len() <= n,
            forall|i: int| 0 <= i < r@.len() ==> !#[trigger] r@[i],
        decreases n - r.len(),
    {
        r.push(false);
    }
    let mut k: usize = 0;
    while k < at.len()
        invariant
            k <= at@.len(),
            r@.len() == n,
            forall|j: int| 0 <= j < at@.len() ==> #[trigger] at@[j] < n,
            forall|i: int| 0 <= i < n ==> #[trigger] r@[i] == at@.take(k as int).contains(i as usize),
        decreases at.len() - k,
    {
        let c = at[k];
        r.set(c, true);
        proof {
            assert forall|i: int| 0 <= i < n implies #[trigger] r@[i] == at@.take(k + 1).contains(i as usize) by {
                let t1 = at@.take(k + 1);
                let t0 = at@.take(k as int);
                assert(t1 =~= t0.push(c));
                if t0.contains(i as usize) {
                    let j = choose|j: int| 0 <= j < t0.len() && t0[j] == i as usize;
                    assert(t1[j] == i as usize);
                }
                if i == c {
                    assert(t1[k as int] == c);
                } else if t1.contains(i as usize) {
                    let j = choose|j: int| 0 <= j < t1.len() && t1[j] == i as usize;
                    assert(j < k);
                    assert(t0[j] == i as usize);
                }
            }
        }
        k = k + 1;
    }
    assert(at@.take(at@.len() as int) =~= at@);
    r
}


impl Screen {
    /// Draw a separator line across row `y`.
    pub fn rule(&mut self, y: usize)
        requires
            old(self).wf(),
        ensures
            final(self).wf(),
            final(self).w == old(self).w,
            final(self).h == old(self).h,
            forall|cx: int, cy: int|
                0 <= cx < old(self).w && 0 <= cy < old(self).h ==> #[trigger] final(self).at(cx, cy) == if cy == y {
                    ScreenCell { ch: '─', fg: GRID, bold: false }
                } else {
                    old(self).at(cx, cy)
                },
    {
        let ghost before = *self;
        let mut x: usize = 0;
        while x < self.w
            invariant
                self.wf(),
                self.w == before.w,
                self.h == before.h,
                x <= self.w,
                forall|cx: int, cy: int|
                    0 <= cx < self.w && 0 <= cy < self.h ==> #[trigger] self.at(cx, cy) == if cy == y && cx < x {
                        ScreenCell { ch: '─', fg: GRID, bold: false }
                    } else {
                        before.at(cx, cy)
                    },
            decreases self.w - x,
        {
            self.put(x, y, '─', GRID);
            x = x + 1;
        }
    }
}


/// Whether a terminal of `w × h` cells has room for the chart.
pub open spec fn roomy_spec(w: nat, h: nat) -> bool {
    w >= GUTTER + 20 && h >= 8
}

/// Whether a terminal of `w × h` cells has room for the chart.
pub fn roomy(w: usize, h: usize) -> (r: bool)
    ensures
        r == roomy_spec(w as nat, h as nat),
{
    w >= GUTTER + 20 && h >= 8
}

/// What happened to the input: a line was read (and recorded as a sample or
/// not), the input ended, or reading it failed with a message.
pub enum InputEvent {
    Read(bool),
    Closed,
    Failed(String),
}

/// What the status line says of the input after an event: `live` once a sample
/// is recorded, `input closed` at the end, the message on a failure.
pub open spec fn input_note_spec(note: Seq<char>, ev: InputEvent) -> Seq<char> {
    match ev {
        InputEvent::Read(recorded) => if recorded {
            "live"@
        } else {
            note
        },
        InputEvent::Closed => "input closed"@,
        InputEvent::Failed(e) => e@,
    }
}

pub fn input_note(note: String, ev: InputEvent) -> (r: String)
    ensures
        r@ == input_note_spec(note@, ev),
{
    match ev {
        InputEvent::Read(recorded) => if recorded {
            String::from_str("live")
        } else {
            note
        },
        InputEvent::Closed => String::from_str("input closed"),
        InputEvent::Failed(e) => e,
    }
}

/// The right end of the status line: ` N samples · RATE · INPUT `.
pub fn status_right(total: u64, rate: &str, input: &str) -> (r: String)
    ensures
        r@ == seq![' '] + crate::text::decimal(total as nat) + " samples · "@ + rate@ + " · "@ + input@ + seq![' '],
{
    let mut r = String::new();
    crate::text::push_char(&mut r, ' ');
    crate::text::append_str(&mut r, crate::text::decimal_string(total).as_str());
    crate::text::append_str(&mut r, " samples · ");
    crate::text::append_str(&mut r, rate);
    crate::text::append_str(&mut r, " · ");
    crate::text::append_str(&mut r, input);
    crate::text::push_char(&mut r, ' ');
    r
}


/// Pressing a channel's digit twice shows or hides it and then restores it.
pub proof fn lemma_digit_twice<V>(chans: Seq<crate::data::ChannelView<V>>, key: Key, ctrl: bool)
    ensures
        key_chans(key_chans(chans, key, ctrl), key, ctrl) == chans,
{
    if !quits(key, ctrl) && !clears(key, ctrl) && finds(key, chans.len()) {
        let i = digit_channel(key)->0 as int;
        let once = toggled(chans, i);
        assert(once.len() == chans.len());
        assert(toggled(once, i) =~= chans);
    }
}


/// How far each scrolling key moves: `←` and `PgUp` go back a tenth of the span
/// and a whole span (pausing first, the offset capped at its largest value);
/// while paused, `→` and `PgDn` come forward by the same amounts, no further
/// than the live edge; while live they do nothing. Going back and then forward
/// by the same key pair returns to where the chart was.
pub proof fn lemma_scroll_steps(st: Steering, ctrl: bool, found: bool)
    ensures
        steered(st, Key::Left, ctrl, found).pan == if st.pan + st.span / 10 <= u64::MAX {
            (st.pan + st.span / 10) as u64
        } else {
            u64::MAX
        },
        steered(st, Key::PageUp, ctrl, found).pan == if st.pan + st.span <= u64::MAX {
            (st.pan + st.span) as u64
        } else {
            u64::MAX
        },
        st.paused ==> steered(st, Key::Right, ctrl, found).pan == if st.pan >= st.span / 10 {
            (st.pan - st.span / 10) as u64
        } else {
            0
        },
        st.paused ==> steered(st, Key::PageDown, ctrl, found).pan == if st.pan >= st.span {
            (st.pan - st.span) as u64
        } else {
            0
        },
        st.paused ==> steered(st, Key::Right, ctrl, found).paused && steered(st, Key::PageDown, ctrl, found).paused,
        !st.paused ==> steered(st, Key::Right, ctrl, found) == st && steered(st, Key::PageDown, ctrl, found) == st,
        st.pan + st.span <= u64::MAX ==> steered(steered(st, Key::Left, ctrl, found), Key::Right, ctrl, found).pan
            == st.pan,
        st.pan + st.span <= u64::MAX ==> steered(steered(st, Key::PageUp, ctrl, found), Key::PageDown, ctrl, found).pan
            == st.pan,
        steered(st, Key::Right, ctrl, found).span == st.span,
        steered(st, Key::Left, ctrl, found).span == st.span,
{
    assert(st.span / 10 <= st.span);
}

} // verus!
