//! "Paper" mode: the chart scrolls down the terminal one row per sample, like
//! a pen recorder with the paper running vertically. This module lays out the
//! rows as characters and colors; the columns of the pens come from the caller.

use vstd::prelude::*;

use crate::text::chars_of;
use crate::tint::{palette, pen, Tint, DIM, GRID, PENS};

verus! {

/// Width of the timestamp column.
pub const GUTTER: usize = 11;

/// A cell of a row: a character and its color.
pub type Cell = (char, Tint);

pub open spec fn blank() -> Cell {
    (' ', Tint::Reset)
}

/// The channels drawn in each lane: one lane per channel, or all in one.
pub fn lane_groups(split: bool, channels: usize) -> (r: Vec<Vec<usize>>)
    ensures
        split ==> r@.len() == channels && forall|i: int|
            0 <= i < channels ==> (#[trigger] r@[i])@ == seq![i as usize],
        !split ==> r@.len() == 1 && r@[0]@ == Seq::new(channels as nat, |i: int| i as usize),
{
    if split {
        let mut r: Vec<Vec<usize>> = Vec::new();
        let mut c: usize = 0;
        while c < channels
            invariant
                c <= channels,
                r@.len() == c,
                forall|i: int| 0 <= i < c ==> (#[trigger] r@[i])@ == seq![i as usize],
            decreases channels - c,
        {
            let one = vec![c];
            assert(one@ =~= seq![c]);
            r.push(one);
            c = c + 1;
        }
        r
    } else {
        let mut all: Vec<usize> = Vec::new();
        let mut c: usize = 0;
        while c < channels
            invariant
                c <= channels,
                all@ =~= Seq::new(c as nat, |i: int| i as usize),
            decreases channels - c,
        {
            all.push(c);
            c = c + 1;
        }
        let r = vec![all];
        assert(r@[0]@ =~= Seq::new(channels as nat, |i: int| i as usize));
        r
    }
}

/// The width of each of `n` lanes on paper `width` columns wide (at least 5).
pub fn lane_width(width: usize, n: usize) -> (w: usize)
    requires
        1 <= n,
    ensures
        w == (if width >= GUTTER + n - 1 {
            if (width - (GUTTER + n - 1)) / n as int >= 5 {
                (width - (GUTTER + n - 1)) / n as int
            } else {
                5
            }
        } else {
            5
        }),
        w >= 5,
{
    let need = GUTTER as u128 + n as u128 - 1;
    let room: u128 = if width as u128 >= need {
        (width as u128 - need) / (n as u128)
    } else {
        0
    };
    if room >= 5 {
        assert(room <= width);
        room as usize
    } else {
        5
    }
}

/// Column of the `k`-th quarter-scale division in a lane `lw` wide:
/// `k * (lw - 1) / 4`, rounded half up.
pub open spec fn grid_col(k: nat, lw: nat) -> nat {
    ((k * (lw - 1) + 2) / 4) as nat
}

pub open spec fn on_grid(c: nat, lw: nat) -> bool {
    exists|k: nat| k < 5 && grid_col(k, lw) == c
}

/// Columns of the quarter-scale divisions within a lane.
pub fn grid_cols(lw: usize) -> (g: [usize; 5])
    requires
        1 <= lw,
    ensures
        forall|k: int| 0 <= k < 5 ==> g@[k] == grid_col(k as nat, lw as nat),
{
    let m = (lw - 1) as u128;
    let g = [
        0,
        ((m + 2) / 4) as usize,
        ((2 * m + 2) / 4) as usize,
        ((3 * m + 2) / 4) as usize,
        ((4 * m + 2) / 4) as usize,
    ];
    assert(grid_col(0, lw as nat) == 0);
    assert(grid_col(1, lw as nat) == (m + 2) / 4);
    assert(grid_col(2, lw as nat) == (2 * m + 2) / 4);
    assert(grid_col(3, lw as nat) == (3 * m + 2) / 4);
    assert(grid_col(4, lw as nat) == (4 * m + 2) / 4);
    assert forall|k: int| 0 <= k < 5 implies g@[k] == grid_col(k as nat, lw as nat) by {
        if k == 0 {
        } else if k == 1 {
        } else if k == 2 {
        } else if k == 3 {
        } else {
        }
    }
    g
}

fn is_grid_col(g: &[usize; 5], c: usize) -> (r: bool)
    ensures
        r == exists|k: int| 0 <= k < 5 && g@[k] == c,
{
    let r = g[0] == c || g[1] == c || g[2] == c || g[3] == c || g[4] == c;
    if r {
        if g[0] == c {
            assert(g@[0] == c);
        } else if g[1] == c {
            assert(g@[1] == c);
        } else if g[2] == c {
            assert(g@[2] == c);
        } else if g[3] == c {
            assert(g@[3] == c);
        } else {
            assert(g@[4] == c);
        }
    }
    r
}

/// The ruling of column `c` of a lane: the edges, the quarter divisions, and on
/// marked rows a dotted division line.
pub open spec fn ruling(mark: bool, c: nat, lw: nat) -> char {
    let edge = c == 0 || c == lw - 1;
    if !mark {
        if edge {
            '│'
        } else if on_grid(c, lw) {
            '┊'
        } else {
            ' '
        }
    } else {
        if edge {
            if c == 0 {
                '├'
            } else {
                '┤'
            }
        } else if on_grid(c, lw) {
            '┼'
        } else {
            '┈'
        }
    }
}

/// A row of `n` lanes `lw` wide fits in memory: its width is a `usize`.
pub open spec fn sheet_fits(n: nat, lw: nat) -> bool {
    GUTTER + n * (lw + 1) <= usize::MAX
}

/// The width of a row of `n` lanes, each `lw` wide and one column apart.
pub open spec fn row_width(n: nat, lw: nat) -> nat {
    (GUTTER + n * (lw + 1) - 1) as nat
}

/// Cell `k` of a ruled row: lane columns get `glyph(column)` in the grid color,
/// everything else is blank.
pub open spec fn ruled_cell(k: int, lw: nat, glyph: spec_fn(nat) -> char) -> Cell {
    if k >= GUTTER && (k - GUTTER) % ((lw + 1) as int) < lw {
        (glyph(((k - GUTTER) % ((lw + 1) as int)) as nat), GRID)
    } else {
        blank()
    }
}

pub open spec fn ruled_row(n: nat, lw: nat, glyph: spec_fn(nat) -> char) -> Seq<Cell> {
    Seq::new(row_width(n, lw), |k: int| ruled_cell(k, lw, glyph))
}

pub open spec fn row_ruling(mark: bool, lw: nat) -> spec_fn(nat) -> char {
    |c: nat| ruling(mark, c, lw)
}

/// The glyph of column `c` in the ruler under the scale labels.
pub open spec fn ruler_glyph(c: nat, lw: nat) -> char {
    if c == 0 {
        '┌'
    } else if c == lw - 1 {
        '┐'
    } else if on_grid(c, lw) {
        '┬'
    } else {
        '─'
    }
}

pub open spec fn ruler_ruling(lw: nat) -> spec_fn(nat) -> char {
    |c: nat| ruler_glyph(c, lw)
}

proof fn lemma_grid_on(g: [usize; 5], lw: nat, c: nat)
    requires
        forall|k: int| 0 <= k < 5 ==> g@[k] == grid_col(k as nat, lw),
    ensures
        (exists|k: int| 0 <= k < 5 && g@[k] == c) == on_grid(c, lw),
{
    if on_grid(c, lw) {
        let k = choose|k: nat| k < 5 && grid_col(k, lw) == c;
        assert(g@[k as int] == c);
    }
    if exists|k: int| 0 <= k < 5 && g@[k] == c {
        let k = choose|k: int| 0 <= k < 5 && g@[k] == c;
        assert(grid_col(k as nat, lw) == c);
    }
}

/// A row of `n` lanes `lw` wide, ruled with `ruling` (paper row) or as the ruler.
fn ruled(n: usize, lw: usize, mark: bool, ruler: bool) -> (row: Vec<Cell>)
    requires
        1 <= n,
        5 <= lw,
        sheet_fits(n as nat, lw as nat),
    ensures
        row@ == ruled_row(
            n as nat,
            lw as nat,
            if ruler {
                ruler_ruling(lw as nat)
            } else {
                row_ruling(mark, lw as nat)
            },
        ),
{
    let ghost glyph = if ruler {
        ruler_ruling(lw as nat)
    } else {
        row_ruling(mark, lw as nat)
    };
    let g = grid_cols(lw);
    assert(lw + 1 <= n * (lw + 1)) by (nonlinear_arith)
        requires
            n >= 1,
    ;
    assert(n * (lw + 1) >= 1) by (nonlinear_arith)
        requires
            n >= 1,
    ;
    let width = GUTTER + n * (lw + 1) - 1;
    let mut row: Vec<Cell> = Vec::new();
    let mut k: usize = 0;
    while k < width
        invariant
            k <= width == row_width(n as nat, lw as nat),
            1 <= n,
            5 <= lw,
            sheet_fits(n as nat, lw as nat),
            lw < usize::MAX,
            forall|j: int| 0 <= j < 5 ==> g@[j] == grid_col(j as nat, lw as nat),
            glyph == (if ruler {
                ruler_ruling(lw as nat)
            } else {
                row_ruling(mark, lw as nat)
            }),
            row@.len() == k,
            forall|j: int| 0 <= j < k ==> #[trigger] row@[j] == ruled_cell(j, lw as nat, glyph),
        decreases width - k,
    {
        if k >= GUTTER && (k - GUTTER) % (lw + 1) < lw {
            let c = (k - GUTTER) % (lw + 1);
            let on = is_grid_col(&g, c);
            proof {
                lemma_grid_on(g, lw as nat, c as nat);
            }
            let ch = if ruler {
                if c == 0 {
                    '┌'
                } else if c == lw - 1 {
                    '┐'
                } else if on {
                    '┬'
                } else {
                    '─'
                }
            } else {
                let edge = c == 0 || c == lw - 1;
                if !mark {
                    if edge {
                        '│'
                    } else if on {
                        '┊'
                    } else {
                        ' '
                    }
                } else if edge {
                    if c == 0 {
                        '├'
                    } else {
                        '┤'
                    }
                } else if on {
                    '┼'
                } else {
                    '┈'
                }
            };
            row.push((ch, GRID));
        } else {
            row.push((' ', Tint::Reset));
        }
        k = k + 1;
    }
    assert(row@ =~= ruled_row(n as nat, lw as nat, glyph));
    row
}

/// `row` with `s` written in `color` from column `x`, clipped at its end.
pub open spec fn put_spec(row: Seq<Cell>, x: int, s: Seq<char>, color: Tint) -> Seq<Cell> {
    Seq::new(
        row.len(),
        |k: int|
            if x <= k < x + s.len() {
                (s[k - x], color)
            } else {
                row[k]
            },
    )
}

/// The column after text `n` characters long written at `x` in a row `len` wide.
pub open spec fn put_end(x: int, n: int, len: int) -> int {
    if x >= len {
        x
    } else if x + n < len {
        x + n
    } else {
        len
    }
}

/// Write `s` into `row` at `x`, clipped; returns the column after it.
pub fn put_str(row: &mut Vec<Cell>, x: usize, s: &str, color: Tint) -> (end: usize)
    ensures
        final(row)@ == put_spec(old(row)@, x as int, s@, color),
        end == put_end(x as int, s@.len() as int, old(row)@.len() as int),
{
    let v = chars_of(s);
    let mut x = x;
    let ghost x0 = x;
    let mut i: usize = 0;
    while i < v.len() && x < row.len()
        invariant
            i <= v.len(),
            v@ == s@,
            x == x0 + i,
            row@.len() == old(row)@.len(),
            x0 + i <= row@.len() || i == 0,
            forall|k: int|
                0 <= k < row@.len() ==> #[trigger] row@[k] == if x0 <= k < x0 + i {
                    (v@[k - x0], color)
                } else {
                    old(row)@[k]
                },
        decreases v.len() - i,
    {
        row.set(x, (v[i], color));
        x = x + 1;
        i = i + 1;
    }
    assert(row@ =~= put_spec(old(row)@, x0 as int, s@, color));
    x
}

/// Where a pen was on the previous row (if it was down) and where it is now,
/// as columns of the row.
pub struct Trace {
    pub from: Option<usize>,
    pub cur: usize,
    pub color: Tint,
}

pub open spec fn trace_ok(t: Trace, width: nat) -> bool {
    &&& t.cur < width
    &&& t.from matches Some(f) ==> f < width
}

/// The pen's travel: it touches down (`╷`), or comes down from the previous row at
/// `from` and slides to `cur` with a horizontal stroke and two corners.
pub open spec fn trace_spec(row: Seq<Cell>, t: Trace) -> Seq<Cell> {
    match t.from {
        None => row.update(t.cur as int, ('╷', t.color)),
        Some(f) => {
            let (l, r) = if f < t.cur {
                (f, t.cur)
            } else {
                (t.cur, f)
            };
            let stroke = Seq::new(
                row.len(),
                |k: int|
                    if l < k < r {
                        ('─', t.color)
                    } else {
                        row[k]
                    },
            );
            if f < t.cur {
                stroke.update(f as int, ('╰', t.color)).update(t.cur as int, ('╮', t.color))
            } else if f > t.cur {
                stroke.update(f as int, ('╯', t.color)).update(t.cur as int, ('╭', t.color))
            } else {
                stroke.update(t.cur as int, ('│', t.color))
            }
        },
    }
}

pub open spec fn traces_spec(row: Seq<Cell>, ts: Seq<Trace>) -> Seq<Cell>
    decreases ts.len(),
{
    if ts.len() == 0 {
        row
    } else {
        trace_spec(traces_spec(row, ts.drop_last()), ts.last())
    }
}

fn draw_trace(row: &mut Vec<Cell>, t: &Trace)
    requires
        trace_ok(*t, old(row)@.len()),
    ensures
        final(row)@ == trace_spec(old(row)@, *t),
{
    match t.from {
        None => {
            row.set(t.cur, ('╷', t.color));
        },
        Some(f) => {
            let (l, r) = if f < t.cur {
                (f, t.cur)
            } else {
                (t.cur, f)
            };
            let len = row.len();
            let mut k = l + 1;
            while k < r
                invariant
                    l < k,
                    k <= r || k == l + 1,
                    l <= r < row@.len(),
                    row@.len() == old(row)@.len(),
                    forall|j: int|
                        0 <= j < row@.len() ==> #[trigger] row@[j] == if l < j < k {
                            ('─', t.color)
                        } else {
                            old(row)@[j]
                        },
                decreases r - k,
            {
                row.set(k, ('─', t.color));
                k = k + 1;
            }
            let ghost stroke = row@;
            if f < t.cur {
                row.set(f, ('╰', t.color));
                row.set(t.cur, ('╮', t.color));
            } else if f > t.cur {
                row.set(f, ('╯', t.color));
                row.set(t.cur, ('╭', t.color));
            } else {
                row.set(t.cur, ('│', t.color));
            }
            proof {
                let s = Seq::new(
                    old(row)@.len(),
                    |j: int|
                        if l < j < r {
                            ('─', t.color)
                        } else {
                            old(row)@[j]
                        },
                );
                assert(stroke =~= s);
            }
        },
    }
}

/// One row of paper: the ruled lanes, the elapsed time in the gutter on marked
/// rows, and the pens' traces on top, drawn in order.
pub open spec fn row_spec(n: nat, lw: nat, mark: bool, label: Seq<char>, traces: Seq<Trace>) -> Seq<
    Cell,
> {
    let blank = blank_row(row_width(n, lw));
    let stamped = if mark {
        let x = if label.len() < GUTTER - 1 {
            GUTTER - 1 - label.len()
        } else {
            0
        };
        put_spec(blank, x, label, DIM)
    } else {
        blank
    };
    let ruled = ruled_row(n, lw, row_ruling(mark, lw));
    let both = Seq::new(
        stamped.len(),
        |k: int|
            if in_lane(k, lw) {
                ruled[k]
            } else {
                stamped[k]
            },
    );
    traces_spec(both, traces)
}

/// Whether column `k` of a row lies in a lane `lw` wide (not in the gutter,
/// nor between lanes).
pub open spec fn in_lane(k: int, lw: nat) -> bool {
    k >= GUTTER && (k - GUTTER) % ((lw + 1) as int) < lw
}

pub fn row(n: usize, lw: usize, mark: bool, label: &str, traces: &Vec<Trace>) -> (r: Vec<Cell>)
    requires
        1 <= n,
        5 <= lw,
        sheet_fits(n as nat, lw as nat),
        forall|i: int| 0 <= i < traces.len() ==> trace_ok(#[trigger] traces@[i], row_width(n as nat, lw as nat)),
    ensures
        r@ == row_spec(n as nat, lw as nat, mark, label@, traces@),
{
    let lines = ruled(n, lw, mark, false);
    let width = lines.len();
    let mut row = blank_cells(width);
    if mark {
        let len = chars_of(label).len();
        let x = if len < GUTTER - 1 {
            GUTTER - 1 - len
        } else {
            0
        };
        put_str(&mut row, x, label, DIM);
    }
    let ghost base = row@;
    assert(lw + 1 <= n * (lw + 1)) by (nonlinear_arith)
        requires
            n >= 1,
    ;
    let mut k: usize = 0;
    while k < width
        invariant
            k <= width == lines@.len() == base.len(),
            row@.len() == width,
            lw < usize::MAX,
            forall|j: int|
                0 <= j < width ==> #[trigger] row@[j] == if j < k && in_lane(j, lw as nat) {
                    lines@[j]
                } else {
                    base[j]
                },
        decreases width - k,
    {
        if k >= GUTTER && (k - GUTTER) % (lw + 1) < lw {
            row.set(k, lines[k]);
        }
        k = k + 1;
    }
    assert(row@ =~= Seq::new(
        base.len(),
        |j: int|
            if in_lane(j, lw as nat) {
                lines@[j]
            } else {
                base[j]
            },
    ));
    let ghost stamped = row@;
    let mut i: usize = 0;
    while i < traces.len()
        invariant
            i <= traces.len(),
            row@.len() == row_width(n as nat, lw as nat),
            forall|i: int| 0 <= i < traces.len() ==> trace_ok(#[trigger] traces@[i], row_width(n as nat, lw as nat)),
            row@ == traces_spec(stamped, traces@.take(i as int)),
        decreases traces.len() - i,
    {
        draw_trace(&mut row, &traces[i]);
        assert(traces@.take(i + 1).drop_last() =~= traces@.take(i as int));
        i = i + 1;
    }
    assert(traces@.take(traces.len() as int) =~= traces@);
    row
}

/// The ruler printed under the scale labels.
pub fn ruler(n: usize, lw: usize) -> (r: Vec<Cell>)
    requires
        1 <= n,
        5 <= lw,
        sheet_fits(n as nat, lw as nat),
    ensures
        r@ == ruled_row(n as nat, lw as nat, ruler_ruling(lw as nat)),
{
    ruled(n, lw, false, true)
}


pub open spec fn blank_row(width: nat) -> Seq<Cell> {
    Seq::new(width, |k: int| blank())
}

fn blank_cells(width: usize) -> (row: Vec<Cell>)
    ensures
        row@ == blank_row(width as nat),
{
    let mut row: Vec<Cell> = Vec::new();
    while row.len() < width
        invariant
            row@.len() <= width,
            forall|k: int| 0 <= k < row@.len() ==> #[trigger] row@[k] == blank(),
        decreases width - row.len(),
    {
        row.push((' ', Tint::Reset));
    }
    assert(row@ =~= blank_row(width as nat));
    row
}

/// The first column of lane `li`.
pub open spec fn lane_x0(li: nat, lw: nat) -> int {
    GUTTER + li * (lw + 1)
}

/// A channel's entry in the legend: a swatch and its name.
pub open spec fn legend_entry(name: Seq<char>) -> Seq<char> {
    seq!['■', ' '] + name + seq![' ', ' ']
}

/// The legend after the first `m` channels of a lane, written from `x`.
pub open spec fn legend_chans(row: Seq<Cell>, x: int, chans: Seq<usize>, names: Seq<Seq<char>>, m: nat) -> (
    Seq<Cell>,
    int,
)
    decreases m,
{
    if m == 0 {
        (row, x)
    } else {
        let (r, x1) = legend_chans(row, x, chans, names, (m - 1) as nat);
        let c = chans[m - 1];
        let e = legend_entry(names[c as int]);
        (put_spec(r, x1, e, pen((c % PENS) as nat)), put_end(x1, e.len() as int, r.len() as int))
    }
}

/// The legend after the first `n` lanes: each lane's entries start at the lane,
/// or after the previous lane's entries if those ran over.
pub open spec fn legend_lanes(width: nat, lanes: Seq<Seq<usize>>, names: Seq<Seq<char>>, lw: nat, n: nat) -> (
    Seq<Cell>,
    int,
)
    decreases n,
{
    if n == 0 {
        (blank_row(width), GUTTER as int)
    } else {
        let (r, x) = legend_lanes(width, lanes, names, lw, (n - 1) as nat);
        let x0 = lane_x0((n - 1) as nat, lw);
        let start = if x > x0 {
            x
        } else {
            x0
        };
        legend_chans(r, start, lanes[n - 1], names, lanes[n - 1].len())
    }
}

pub open spec fn lanes_ok(lanes: Seq<Vec<usize>>, names: nat) -> bool {
    forall|i: int, j: int|
        0 <= i < lanes.len() && 0 <= j < lanes[i]@.len() ==> (#[trigger] lanes[i]@[j]) < names
}

pub open spec fn lane_views(lanes: Seq<Vec<usize>>) -> Seq<Seq<usize>> {
    lanes.map_values(|l: Vec<usize>| l@)
}

pub open spec fn name_views(names: Seq<String>) -> Seq<Seq<char>> {
    names.map_values(|n: String| n@)
}

/// `s`, then `t`, then `u`, as one `String`.
fn concat3(s: &str, t: &str, u: &str) -> (r: String)
    ensures
        r@ == s@ + t@ + u@,
{
    let mut r = String::new();
    crate::text::append_str(&mut r, s);
    crate::text::append_str(&mut r, t);
    crate::text::append_str(&mut r, u);
    assert(r@ =~= s@ + t@ + u@);
    r
}

/// The legend row: each channel's swatch and name in its pen's color.
pub fn legend(lanes: &Vec<Vec<usize>>, names: &Vec<String>, lw: usize) -> (r: Vec<Cell>)
    requires
        1 <= lanes.len(),
        5 <= lw,
        sheet_fits(lanes.len() as nat, lw as nat),
        lanes_ok(lanes@, names.len() as nat),
    ensures
        r@ == legend_lanes(
            row_width(lanes.len() as nat, lw as nat),
            lane_views(lanes@),
            name_views(names@),
            lw as nat,
            lanes.len() as nat,
        ).0,
{
    let ghost ls = lane_views(lanes@);
    let ghost ns = name_views(names@);
    let n = lanes.len();
    assert(lw + 1 <= n * (lw + 1)) by (nonlinear_arith)
        requires
            n >= 1,
    ;
    assert(n * (lw + 1) >= 1) by (nonlinear_arith)
        requires
            n >= 1,
    ;
    let width = GUTTER + n * (lw + 1) - 1;
    let mut row = blank_cells(width);
    let mut x: usize = GUTTER;
    let mut li: usize = 0;
    while li < n
        invariant
            li <= n == lanes.len(),
            5 <= lw,
            sheet_fits(n as nat, lw as nat),
            width == row_width(n as nat, lw as nat),
            ls == lane_views(lanes@),
            ns == name_views(names@),
            lanes_ok(lanes@, names.len() as nat),
            (row@, x as int) == legend_lanes(width as nat, ls, ns, lw as nat, li as nat),
            row@.len() == width,
        decreases n - li,
    {
        assert(li * (lw + 1) + lw + 1 <= n * (lw + 1)) by (nonlinear_arith)
            requires
                li < n,
        ;
        let x0 = GUTTER + li * (lw + 1);
        if x < x0 {
            x = x0;
        }
        let chans = &lanes[li];
        let ghost lane = ls[li as int];
        assert(lane == chans@);
        let ghost start_row = row@;
        let ghost start_x = x as int;
        let mut j: usize = 0;
        while j < chans.len()
            invariant
                j <= chans.len(),
                lane == chans@,
                li < lanes.len(),
                chans@ == lanes@[li as int]@,
                lanes_ok(lanes@, names.len() as nat),
                ns == name_views(names@),
                row@.len() == width,
                (row@, x as int) == legend_chans(start_row, start_x, lane, ns, j as nat),
            decreases chans.len() - j,
        {
            let c = chans[j];
            assert(c < names.len());
            let entry = concat3("■ ", names[c].as_str(), "  ");
            proof {
                reveal_strlit("■ ");
                reveal_strlit("  ");
                assert(entry@ =~= legend_entry(ns[c as int]));
            }
            x = put_str(&mut row, x, entry.as_str(), palette(c));
            j = j + 1;
        }
        li = li + 1;
    }
    row
}

/// Scale labels for a lane: its bottom, middle and top values.
pub struct LaneLabels {
    pub lo: String,
    pub mid: String,
    pub hi: String,
}

pub open spec fn sat_sub(a: int, b: int) -> int {
    if a >= b {
        a - b
    } else {
        0
    }
}

/// A lane's labels: the bottom at the lane's left edge, the top flush with its
/// right edge and the middle centred on the middle division, each only where it
/// does not run into the one before.
pub open spec fn lane_labels(row: Seq<Cell>, li: nat, lw: nat, lo: Seq<char>, mid: Seq<char>, hi: Seq<char>) -> Seq<Cell> {
    let x0 = lane_x0(li, lw);
    let r1 = put_spec(row, x0, lo, DIM);
    let lo_end = put_end(x0, lo.len() as int, row.len() as int);
    let hi_x = sat_sub(x0 + lw, hi.len() as int);
    let mid_x = sat_sub(x0 + grid_col(2, lw), (mid.len() / 2) as int);
    let r2 = if mid_x > lo_end && mid_x + mid.len() < hi_x {
        put_spec(r1, mid_x, mid, DIM)
    } else {
        r1
    };
    if hi_x > lo_end {
        put_spec(r2, hi_x, hi, DIM)
    } else {
        r2
    }
}

pub open spec fn label_views(labels: Seq<Option<LaneLabels>>) -> Seq<Option<(Seq<char>, Seq<char>, Seq<char>)>> {
    labels.map_values(|l: Option<LaneLabels>| match l {
        Some(x) => Some((x.lo@, x.mid@, x.hi@)),
        None => None,
    })
}

pub open spec fn labels_lanes(width: nat, labels: Seq<Option<(Seq<char>, Seq<char>, Seq<char>)>>, lw: nat, n: nat) -> Seq<Cell>
    decreases n,
{
    if n == 0 {
        blank_row(width)
    } else {
        let r = labels_lanes(width, labels, lw, (n - 1) as nat);
        match labels[n - 1] {
            Some((lo, mid, hi)) => lane_labels(r, (n - 1) as nat, lw, lo, mid, hi),
            None => r,
        }
    }
}

/// The row of scale labels: each lane's (where it has a scale), and `elapsed`
/// over the gutter.
pub fn scale_labels(labels: &Vec<Option<LaneLabels>>, lw: usize) -> (r: Vec<Cell>)
    requires
        1 <= labels.len(),
        5 <= lw,
        sheet_fits(labels.len() as nat, lw as nat),
    ensures
        r@ == put_spec(
            labels_lanes(row_width(labels.len() as nat, lw as nat), label_views(labels@), lw as nat, labels.len() as nat),
            0,
            "   elapsed"@,
            DIM,
        ),
{
    let ghost ls = label_views(labels@);
    let n = labels.len();
    assert(lw + 1 <= n * (lw + 1)) by (nonlinear_arith)
        requires
            n >= 1,
    ;
    assert(n * (lw + 1) >= 1) by (nonlinear_arith)
        requires
            n >= 1,
    ;
    let width = GUTTER + n * (lw + 1) - 1;
    let g = grid_cols(lw);
    let mut row = blank_cells(width);
    let mut li: usize = 0;
    while li < n
        invariant
            li <= n == labels.len(),
            5 <= lw,
            sheet_fits(n as nat, lw as nat),
            width == row_width(n as nat, lw as nat),
            ls == label_views(labels@),
            forall|k: int| 0 <= k < 5 ==> g@[k] == grid_col(k as nat, lw as nat),
            row@ == labels_lanes(width as nat, ls, lw as nat, li as nat),
            row@.len() == width,
        decreases n - li,
    {
        assert(li * (lw + 1) + lw + 1 <= n * (lw + 1)) by (nonlinear_arith)
            requires
                li < n,
        ;
        let x0 = GUTTER + li * (lw + 1);
        match &labels[li] {
            Some(l) => {
                let lo_len = chars_of(l.lo.as_str()).len();
                let mid_len = chars_of(l.mid.as_str()).len();
                let hi_len = chars_of(l.hi.as_str()).len();
                let lo_end = put_str(&mut row, x0, l.lo.as_str(), DIM);
                let hi_x = (x0 + lw).saturating_sub(hi_len);
                let mid_x = (x0 + g[2]).saturating_sub(mid_len / 2);
                if mid_x > lo_end && mid_len < hi_x && mid_x < hi_x - mid_len {
                    put_str(&mut row, mid_x, l.mid.as_str(), DIM);
                }
                if hi_x > lo_end {
                    put_str(&mut row, hi_x, l.hi.as_str(), DIM);
                }
            },
            None => {},
        }
        li = li + 1;
    }
    put_str(&mut row, 0, "   elapsed", DIM);
    row
}

/// A run of text in one color: `color` is `None` when colors are off.
pub struct Segment {
    pub color: Option<Tint>,
    pub text: String,
}

/// The end of a row's text: after its last non-space character.
pub open spec fn text_end(row: Seq<Cell>) -> nat
    decreases row.len(),
{
    if row.len() == 0 {
        0
    } else if row.last().0 != ' ' {
        row.len()
    } else {
        text_end(row.drop_last())
    }
}

/// The runs a row is printed in: with colors, a new run wherever the color
/// changes; without, a single run.
pub open spec fn segments(cells: Seq<Cell>, color: bool) -> Seq<(Option<Tint>, Seq<char>)>
    decreases cells.len(),
{
    if cells.len() == 0 {
        Seq::empty()
    } else {
        let prev = segments(cells.drop_last(), color);
        let (ch, t) = cells.last();
        let tag = if color {
            Some(t)
        } else {
            None
        };
        if prev.len() > 0 && prev.last().0 == tag {
            prev.update(prev.len() - 1, (tag, prev.last().1.push(ch)))
        } else {
            prev.push((tag, seq![ch]))
        }
    }
}

pub open spec fn segment_views(s: Seq<Segment>) -> Seq<(Option<Tint>, Seq<char>)> {
    s.map_values(|x: Segment| (x.color, x.text@))
}

/// How a row is printed: its text up to the last non-space character, in runs
/// of one color.
pub fn runs(row: &Vec<Cell>, color: bool) -> (r: Vec<Segment>)
    ensures
        segment_views(r@) == segments(row@.take(text_end(row@) as int), color),
{
    let mut end = row.len();
    assert(row@.take(end as int) =~= row@);
    while end > 0 && row[end - 1].0 == ' '
        invariant
            end <= row@.len(),
            text_end(row@.take(end as int)) == text_end(row@),
        decreases end,
    {
        assert(row@.take(end as int).drop_last() =~= row@.take(end - 1));
        end = end - 1;
    }
    proof {
        if end > 0 {
            assert(row@.take(end as int).last() == row@[end - 1]);
        } else {
            assert(row@.take(0) =~= Seq::<Cell>::empty());
        }
        assert(row@.take(end as int) =~= row@.take(text_end(row@) as int));
    }
    let ghost cells = row@.take(end as int);
    let mut out: Vec<Segment> = Vec::new();
    let mut i: usize = 0;
    assert(cells.take(0) =~= Seq::<Cell>::empty());
    while i < end
        invariant
            i <= end <= row@.len(),
            cells == row@.take(end as int),
            segment_views(out@) == segments(cells.take(i as int), color),
        decreases end - i,
    {
        let (ch, t) = row[i];
        let tag = if color {
            Some(t)
        } else {
            None
        };
        assert(cells.take(i + 1).drop_last() =~= cells.take(i as int));
        assert(cells.take(i + 1).last() == row@[i as int]);
        let ghost before = segment_views(out@);
        let n = out.len();
        if n > 0 && out[n - 1].color == tag {
            let mut last = out.pop().unwrap();
            crate::text::push_char(&mut last.text, ch);
            out.push(last);
            assert(segment_views(out@) =~= before.update(before.len() - 1, (tag, before.last().1.push(ch))));
        } else {
            let mut text = String::new();
            crate::text::push_char(&mut text, ch);
            out.push(Segment { color: tag, text });
            assert(segment_views(out@) =~= before.push((tag, seq![ch])));
        }
        i = i + 1;
    }
    assert(cells.take(end as int) =~= cells);
    out
}


/// The text of runs, one after another.
pub open spec fn joined(segs: Seq<(Option<Tint>, Seq<char>)>) -> Seq<char>
    decreases segs.len(),
{
    if segs.len() == 0 {
        Seq::empty()
    } else {
        joined(segs.drop_last()) + segs.last().1
    }
}

/// The runs of a row hold its characters in order; each run is non-empty, and
/// with colors on, neighbouring runs differ in color (without, there is one run).
pub proof fn lemma_runs(cells: Seq<Cell>, color: bool)
    ensures
        joined(segments(cells, color)) == cells.map_values(|c: Cell| c.0),
        forall|i: int| 0 <= i < segments(cells, color).len() ==> (#[trigger] segments(cells, color)[i]).1.len() > 0,
        forall|i: int|
            0 <= i < segments(cells, color).len() - 1 ==> (#[trigger] segments(cells, color)[i]).0 != segments(
                cells,
                color,
            )[i + 1].0,
        !color ==> segments(cells, color).len() <= 1,
    decreases cells.len(),
{
    if cells.len() > 0 {
        let init = cells.drop_last();
        lemma_runs(init, color);
        let prev = segments(init, color);
        let (ch, t) = cells.last();
        let tag = if color {
            Some(t)
        } else {
            None
        };
        let segs = segments(cells, color);
        assert(init.map_values(|c: Cell| c.0).push(ch) =~= cells.map_values(|c: Cell| c.0));
        if prev.len() > 0 && prev.last().0 == tag {
            let grown = (tag, prev.last().1.push(ch));
            assert(segs == prev.update(prev.len() - 1, grown));
            assert(segs.drop_last() =~= prev.drop_last());
            assert(joined(prev) == joined(prev.drop_last()) + prev.last().1);
            assert(joined(segs) =~= joined(prev).push(ch));
            assert forall|i: int| 0 <= i < segs.len() - 1 implies (#[trigger] segs[i]).0 != segs[i + 1].0 by {
                assert(segs[i] == prev[i]);
                if i + 1 < prev.len() - 1 {
                    assert(segs[i + 1] == prev[i + 1]);
                }
            }
        } else {
            assert(segs == prev.push((tag, seq![ch])));
            assert(segs.drop_last() =~= prev);
            assert(joined(segs) =~= joined(prev).push(ch));
            assert forall|i: int| 0 <= i < segs.len() - 1 implies (#[trigger] segs[i]).0 != segs[i + 1].0 by {
                assert(segs[i] == prev[i]);
                if i + 1 < prev.len() {
                    assert(segs[i + 1] == prev[i + 1]);
                }
            }
            if !color {
                assert(prev.len() == 0);
            }
        }
    } else {
        assert(cells.map_values(|c: Cell| c.0) =~= Seq::<char>::empty());
    }
}


/// The quarter divisions of a lane run from its first column to its last, in order.
pub proof fn lemma_grid_cols(lw: nat)
    requires
        lw >= 1,
    ensures
        grid_col(0, lw) == 0,
        grid_col(4, lw) == lw - 1,
        forall|k: nat| k < 4 ==> #[trigger] grid_col(k, lw) <= grid_col(k + 1, lw),
        forall|k: nat| k < 5 ==> #[trigger] grid_col(k, lw) < lw,
{
    let m = (lw - 1) as nat;
    assert forall|k: nat| k < 4 implies #[trigger] grid_col(k, lw) <= grid_col(k + 1, lw) by {
        assert(k * m + 2 <= (k + 1) * m + 2) by (nonlinear_arith);
        vstd::arithmetic::div_mod::lemma_div_is_ordered((k * m + 2) as int, ((k + 1) * m + 2) as int, 4);
    }
    assert forall|k: nat| k < 5 implies #[trigger] grid_col(k, lw) < lw by {
        assert(k * m + 2 <= 4 * m + 2) by (nonlinear_arith)
            requires
                k < 5,
        ;
        vstd::arithmetic::div_mod::lemma_div_is_ordered((k * m + 2) as int, (4 * m + 2) as int, 4);
    }
}


/// A lane's legend entries change nothing left of where they start, and end
/// after it; the first entry's swatch stands at the start.
proof fn lemma_legend_chans(row: Seq<Cell>, x: int, chans: Seq<usize>, names: Seq<Seq<char>>, m: nat)
    requires
        0 <= x,
        m <= chans.len(),
    ensures
        legend_chans(row, x, chans, names, m).0.len() == row.len(),
        legend_chans(row, x, chans, names, m).1 >= x,
        m >= 1 && x < row.len() ==> legend_chans(row, x, chans, names, m).1 > x,
        forall|p: int| 0 <= p < x && p < row.len() ==> #[trigger] legend_chans(row, x, chans, names, m).0[p] == row[p],
        m >= 1 && x < row.len() ==> legend_chans(row, x, chans, names, m).0[x] == ('■', pen((chans[0] % PENS) as nat)),
    decreases m,
{
    if m > 0 {
        lemma_legend_chans(row, x, chans, names, (m - 1) as nat);
        let (r, x1) = legend_chans(row, x, chans, names, (m - 1) as nat);
        let c = chans[m - 1];
        let e = legend_entry(names[c as int]);
        assert(e.len() >= 4);
        if m == 1 {
            assert(r == row);
            assert(x1 == x);
            assert(e[0] == '■');
        }
    }
}

/// Laying out more lanes' entries leaves the cells of the lanes before alone, up
/// to where their entries ended, and ends no earlier.
proof fn lemma_legend_lanes_keep(width: nat, lanes: Seq<Seq<usize>>, names: Seq<Seq<char>>, lw: nat, k: nat, m: nat)
    requires
        k <= m <= lanes.len(),
    ensures
        legend_lanes(width, lanes, names, lw, m).0.len() == width,
        legend_lanes(width, lanes, names, lw, m).1 >= legend_lanes(width, lanes, names, lw, k).1,
        legend_lanes(width, lanes, names, lw, k).1 >= GUTTER,
        forall|p: int|
            0 <= p < legend_lanes(width, lanes, names, lw, k).1 && p < width ==> #[trigger] legend_lanes(
                width,
                lanes,
                names,
                lw,
                m,
            ).0[p] == legend_lanes(width, lanes, names, lw, k).0[p],
    decreases m,
{
    if m == 0 {
    } else {
        let j = (m - 1) as nat;
        if k == m {
            lemma_legend_lanes_keep(width, lanes, names, lw, j, j);
        } else {
            lemma_legend_lanes_keep(width, lanes, names, lw, k, j);
        }
        lemma_legend_lanes_keep(width, lanes, names, lw, j, j);
        let (r, x) = legend_lanes(width, lanes, names, lw, j);
        let x0 = lane_x0(j, lw);
        let start = if x > x0 {
            x
        } else {
            x0
        };
        lemma_legend_chans(r, start, lanes[j as int], names, lanes[j as int].len());
    }
}

/// In the legend row, each lane's entries begin at the lane's own first column,
/// `GUTTER + li * (lw + 1)`, or right after the lanes before if their entries
/// run past it: the lane's first channel's swatch stands there, in its pen.
pub proof fn lemma_legend_lane_start(width: nat, lanes: Seq<Seq<usize>>, names: Seq<Seq<char>>, lw: nat, n: nat, li: nat)
    requires
        n <= lanes.len(),
        li < n,
        lanes[li as int].len() >= 1,
    ensures
        ({
            let x0 = GUTTER + li * (lw + 1);
            let before = legend_lanes(width, lanes, names, lw, li).1;
            let start = if before > x0 {
                before
            } else {
                x0
            };
            start < width ==> legend_lanes(width, lanes, names, lw, n).0[start] == (
                '■',
                pen((lanes[li as int][0] % PENS) as nat),
            )
        }),
{
    lemma_legend_lanes_keep(width, lanes, names, lw, li, li);
    lemma_legend_lanes_keep(width, lanes, names, lw, li + 1, n);
    let (r, x) = legend_lanes(width, lanes, names, lw, li);
    let x0 = lane_x0(li, lw);
    let start = if x > x0 {
        x
    } else {
        x0
    };
    lemma_legend_chans(r, start, lanes[li as int], names, lanes[li as int].len());
    assert(legend_lanes(width, lanes, names, lw, li + 1) == legend_chans(r, start, lanes[li as int], names, lanes[li as int].len()));
}

} // verus!
