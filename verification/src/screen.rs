//! An off-screen frame of the full-screen chart: a grid of styled characters,
//! written to the terminal in one go.

use vstd::prelude::*;

use crate::text::chars_of;
use crate::tint::Tint;

verus! {

#[derive(Clone, Copy, PartialEq, Eq, Structural, Debug)]
pub struct ScreenCell {
    pub ch: char,
    pub fg: Tint,
    pub bold: bool,
}

pub open spec fn empty_cell() -> ScreenCell {
    ScreenCell { ch: ' ', fg: Tint::Reset, bold: false }
}

pub struct Screen {
    pub w: usize,
    pub h: usize,
    pub cells: Vec<ScreenCell>,
}

impl Screen {
    /// Cells are stored row by row.
    pub open spec fn wf(&self) -> bool {
        &&& self.w * self.h <= usize::MAX
        &&& self.cells@.len() == self.w * self.h
    }

    pub open spec fn at(&self, x: int, y: int) -> ScreenCell {
        self.cells@[y * self.w + x]
    }

    pub fn new(w: usize, h: usize) -> (s: Screen)
        requires
            w * h <= usize::MAX,
        ensures
            s.wf(),
            s.w == w,
            s.h == h,
            forall|i: int| 0 <= i < w * h ==> #[trigger] s.cells@[i] == empty_cell(),
    {
        let n = w * h;
        let mut cells: Vec<ScreenCell> = Vec::new();
        while cells.len() < n
            invariant
                cells@.len() <= n,
                forall|i: int| 0 <= i < cells@.len() ==> #[trigger] cells@[i] == empty_cell(),
            decreases n - cells.len(),
        {
            cells.push(ScreenCell { ch: ' ', fg: Tint::Reset, bold: false });
        }
        Screen { w, h, cells }
    }

    proof fn lemma_index(&self, x: int, y: int)
        requires
            self.wf(),
            0 <= x < self.w,
            0 <= y < self.h,
        ensures
            0 <= y * self.w + x < self.cells@.len(),
    {
        assert(y * self.w + x < self.w * self.h) by (nonlinear_arith)
            requires
                0 <= x < self.w,
                0 <= y < self.h,
        ;
        assert(0 <= y * self.w) by (nonlinear_arith)
            requires
                0 <= y,
        ;
    }

    /// Two different positions are different cells.
    proof fn lemma_distinct(&self, x1: int, y1: int, x2: int, y2: int)
        requires
            0 <= x1 < self.w,
            0 <= x2 < self.w,
            (x1, y1) != (x2, y2),
        ensures
            y1 * self.w + x1 != y2 * self.w + x2,
    {
        if y1 == y2 {
        } else {
            assert(y1 * self.w + x1 != y2 * self.w + x2) by (nonlinear_arith)
                requires
                    0 <= x1 < self.w,
                    0 <= x2 < self.w,
                    y1 != y2,
            ;
        }
    }

    /// Set one cell, if it is on the screen.
    pub fn put(&mut self, x: usize, y: usize, ch: char, fg: Tint)
        requires
            old(self).wf(),
        ensures
            final(self).wf(),
            final(self).w == old(self).w,
            final(self).h == old(self).h,
            final(self).cells@ == if x < old(self).w && y < old(self).h {
                old(self).cells@.update(y * old(self).w + x, ScreenCell { ch, fg, bold: false })
            } else {
                old(self).cells@
            },
            forall|cx: int, cy: int|
                0 <= cx < old(self).w && 0 <= cy < old(self).h ==> #[trigger] final(self).at(cx, cy) == if cx == x && cy
                    == y {
                    ScreenCell { ch, fg, bold: false }
                } else {
                    old(self).at(cx, cy)
                },
    {
        let ghost before = *self;
        if x < self.w && y < self.h {
            proof {
                self.lemma_index(x as int, y as int);
            }
            let i = y * self.w + x;
            self.cells.set(i, ScreenCell { ch, fg, bold: false });
        }
        proof {
            assert forall|cx: int, cy: int| 0 <= cx < before.w && 0 <= cy < before.h implies #[trigger] self.at(cx, cy) == if cx
                == x && cy == y {
                ScreenCell { ch, fg, bold: false }
            } else {
                before.at(cx, cy)
            } by {
                before.lemma_index(cx, cy);
                if x < before.w && y < before.h && !(cx == x && cy == y) {
                    before.lemma_distinct(cx, cy, x as int, y as int);
                }
            }
        }
    }

    pub fn text(&mut self, x: usize, y: usize, s: &str, fg: Tint) -> (end: usize)
        requires
            old(self).wf(),
        ensures
            final(self).wf(),
            final(self).w == old(self).w,
            final(self).h == old(self).h,
            final(self).cells@ == styled_spec(old(self).cells@, old(self).w as nat, old(self).h as nat, x as int, y as int, s@, fg, false),
            end == styled_end(old(self).w as nat, old(self).h as nat, x as int, y as int, s@.len() as int),
    {
        self.styled(x, y, s, fg, false)
    }

    /// Write a string; returns the column after it.
    pub fn styled(&mut self, x: usize, y: usize, s: &str, fg: Tint, bold: bool) -> (end: usize)
        requires
            old(self).wf(),
        ensures
            final(self).wf(),
            final(self).w == old(self).w,
            final(self).h == old(self).h,
            final(self).cells@ == styled_spec(old(self).cells@, old(self).w as nat, old(self).h as nat, x as int, y as int, s@, fg, bold),
            end == styled_end(old(self).w as nat, old(self).h as nat, x as int, y as int, s@.len() as int),
    {
        let (w, h) = (self.w, self.h);
        write_cells(&mut self.cells, w, h, x, y, s, fg, bold)
    }
}

pub proof fn lemma_cell_index(w: int, h: int, x: int, y: int)
    requires
        0 <= x < w,
        0 <= y < h,
    ensures
        0 <= y * w,
        y * w + x < w * h,
{
    assert(0 <= y * w) by (nonlinear_arith)
        requires
            0 <= y,
            0 <= w,
    ;
    assert(y * w + x < w * h) by (nonlinear_arith)
        requires
            0 <= x < w,
            0 <= y < h,
    ;
}

fn write_cells(cells: &mut Vec<ScreenCell>, w: usize, h: usize, x: usize, y: usize, s: &str, fg: Tint, bold: bool) -> (end: usize)
    requires
        w * h <= usize::MAX,
        old(cells)@.len() == w * h,
    ensures
        final(cells)@ == styled_spec(old(cells)@, w as nat, h as nat, x as int, y as int, s@, fg, bold),
        end == styled_end(w as nat, h as nat, x as int, y as int, s@.len() as int),
{
    if y >= h {
        assert(cells@ =~= styled_spec(old(cells)@, w as nat, h as nat, x as int, y as int, s@, fg, bold));
        return x;
    }
    proof {
        lemma_row_start(w as int, h as int, y as int);
    }
    let row_start = y * w;
    let v = chars_of(s);
    let ghost x0 = x as int;
    let mut x = x;
    let mut i: usize = 0;
    while i < v.len() && x < w
        invariant
            row_start + w <= old(cells)@.len(),
            row_start + w <= usize::MAX,
            row_start == y * w,
            y < h,
            cells@.len() == old(cells)@.len(),
            v@ == s@,
            i <= v.len(),
            x == x0 + i,
            x0 + i <= w || i == 0,
            forall|k: int|
                0 <= k < cells@.len() ==> #[trigger] cells@[k] == if row_start + x0 <= k < row_start + x0 + i {
                    ScreenCell { ch: char_at(v@, k - row_start - x0), fg, bold }
                } else {
                    old(cells)@[k]
                },
        decreases v.len() - i,
    {
        let k = row_start + x;
        set_cell(cells, k, ScreenCell { ch: v[i], fg, bold });
        x = x + 1;
        i = i + 1;
    }
    proof {
        lemma_styled(old(cells)@, cells@, w as nat, h as nat, x0, y as int, s@, fg, bold, row_start as int, i as int);
    }
    x
}

proof fn lemma_styled(
    before: Seq<ScreenCell>,
    after: Seq<ScreenCell>,
    w: nat,
    h: nat,
    x0: int,
    y: int,
    s: Seq<char>,
    fg: Tint,
    bold: bool,
    row_start: int,
    i: int,
)
    requires
        0 <= y < h,
        0 <= x0,
        row_start == y * w,
        after.len() == before.len(),
        0 <= i <= s.len(),
        x0 + i <= w || i == 0,
        i == s.len() || x0 + i >= w,
        forall|k: int|
            0 <= k < after.len() ==> #[trigger] after[k] == if row_start + x0 <= k < row_start + x0 + i {
                ScreenCell { ch: char_at(s, k - row_start - x0), fg, bold }
            } else {
                before[k]
            },
    ensures
        after == styled_spec(before, w, h, x0, y, s, fg, bold),
{
    let end = styled_end(w, h, x0, y, s.len() as int);
    assert(end == x0 + i);
    let want = write_run(before, row_start + x0, row_start + end, s, fg, bold);
    assert(want.len() == after.len());
    assert(after =~= want);
}

fn set_cell(cells: &mut Vec<ScreenCell>, k: usize, c: ScreenCell)
    requires
        k < old(cells)@.len(),
    ensures
        final(cells)@.len() == old(cells)@.len(),
        final(cells)@ == old(cells)@.update(k as int, c),
        forall|j: int| 0 <= j < old(cells)@.len() ==> #[trigger] final(cells)@[j] == if j == k {
            c
        } else {
            old(cells)@[j]
        },
{
    cells.set(k, c);
}

proof fn lemma_row_start(w: int, h: int, y: int)
    requires
        0 <= w,
        0 <= y < h,
    ensures
        0 <= y * w,
        y * w + w <= w * h,
{
    assert(0 <= y * w) by (nonlinear_arith)
        requires
            0 <= y,
            0 <= w,
    ;
    assert(y * w + w <= w * h) by (nonlinear_arith)
        requires
            0 <= w,
            0 <= y < h,
    ;
}

/// The column after `n` characters written from `x` on row `y`, clipped at the
/// right edge; nothing is written below the screen.
pub open spec fn styled_end(w: nat, h: nat, x: int, y: int, n: int) -> int {
    if y >= h || x >= w {
        x
    } else if x + n < w {
        x + n
    } else {
        w as int
    }
}

/// The `i`-th character of `s` (a space past its end).
pub open spec fn char_at(s: Seq<char>, i: int) -> char {
    if 0 <= i < s.len() {
        s[i]
    } else {
        ' '
    }
}

/// The cells with `s` written over `[from, to)`.
pub open spec fn write_run(cells: Seq<ScreenCell>, from: int, to: int, s: Seq<char>, fg: Tint, bold: bool) -> Seq<ScreenCell> {
    Seq::new(
        cells.len(),
        |k: int|
            if from <= k < to {
                ScreenCell { ch: char_at(s, k - from), fg, bold }
            } else {
                cells[k]
            },
    )
}

/// The cells after writing `s` at `(x, y)`, clipped at the right edge.
pub open spec fn styled_spec(cells: Seq<ScreenCell>, w: nat, h: nat, x: int, y: int, s: Seq<char>, fg: Tint, bold: bool) -> Seq<ScreenCell> {
    if y < h {
        let base = y * w;
        write_run(cells, base + x, base + styled_end(w, h, x, y, s.len() as int), s, fg, bold)
    } else {
        cells
    }
}


/// A drawing command for the terminal.
#[derive(Debug, Clone, PartialEq)]
pub enum Op {
    /// Go to the start of a row.
    MoveTo(usize),
    /// Turn bold on or off.
    Bold(bool),
    Fg(Tint),
    Print(String),
}

pub ghost enum OpView {
    MoveTo(nat),
    Bold(bool),
    Fg(Tint),
    Print(Seq<char>),
}

pub open spec fn op_view(o: Op) -> OpView {
    match o {
        Op::MoveTo(y) => OpView::MoveTo(y as nat),
        Op::Bold(b) => OpView::Bold(b),
        Op::Fg(t) => OpView::Fg(t),
        Op::Print(s) => OpView::Print(s@),
    }
}

pub open spec fn op_views(ops: Seq<Op>) -> Seq<OpView> {
    ops.map_values(|o: Op| op_view(o))
}

/// What has been sent, the current color and weight, and the text not yet printed.
pub ghost struct Paint {
    pub ops: Seq<OpView>,
    pub fg: Option<Tint>,
    pub bold: bool,
    pub run: Seq<char>,
}

pub open spec fn flushed(ops: Seq<OpView>, run: Seq<char>) -> Seq<OpView> {
    if run.len() > 0 {
        ops.push(OpView::Print(run))
    } else {
        ops
    }
}

/// Painting cell `i`: each row starts with a move; a change of color or weight
/// prints the text so far and switches only what changed.
pub open spec fn paint_step(st: Paint, i: int, w: nat, c: ScreenCell) -> Paint {
    let (ops, run) = if i % (w as int) == 0 {
        (flushed(st.ops, st.run).push(OpView::MoveTo((i / (w as int)) as nat)), Seq::<char>::empty())
    } else {
        (st.ops, st.run)
    };
    if Some(c.fg) != st.fg || c.bold != st.bold {
        let o1 = flushed(ops, run);
        let o2 = if c.bold != st.bold {
            o1.push(OpView::Bold(c.bold))
        } else {
            o1
        };
        let o3 = if Some(c.fg) != st.fg {
            o2.push(OpView::Fg(c.fg))
        } else {
            o2
        };
        Paint { ops: o3, fg: Some(c.fg), bold: c.bold, run: seq![c.ch] }
    } else {
        Paint { ops, fg: st.fg, bold: st.bold, run: run.push(c.ch) }
    }
}

pub open spec fn paint_upto(cells: Seq<ScreenCell>, w: nat, n: nat) -> Paint
    decreases n,
{
    if n == 0 {
        Paint { ops: Seq::empty(), fg: None, bold: false, run: Seq::empty() }
    } else {
        paint_step(paint_upto(cells, w, (n - 1) as nat), n - 1, w, cells[n - 1])
    }
}

/// The commands that paint a frame, before the final reset.
pub open spec fn paint(cells: Seq<ScreenCell>, w: nat) -> Seq<OpView> {
    let st = paint_upto(cells, w, cells.len());
    flushed(st.ops, st.run)
}

fn print_op(out: &mut Vec<Op>, run: String)
    ensures
        op_views(final(out)@) == flushed(op_views(old(out)@), run@),
{
    let ghost before = op_views(out@);
    if !run.as_str().is_empty() {
        out.push(Op::Print(run));
        assert(op_views(out@) =~= before.push(OpView::Print(run@)));
    } else {
        assert(op_views(out@) =~= before);
    }
}

impl Screen {
    /// The commands that draw this frame.
    pub fn paint_ops(&self) -> (ops: Vec<Op>)
        requires
            self.wf(),
            self.w > 0,
        ensures
            op_views(ops@) == paint(self.cells@, self.w as nat),
    {
        let n = self.cells.len();
        let mut out: Vec<Op> = Vec::new();
        let mut fg: Option<Tint> = None;
        let mut bold = false;
        let mut run = String::new();
        let mut i: usize = 0;
        assert(op_views(out@) =~= Seq::<OpView>::empty());
        while i < n
            invariant
                n == self.cells@.len(),
                self.w > 0,
                i <= n,
                ({
                    let st = paint_upto(self.cells@, self.w as nat, i as nat);
                    &&& op_views(out@) == st.ops
                    &&& fg == st.fg
                    &&& bold == st.bold
                    &&& run@ == st.run
                }),
            decreases n - i,
        {
            let c = self.cells[i];
            if i % self.w == 0 {
                print_op(&mut out, run);
                let ghost before = op_views(out@);
                out.push(Op::MoveTo(i / self.w));
                assert(op_views(out@) =~= before.push(OpView::MoveTo((i / self.w) as nat)));
                run = String::new();
            }
            if fg != Some(c.fg) || c.bold != bold {
                print_op(&mut out, run);
                if c.bold != bold {
                    let ghost before = op_views(out@);
                    out.push(Op::Bold(c.bold));
                    assert(op_views(out@) =~= before.push(OpView::Bold(c.bold)));
                }
                if fg != Some(c.fg) {
                    let ghost before = op_views(out@);
                    out.push(Op::Fg(c.fg));
                    assert(op_views(out@) =~= before.push(OpView::Fg(c.fg)));
                }
                fg = Some(c.fg);
                bold = c.bold;
                run = String::new();
                crate::text::push_char(&mut run, c.ch);
                assert(run@ =~= seq![c.ch]);
            } else {
                crate::text::push_char(&mut run, c.ch);
            }
            i = i + 1;
        }
        print_op(&mut out, run);
        out
    }
}

/// Writing text on row `y` changes nothing outside that row.
pub proof fn lemma_styled_stays_on_row(
    cells: Seq<ScreenCell>,
    w: nat,
    h: nat,
    x: int,
    y: int,
    s: Seq<char>,
    fg: Tint,
    bold: bool,
)
    requires
        cells.len() == w * h,
        0 <= x,
    ensures
        styled_spec(cells, w, h, x, y, s, fg, bold).len() == cells.len(),
        forall|k: int|
            0 <= k < cells.len() && !(y * w <= k < y * w + w) ==> #[trigger] styled_spec(cells, w, h, x, y, s, fg, bold)[k]
                == cells[k],
{
}


/// The text an operation prints.
pub open spec fn op_text(o: OpView) -> Seq<char> {
    match o {
        OpView::Print(s) => s,
        _ => Seq::empty(),
    }
}

/// All the text a list of operations prints, in order.
pub open spec fn printed(ops: Seq<OpView>) -> Seq<char>
    decreases ops.len(),
{
    if ops.len() == 0 {
        Seq::empty()
    } else {
        printed(ops.drop_last()) + op_text(ops.last())
    }
}

proof fn lemma_printed_push(ops: Seq<OpView>, o: OpView)
    ensures
        printed(ops.push(o)) == printed(ops) + op_text(o),
{
    assert(ops.push(o).drop_last() =~= ops);
}

proof fn lemma_printed_flushed(ops: Seq<OpView>, run: Seq<char>)
    ensures
        printed(flushed(ops, run)) == printed(ops) + run,
{
    if run.len() > 0 {
        lemma_printed_push(ops, OpView::Print(run));
    } else {
        assert(printed(ops) + run =~= printed(ops));
    }
}

proof fn lemma_paint_upto_text(cells: Seq<ScreenCell>, w: nat, n: nat)
    requires
        w > 0,
        n <= cells.len(),
    ensures
        printed(paint_upto(cells, w, n).ops) + paint_upto(cells, w, n).run == cells.take(n as int).map_values(
            |c: ScreenCell| c.ch,
        ),
    decreases n,
{
    if n == 0 {
        assert(cells.take(0).map_values(|c: ScreenCell| c.ch) =~= Seq::<char>::empty());
        assert(printed(Seq::<OpView>::empty()) + Seq::<char>::empty() =~= Seq::<char>::empty());
    } else {
        let k = (n - 1) as nat;
        lemma_paint_upto_text(cells, w, k);
        let st = paint_upto(cells, w, k);
        let c = cells[k as int];
        let i = k as int;
        let (ops, run) = if i % (w as int) == 0 {
            (flushed(st.ops, st.run).push(OpView::MoveTo((i / (w as int)) as nat)), Seq::<char>::empty())
        } else {
            (st.ops, st.run)
        };
        if i % (w as int) == 0 {
            lemma_printed_flushed(st.ops, st.run);
            lemma_printed_push(flushed(st.ops, st.run), OpView::MoveTo((i / (w as int)) as nat));
            assert(printed(ops) + run =~= printed(st.ops) + st.run);
        }
        assert(printed(ops) + run == printed(st.ops) + st.run);
        assert(cells.take(n as int).map_values(|c: ScreenCell| c.ch) =~= cells.take(k as int).map_values(
            |c: ScreenCell| c.ch,
        ).push(c.ch));
        if Some(c.fg) != st.fg || c.bold != st.bold {
            let o1 = flushed(ops, run);
            lemma_printed_flushed(ops, run);
            let o2 = if c.bold != st.bold {
                o1.push(OpView::Bold(c.bold))
            } else {
                o1
            };
            if c.bold != st.bold {
                lemma_printed_push(o1, OpView::Bold(c.bold));
                assert(printed(o2) =~= printed(o1));
            }
            let o3 = if Some(c.fg) != st.fg {
                o2.push(OpView::Fg(c.fg))
            } else {
                o2
            };
            if Some(c.fg) != st.fg {
                lemma_printed_push(o2, OpView::Fg(c.fg));
                assert(printed(o3) =~= printed(o2));
            }
            assert(printed(o3) + seq![c.ch] =~= printed(ops) + run + seq![c.ch]);
        } else {
            assert(printed(ops) + run.push(c.ch) =~= (printed(ops) + run).push(c.ch));
        }
    }
}

/// Painting a frame prints every cell's character, row after row, in order.
pub proof fn lemma_paint_prints_cells(cells: Seq<ScreenCell>, w: nat)
    requires
        w > 0,
    ensures
        printed(paint(cells, w)) == cells.map_values(|c: ScreenCell| c.ch),
{
    lemma_paint_upto_text(cells, w, cells.len());
    let st = paint_upto(cells, w, cells.len());
    lemma_printed_flushed(st.ops, st.run);
    assert(cells.take(cells.len() as int) =~= cells);
}

} // verus!
