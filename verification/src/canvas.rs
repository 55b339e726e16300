//! A grid of braille cells, each holding 2×4 dots, and the pen that draws on it.

use vstd::prelude::*;

use crate::tint::Tint;

verus! {

/// The dots a canvas has been inked with, cell by cell, and each cell's last color.
pub ghost struct Ink {
    pub bits: Seq<u8>,
    pub colors: Seq<Tint>,
}

/// A grid of `w × h` braille cells: `2w` dots across and `4h` down.
pub struct Canvas {
    pub w: usize,
    pub h: usize,
    pub bits: Vec<u8>,
    pub color: Vec<Tint>,
}

/// The bit of the braille pattern for the dot in column `col` (0 or 1) and row
/// `row` (0 to 3) of a cell.
pub open spec fn dot_bit(col: int, row: int) -> u8 {
    if col == 0 {
        if row == 0 {
            0x01
        } else if row == 1 {
            0x02
        } else if row == 2 {
            0x04
        } else {
            0x40
        }
    } else {
        if row == 0 {
            0x08
        } else if row == 1 {
            0x10
        } else if row == 2 {
            0x20
        } else {
            0x80
        }
    }
}

/// Whether the dot `(x, y)` lies on a canvas of `w × h` cells.
pub open spec fn on_canvas(w: int, h: int, x: int, y: int) -> bool {
    0 <= x < 2 * w && 0 <= y < 4 * h
}

/// The cell holding dot `(x, y)`.
pub open spec fn cell_of(w: int, x: int, y: int) -> int {
    (y / 4) * w + x / 2
}

/// The ink after setting dot `(x, y)` in color `t`: dots off the canvas are dropped.
pub open spec fn dotted(ink: Ink, w: int, h: int, x: int, y: int, t: Tint) -> Ink {
    if on_canvas(w, h, x, y) {
        let i = cell_of(w, x, y);
        Ink { bits: ink.bits.update(i, ink.bits[i] | dot_bit(x % 2, y % 4)), colors: ink.colors.update(i, t) }
    } else {
        ink
    }
}

/// The ink after setting each dot of `pts` in turn.
pub open spec fn dotted_all(ink: Ink, w: int, h: int, pts: Seq<(int, int)>, t: Tint) -> Ink
    decreases pts.len(),
{
    if pts.len() == 0 {
        ink
    } else {
        dotted_all(dotted(ink, w, h, pts[0].0, pts[0].1, t), w, h, pts.drop_first(), t)
    }
}

/// The largest coordinate a stroke may start or end at.
pub const REACH: i64 = 1_152_921_504_606_846_976;

pub open spec fn in_reach(v: int) -> bool {
    -REACH <= v <= REACH
}

/// Whether a stroke may start or end at coordinate `v`.
pub fn within_reach(v: i64) -> (r: bool)
    ensures
        r == in_reach(v as int),
{
    -REACH <= v && v <= REACH
}

/// A straight stroke of the pen from `(x0, y0)` to `(x1, y1)`, in dot coordinates.
pub ghost struct Stroke {
    pub x0: int,
    pub y0: int,
    pub x1: int,
    pub y1: int,
}

/// The pen's position and its accumulated error.
pub ghost struct Pen {
    pub x: int,
    pub y: int,
    pub err: int,
}

pub open spec fn sign(v: int) -> int {
    if v > 0 {
        1
    } else if v < 0 {
        -1
    } else {
        0
    }
}

pub open spec fn dist(a: int, b: int) -> int {
    if a <= b {
        b - a
    } else {
        a - b
    }
}

impl Stroke {
    pub open spec fn dx(self) -> int {
        dist(self.x0, self.x1)
    }

    pub open spec fn dy(self) -> int {
        dist(self.y0, self.y1)
    }

    pub open spec fn sx(self) -> int {
        sign(self.x1 - self.x0)
    }

    pub open spec fn sy(self) -> int {
        sign(self.y1 - self.y0)
    }

    pub open spec fn start(self) -> Pen {
        Pen { x: self.x0, y: self.y0, err: self.dx() - self.dy() }
    }

    pub open spec fn done(self, p: Pen) -> bool {
        p.x == self.x1 && p.y == self.y1
    }

    /// One step of the pen: across when the error allows, down when it allows,
    /// or both (Bresenham's rule for all eight directions).
    pub open spec fn advance(self, p: Pen) -> Pen {
        let e2 = 2 * p.err;
        let (e1, x) = if e2 >= -self.dy() {
            (p.err - self.dy(), p.x + self.sx())
        } else {
            (p.err, p.x)
        };
        if e2 <= self.dx() {
            Pen { x, y: p.y + self.sy(), err: e1 + self.dx() }
        } else {
            Pen { x, y: p.y, err: e1 }
        }
    }

    /// The dots the pen sets from `p` on, for at most `fuel` steps.
    pub open spec fn trail(self, p: Pen, fuel: nat) -> Seq<(int, int)>
        decreases fuel,
    {
        if self.done(p) || fuel == 0 {
            seq![(p.x, p.y)]
        } else {
            seq![(p.x, p.y)] + self.trail(self.advance(p), (fuel - 1) as nat)
        }
    }

    /// The dots of the whole stroke.
    pub open spec fn path(self) -> Seq<(int, int)> {
        self.trail(self.start(), (self.dx() + self.dy()) as nat)
    }

    /// The pen after `a` steps across and `b` steps down, with its error in bounds.
    pub open spec fn at(self, p: Pen, a: int, b: int) -> bool {
        &&& 0 <= a <= self.dx()
        &&& 0 <= b <= self.dy()
        &&& p.x == self.x0 + self.sx() * a
        &&& p.y == self.y0 + self.sy() * b
        &&& p.err == self.dx() * (1 + b) - self.dy() * (1 + a)
        &&& -3 * self.dy() <= 2 * p.err <= 3 * self.dx()
    }

    /// One step to the next dot: to one of the eight neighbours, toward the end.
    pub open spec fn step_ok(self, p: (int, int), q: (int, int)) -> bool {
        &&& (q.0 == p.0 || q.0 == p.0 + self.sx())
        &&& (q.1 == p.1 || q.1 == p.1 + self.sy())
        &&& q != p
    }

    /// Within the rectangle spanned by the two ends.
    pub open spec fn in_box(self, p: (int, int)) -> bool {
        &&& (self.x0 <= p.0 <= self.x1 || self.x1 <= p.0 <= self.x0)
        &&& (self.y0 <= p.1 <= self.y1 || self.y1 <= p.1 <= self.y0)
    }
}

proof fn lemma_done(s: Stroke, p: Pen, a: int, b: int)
    requires
        s.at(p, a, b),
    ensures
        s.done(p) <==> (a == s.dx() && b == s.dy()),
        s.in_box((p.x, p.y)),
{
    if s.x1 > s.x0 {
        assert(s.sx() * a == a);
    } else if s.x1 < s.x0 {
        assert(s.sx() * a == -a);
    } else {
        assert(s.sx() * a == 0);
    }
    if s.y1 > s.y0 {
        assert(s.sy() * b == b);
    } else if s.y1 < s.y0 {
        assert(s.sy() * b == -b);
    } else {
        assert(s.sy() * b == 0);
    }
}

/// A step of the pen that is not at the end goes across, down or both, and
/// never past the end.
proof fn lemma_advance(s: Stroke, p: Pen, a: int, b: int) -> (ab: (int, int))
    requires
        s.at(p, a, b),
        !s.done(p),
    ensures
        s.at(s.advance(p), ab.0, ab.1),
        ab.0 == a || ab.0 == a + 1,
        ab.1 == b || ab.1 == b + 1,
        ab.0 + ab.1 > a + b,
        s.step_ok((p.x, p.y), (s.advance(p).x, s.advance(p).y)),
{
    lemma_done(s, p, a, b);
    let dx = s.dx();
    let dy = s.dy();
    let e = p.err;
    let across = 2 * e >= -dy;
    let down = 2 * e <= dx;
    // Never both refused.
    assert(across || down);
    if across && a == dx {
        assert(b < dy);
        assert(dx * (b - dy) <= -dx) by (nonlinear_arith)
            requires
                0 <= dx,
                b - dy <= -1,
        ;
        assert(e == dx - dy + dx * (b - dy) - dy * a + dy * dx) by (nonlinear_arith)
            requires
                e == dx * (1 + b) - dy * (1 + a),
        ;
        assert(false);
    }
    if down && b == dy {
        assert(a < dx);
        assert(dy * (dx - a) >= dy) by (nonlinear_arith)
            requires
                0 <= dy,
                dx - a >= 1,
        ;
        assert(e == dx - dy + dy * (dx - a) + dx * b - dx * dy) by (nonlinear_arith)
            requires
                e == dx * (1 + b) - dy * (1 + a),
        ;
        if dy > 0 {
            assert(false);
        } else {
            assert(dx > 0);
            assert(2 * e >= 2 * dx);
            assert(false);
        }
    }
    let a2 = if across { a + 1 } else { a };
    let b2 = if down { b + 1 } else { b };
    let q = s.advance(p);
    assert(q.x == s.x0 + s.sx() * a2) by (nonlinear_arith)
        requires
            p.x == s.x0 + s.sx() * a,
            q.x == if across { p.x + s.sx() } else { p.x },
            a2 == if across { a + 1 } else { a },
    ;
    assert(q.y == s.y0 + s.sy() * b2) by (nonlinear_arith)
        requires
            p.y == s.y0 + s.sy() * b,
            q.y == if down { p.y + s.sy() } else { p.y },
            b2 == if down { b + 1 } else { b },
    ;
    assert(q.err == dx * (1 + b2) - dy * (1 + a2)) by (nonlinear_arith)
        requires
            e == dx * (1 + b) - dy * (1 + a),
            q.err == e - (if across { dy } else { 0 }) + (if down { dx } else { 0 }),
            a2 == if across { a + 1 } else { a },
            b2 == if down { b + 1 } else { b },
    ;
    if across {
        assert(s.sx() != 0);
    }
    if down {
        assert(s.sy() != 0);
    }
    (a2, b2)
}

/// Following the pen from a position on the stroke, with fuel for every step
/// that is left, ends at the stroke's end, one neighbouring dot at a time.
proof fn lemma_trail(s: Stroke, p: Pen, a: int, b: int, fuel: nat)
    requires
        s.at(p, a, b),
        fuel >= s.dx() - a + s.dy() - b,
    ensures
        s.trail(p, fuel).len() >= 1,
        s.trail(p, fuel)[0] == (p.x, p.y),
        s.trail(p, fuel).last() == (s.x1, s.y1),
        forall|i: int|
            0 <= i < s.trail(p, fuel).len() - 1 ==> s.step_ok(#[trigger] s.trail(p, fuel)[i], s.trail(p, fuel)[i + 1]),
        forall|i: int| 0 <= i < s.trail(p, fuel).len() ==> s.in_box(#[trigger] s.trail(p, fuel)[i]),
    decreases fuel,
{
    lemma_done(s, p, a, b);
    if s.done(p) {
    } else {
        let (a2, b2) = lemma_advance(s, p, a, b);
        let q = s.advance(p);
        lemma_trail(s, q, a2, b2, (fuel - 1) as nat);
        let rest = s.trail(q, (fuel - 1) as nat);
        let t = s.trail(p, fuel);
        assert(t == seq![(p.x, p.y)] + rest);
        assert forall|i: int| 0 <= i < t.len() - 1 implies s.step_ok(#[trigger] t[i], t[i + 1]) by {
            if i > 0 {
                assert(t[i] == rest[i - 1]);
                assert(t[i + 1] == rest[i]);
            }
        }
        assert forall|i: int| 0 <= i < t.len() implies s.in_box(#[trigger] t[i]) by {
            if i > 0 {
                assert(t[i] == rest[i - 1]);
            }
        }
    }
}

/// A stroke starts at its first end, finishes at its second, and steps from
/// each dot to a neighbouring one, never leaving the rectangle between the ends.
pub proof fn lemma_stroke(s: Stroke)
    ensures
        s.path().len() >= 1,
        s.path()[0] == (s.x0, s.y0),
        s.path().last() == (s.x1, s.y1),
        forall|i: int| 0 <= i < s.path().len() - 1 ==> s.step_ok(#[trigger] s.path()[i], s.path()[i + 1]),
        forall|i: int| 0 <= i < s.path().len() ==> s.in_box(#[trigger] s.path()[i]),
{
    let p = s.start();
    assert(s.at(p, 0, 0)) by {
        assert(s.sx() * 0 == 0);
        assert(s.sy() * 0 == 0);
        assert(s.dx() * (1 + 0) == s.dx()) by (nonlinear_arith);
        assert(s.dy() * (1 + 0) == s.dy()) by (nonlinear_arith);
    }
    lemma_trail(s, p, 0, 0, (s.dx() + s.dy()) as nat);
}

/// The braille bit for a dot at column `col`, row `row` of its cell.
fn braille_bit(col: usize, row: usize) -> (b: u8)
    requires
        col < 2,
        row < 4,
    ensures
        b == dot_bit(col as int, row as int),
{
    if col == 0 {
        if row == 0 {
            0x01
        } else if row == 1 {
            0x02
        } else if row == 2 {
            0x04
        } else {
            0x40
        }
    } else {
        if row == 0 {
            0x08
        } else if row == 1 {
            0x10
        } else if row == 2 {
            0x20
        } else {
            0x80
        }
    }
}

impl Canvas {
    pub open spec fn wf(&self) -> bool {
        &&& self.w * self.h <= usize::MAX
        &&& self.bits@.len() == self.w * self.h
        &&& self.color@.len() == self.w * self.h
    }

    pub open spec fn ink(&self) -> Ink {
        Ink { bits: self.bits@, colors: self.color@ }
    }

    /// A blank canvas of `w × h` cells.
    pub fn new(w: usize, h: usize) -> (c: Canvas)
        requires
            w * h <= usize::MAX,
        ensures
            c.wf(),
            c.w == w,
            c.h == h,
            forall|i: int| 0 <= i < w * h ==> #[trigger] c.bits@[i] == 0,
            forall|i: int| 0 <= i < w * h ==> #[trigger] c.color@[i] == Tint::Reset,
    {
        let n = w * h;
        let mut bits: Vec<u8> = Vec::new();
        let mut color: Vec<Tint> = Vec::new();
        while bits.len() < n
            invariant
                bits@.len() == color@.len(),
                bits@.len() <= n,
                forall|i: int| 0 <= i < bits@.len() ==> #[trigger] bits@[i] == 0,
                forall|i: int| 0 <= i < color@.len() ==> #[trigger] color@[i] == Tint::Reset,
            decreases n - bits.len(),
        {
            bits.push(0);
            color.push(Tint::Reset);
        }
        Canvas { w, h, bits, color }
    }

    /// Set dot `(x, y)` in color `t`; a dot off the canvas is dropped.
    pub fn set(&mut self, x: i64, y: i64, t: Tint)
        requires
            old(self).wf(),
        ensures
            final(self).wf(),
            final(self).w == old(self).w,
            final(self).h == old(self).h,
            final(self).ink() == dotted(old(self).ink(), old(self).w as int, old(self).h as int, x as int, y as int, t),
    {
        let w = self.w;
        let h = self.h;
        if x < 0 || y < 0 || x as i128 >= w as i128 * 2 || y as i128 >= h as i128 * 4 {
            return;
        }
        let col = (x / 2) as usize;
        let row = (y / 4) as usize;
        let xbit = (x % 2) as usize;
        let ybit = (y % 4) as usize;
        proof {
            crate::screen::lemma_cell_index(w as int, h as int, col as int, row as int);
        }
        let i = row * w + col;
        let b = braille_bit(xbit, ybit);
        let old_bits = self.bits[i];
        self.bits.set(i, old_bits | b);
        self.color.set(i, t);
    }

    /// Draw a stroke between two dots, setting every dot of its path.
    pub fn line(&mut self, x0: i64, y0: i64, x1: i64, y1: i64, t: Tint)
        requires
            old(self).wf(),
            in_reach(x0 as int),
            in_reach(y0 as int),
            in_reach(x1 as int),
            in_reach(y1 as int),
        ensures
            final(self).wf(),
            final(self).w == old(self).w,
            final(self).h == old(self).h,
            final(self).ink() == dotted_all(
                old(self).ink(),
                old(self).w as int,
                old(self).h as int,
                (Stroke { x0: x0 as int, y0: y0 as int, x1: x1 as int, y1: y1 as int }).path(),
                t,
            ),
    {
        let ghost s = Stroke { x0: x0 as int, y0: y0 as int, x1: x1 as int, y1: y1 as int };
        let ghost w = self.w as int;
        let ghost h = self.h as int;
        let ghost want = dotted_all(self.ink(), w, h, s.path(), t);
        let dx: i64 = if x1 >= x0 { x1 - x0 } else { x0 - x1 };
        let dy: i64 = if y1 >= y0 { y1 - y0 } else { y0 - y1 };
        let sx: i64 = if x1 > x0 { 1 } else if x1 < x0 { -1 } else { 0 };
        let sy: i64 = if y1 > y0 { 1 } else if y1 < y0 { -1 } else { 0 };
        let mut x = x0;
        let mut y = y0;
        let mut err: i64 = dx - dy;
        let ghost mut a: int = 0;
        let ghost mut b: int = 0;
        let ghost mut fuel: nat = (s.dx() + s.dy()) as nat;
        proof {
            assert(s.at(s.start(), 0, 0)) by {
                assert(s.sx() * 0 == 0);
                assert(s.sy() * 0 == 0);
                assert(s.dx() * (1 + 0) == s.dx()) by (nonlinear_arith);
                assert(s.dy() * (1 + 0) == s.dy()) by (nonlinear_arith);
            }
        }
        loop
            invariant
                self.wf(),
                self.w == w,
                self.h == h,
                old(self).w == w,
                old(self).h == h,
                want == dotted_all(old(self).ink(), w, h, s.path(), t),
                dx == s.dx(),
                dy == s.dy(),
                sx == s.sx(),
                sy == s.sy(),
                s == (Stroke { x0: x0 as int, y0: y0 as int, x1: x1 as int, y1: y1 as int }),
                in_reach(x0 as int),
                in_reach(y0 as int),
                in_reach(x1 as int),
                in_reach(y1 as int),
                s.at(Pen { x: x as int, y: y as int, err: err as int }, a, b),
                fuel + a + b >= s.dx() + s.dy(),
                dotted_all(self.ink(), w, h, s.trail(Pen { x: x as int, y: y as int, err: err as int }, fuel), t) == want,
            decreases s.dx() - a + s.dy() - b,
        {
            let ghost p = Pen { x: x as int, y: y as int, err: err as int };
            proof {
                lemma_done(s, p, a, b);
            }
            let ghost before = self.ink();
            self.set(x, y, t);
            if x == x1 && y == y1 {
                proof {
                    assert(s.trail(p, fuel) == seq![(p.x, p.y)]);
                    let one = seq![(p.x, p.y)];
                    assert(one.drop_first().len() == 0);
                    let mid = dotted(before, w, h, p.x, p.y, t);
                    assert(dotted_all(mid, w, h, one.drop_first(), t) == mid);
                    assert(dotted_all(before, w, h, one, t) == dotted_all(mid, w, h, one.drop_first(), t));
                }
                return;
            }
            proof {
                assert(fuel > 0);
                let rest = s.trail(s.advance(p), (fuel - 1) as nat);
                assert(s.trail(p, fuel) == seq![(p.x, p.y)] + rest);
                assert((seq![(p.x, p.y)] + rest).drop_first() =~= rest);
                let (a2, b2) = lemma_advance(s, p, a, b);
                a = a2;
                b = b2;
                fuel = (fuel - 1) as nat;
            }
            let e2 = 2 * err;
            if e2 >= -dy {
                err = err - dy;
                x = x + sx;
            }
            if e2 <= dx {
                err = err + dx;
                y = y + sy;
            }
        }
    }
}

/// `char::from_u32`: the character with code point `v`, if `v` is one.
#[verifier::external_body]
fn char_from_u32(v: u32) -> (c: Option<char>)
    ensures
        c == if v <= 0xD7FF || (0xE000 <= v && v <= 0x10FFFF) {
            Some(v as char)
        } else {
            None::<char>
        },
{
    char::from_u32(v)
}

/// The braille character showing the dots `bits`.
pub open spec fn braille_glyph(bits: u8) -> char {
    (0x2800 + bits) as char
}

/// The braille character showing the dots `bits`.
pub fn braille(bits: u8) -> (c: char)
    ensures
        c == braille_glyph(bits),
{
    let v = 0x2800u32 + bits as u32;
    match char_from_u32(v) {
        Some(c) => c,
        None => '?',
    }
}


/// The number Unicode gives the braille dot at column `col` (0 or 1) and row
/// `row` (0 to 3) of a cell: dots 1 to 3 down the left column, 4 to 6 down the
/// right, then 7 and 8 along the bottom row.
pub open spec fn braille_dot(col: int, row: int) -> int {
    if row < 3 {
        row + 1 + 3 * col
    } else {
        7 + col
    }
}

/// Dots follow the Unicode braille numbering: dot `d` is bit `2^(d-1)` of the
/// pattern added to U+2800, so the eight dots of a cell are eight different bits.
pub proof fn lemma_braille_numbering(col: int, row: int)
    requires
        0 <= col < 2,
        0 <= row < 4,
    ensures
        dot_bit(col, row) as nat == vstd::arithmetic::power2::pow2((braille_dot(col, row) - 1) as nat),
        forall|c: int, r: int|
            0 <= c < 2 && 0 <= r < 4 && (c, r) != (col, row) ==> #[trigger] dot_bit(c, r) & dot_bit(col, row) == 0,
{
    vstd::arithmetic::power2::lemma2_to64();
    assert forall|c: int, r: int|
        0 <= c < 2 && 0 <= r < 4 && (c, r) != (col, row) implies #[trigger] dot_bit(c, r) & dot_bit(col, row) == 0 by {
        let a = dot_bit(c, r);
        let b = dot_bit(col, row);
        assert(a & b == 0) by (bit_vector)
            requires
                a != b,
                a == 1 || a == 2 || a == 4 || a == 8 || a == 16 || a == 32 || a == 64 || a == 128,
                b == 1 || b == 2 || b == 4 || b == 8 || b == 16 || b == 32 || b == 64 || b == 128,
        ;
    }
}

/// Setting a dot on a blank cell shows exactly that dot: the cell's pattern is
/// the dot's Unicode bit, and the cell takes the pen's color; other cells keep
/// their dots.
pub proof fn lemma_dot_on_blank(ink: Ink, w: int, h: int, x: int, y: int, t: Tint)
    requires
        on_canvas(w, h, x, y),
        ink.bits.len() == w * h,
        ink.colors.len() == w * h,
        ink.bits[cell_of(w, x, y)] == 0,
    ensures
        dotted(ink, w, h, x, y, t).bits[cell_of(w, x, y)] as nat == vstd::arithmetic::power2::pow2(
            (braille_dot(x % 2, y % 4) - 1) as nat,
        ),
        dotted(ink, w, h, x, y, t).colors[cell_of(w, x, y)] == t,
        forall|i: int| 0 <= i < ink.bits.len() && i != cell_of(w, x, y) ==> #[trigger] dotted(ink, w, h, x, y, t).bits[i]
            == ink.bits[i],
{
    lemma_braille_numbering(x % 2, y % 4);
    crate::screen::lemma_cell_index(w, h, x / 2, y / 4);
    let b = dot_bit(x % 2, y % 4);
    assert(0u8 | b == b) by (bit_vector);
}

} // verus!
