//! The colors the chart is drawn in.

use vstd::prelude::*;

verus! {

/// A terminal color.
#[derive(Clone, Copy, PartialEq, Eq, Structural, Debug)]
pub enum Tint {
    Reset,
    Red,
    Cyan,
    Green,
    Yellow,
    Magenta,
    Blue,
    White,
    DarkGrey,
    Grey,
}

/// The pens, in the order channels take them.
pub open spec fn pen(k: nat) -> Tint {
    if k == 0 {
        Tint::Red
    } else if k == 1 {
        Tint::Cyan
    } else if k == 2 {
        Tint::Green
    } else if k == 3 {
        Tint::Yellow
    } else if k == 4 {
        Tint::Magenta
    } else if k == 5 {
        Tint::Blue
    } else {
        Tint::White
    }
}

/// The number of pens.
pub const PENS: usize = 7;

/// Pen color for a channel.
pub fn palette(i: usize) -> (t: Tint)
    ensures
        t == pen((i % PENS) as nat),
{
    let k = i % PENS;
    if k == 0 {
        Tint::Red
    } else if k == 1 {
        Tint::Cyan
    } else if k == 2 {
        Tint::Green
    } else if k == 3 {
        Tint::Yellow
    } else if k == 4 {
        Tint::Magenta
    } else if k == 5 {
        Tint::Blue
    } else {
        Tint::White
    }
}

/// The grid and ruler lines.
pub const GRID: Tint = Tint::DarkGrey;

/// Labels.
pub const DIM: Tint = Tint::Grey;


/// Pen colors repeat every seven channels.
pub proof fn lemma_palette_cycles(i: int)
    requires
        0 <= i,
    ensures
        pen(((i + PENS) % (PENS as int)) as nat) == pen((i % (PENS as int)) as nat),
{
    assert((i + 7) % 7 == i % 7) by (nonlinear_arith);
}

} // verus!
