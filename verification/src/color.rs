//! Cell colours and the two 256-colour quantisations.
use vstd::prelude::*;
use vstd::std_specs::cmp::PartialEqSpecImpl;

verus! {

/// The colour of one cell: a true colour, or an index into one of two
/// 256-entry palettes.
#[derive(Clone, Copy, Debug, Eq)]
pub enum Color {
    Rgb([u8; 3]),
    My256(u8),
    Df256(u8),
}

impl PartialEq for Color {
    fn eq(&self, other: &Color) -> (same: bool) {
        match (self, other) {
            (Color::Rgb(a), Color::Rgb(b)) => {
                let same = a[0] == b[0] && a[1] == b[1] && a[2] == b[2];
                proof {
                    broadcast use vstd::array::group_array_axioms;

                    if same {
                        assert(*a =~= *b);
                    }
                }
                same
            },
            (Color::My256(a), Color::My256(b)) => *a == *b,
            (Color::Df256(a), Color::Df256(b)) => *a == *b,
            _ => false,
        }
    }
}

impl PartialEqSpecImpl for Color {
    open spec fn obeys_eq_spec() -> bool {
        true
    }

    open spec fn eq_spec(&self, other: &Color) -> bool {
        *self == *other
    }
}

/// The 6x6x6 colour-cube index of a true colour: each channel is cut into
/// levels of width 43.
pub open spec fn spec_my256(r: u8, g: u8, b: u8) -> int {
    (r / 43) * 36 + (g / 43) * 6 + b / 43
}

/// The 3-3-2 packed index of a true colour: 3 bits of red, 3 of green, 2 of blue.
pub open spec fn spec_df256(r: u8, g: u8, b: u8) -> int {
    (r / 32) * 32 + (g / 32) * 4 + b / 64
}

/// Quantises a true colour to the 6x6x6 colour cube.
pub fn rgb2my256(r: u8, g: u8, b: u8) -> (idx: u8)
    ensures
        idx == spec_my256(r, g, b),
{
    r / 43 * 36 + g / 43 * 6 + b / 43
}

/// Quantises a true colour to the 3-3-2 palette.
pub fn rgb2df256(r: u8, g: u8, b: u8) -> (idx: u8)
    ensures
        idx == spec_df256(r, g, b),
{
    r / 32 * 32 + g / 32 * 4 + b / 64
}

/// The cube index stays inside the 216 cube entries, and each channel's level
/// can be read back from it.
pub proof fn lemma_my256_levels(r: u8, g: u8, b: u8)
    ensures
        0 <= spec_my256(r, g, b) < 216,
        spec_my256(r, g, b) / 36 == r / 43,
        (spec_my256(r, g, b) / 6) % 6 == g / 43,
        spec_my256(r, g, b) % 6 == b / 43,
{
    let (lr, lg, lb) = ((r / 43) as int, (g / 43) as int, (b / 43) as int);
    assert(lr < 6 && lg < 6 && lb < 6);
    let i = lr * 36 + lg * 6 + lb;
    assert(i / 36 == lr) by (nonlinear_arith)
        requires i == lr * 36 + lg * 6 + lb, 0 <= lr < 6, 0 <= lg < 6, 0 <= lb < 6;
    assert((i / 6) % 6 == lg) by (nonlinear_arith)
        requires i == lr * 36 + lg * 6 + lb, 0 <= lr < 6, 0 <= lg < 6, 0 <= lb < 6;
    assert(i % 6 == lb) by (nonlinear_arith)
        requires i == lr * 36 + lg * 6 + lb, 0 <= lr < 6, 0 <= lg < 6, 0 <= lb < 6;
}

/// The packed index reads back each channel's top bits.
pub proof fn lemma_df256_levels(r: u8, g: u8, b: u8)
    ensures
        0 <= spec_df256(r, g, b) < 256,
        spec_df256(r, g, b) / 32 == r / 32,
        (spec_df256(r, g, b) / 4) % 8 == g / 32,
        spec_df256(r, g, b) % 4 == b / 64,
{
    let (lr, lg, lb) = ((r / 32) as int, (g / 32) as int, (b / 64) as int);
    assert(lr < 8 && lg < 8 && lb < 4);
    let i = lr * 32 + lg * 4 + lb;
    assert(i / 32 == lr) by (nonlinear_arith)
        requires i == lr * 32 + lg * 4 + lb, 0 <= lr < 8, 0 <= lg < 8, 0 <= lb < 4;
    assert((i / 4) % 8 == lg) by (nonlinear_arith)
        requires i == lr * 32 + lg * 4 + lb, 0 <= lr < 8, 0 <= lg < 8, 0 <= lb < 4;
    assert(i % 4 == lb) by (nonlinear_arith)
        requires i == lr * 32 + lg * 4 + lb, 0 <= lr < 8, 0 <= lg < 8, 0 <= lb < 4;
}

} // verus!
