//! The computable part of rendering a board: which character a cell shows
//! and which blocks are shaded. Styling (colors, emphasis) is left to the
//! caller that owns the terminal.

use vstd::prelude::*;

verus! {

/// The character that digit `d` prints as.
pub open spec fn digit_char_spec(d: u8) -> char {
    if d == 1 {
        '1'
    } else if d == 2 {
        '2'
    } else if d == 3 {
        '3'
    } else if d == 4 {
        '4'
    } else if d == 5 {
        '5'
    } else if d == 6 {
        '6'
    } else if d == 7 {
        '7'
    } else if d == 8 {
        '8'
    } else {
        '9'
    }
}

/// The character a cell value prints as: its digit, or `*` when empty.
pub fn cell_char(v: u8) -> (ch: char)
    requires
        v <= 9,
    ensures
        ch == (if v == 0 {
            '*'
        } else {
            digit_char_spec(v)
        }),
{
    match v {
        0 => '*',
        1 => '1',
        2 => '2',
        3 => '3',
        4 => '4',
        5 => '5',
        6 => '6',
        7 => '7',
        8 => '8',
        _ => '9',
    }
}

/// The checkerboard shading of the 3x3 blocks: the cell in row `r`, column
/// `c` lies on a shaded block exactly when its block row and block column
/// have different parities.
pub fn block_shaded(r: usize, c: usize) -> (s: bool)
    requires
        r < 9,
        c < 9,
    ensures
        s == (((r as int / 3) % 2) != ((c as int / 3) % 2)),
{
    (r / 3) % 2 != (c / 3) % 2
}

} // verus!
