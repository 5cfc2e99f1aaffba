//! Text for numbers and grids: the characters that a display shows.

use vstd::prelude::*;
use crate::grid::cells;

verus! {

/// `String::push` of std appends one character to the end of the string.
pub assume_specification[ String::push ](text: &mut String, ch: char)
    ensures
        final(text)@ == old(text)@.push(ch),
;

/// The character of a decimal digit.
pub open spec fn digit_char(d: int) -> char {
    if d == 0 {
        '0'
    } else if d == 1 {
        '1'
    } else if d == 2 {
        '2'
    } else if d == 3 {
        '3'
    } else if d == 4 {
        '4'
    } else if d == 5 {
        '5'
    } else if d == 6 {
        '6'
    } else if d == 7 {
        '7'
    } else if d == 8 {
        '8'
    } else {
        '9'
    }
}

/// The decimal digits of `v`, without leading zeros.
pub open spec fn decimal(v: u8) -> Seq<char> {
    if v < 10 {
        seq![digit_char(v as int)]
    } else if v < 100 {
        seq![digit_char(v as int / 10), digit_char(v as int % 10)]
    } else {
        seq![digit_char(v as int / 100), digit_char(v as int / 10 % 10), digit_char(v as int % 10)]
    }
}

/// The decimal digits of `v`, after a space where there is only one.
pub open spec fn decimal_padded(v: u8) -> Seq<char> {
    if v < 10 {
        seq![' '] + decimal(v)
    } else {
        decimal(v)
    }
}

/// The character of the decimal digit `d`.
fn digit(d: u8) -> (ch: char)
    requires
        d <= 9,
    ensures
        ch == digit_char(d as int),
{
    if d == 0 {
        '0'
    } else if d == 1 {
        '1'
    } else if d == 2 {
        '2'
    } else if d == 3 {
        '3'
    } else if d == 4 {
        '4'
    } else if d == 5 {
        '5'
    } else if d == 6 {
        '6'
    } else if d == 7 {
        '7'
    } else if d == 8 {
        '8'
    } else {
        '9'
    }
}

/// Appends the decimal digits of `v`.
pub fn push_decimal(text: &mut String, v: u8)
    ensures
        final(text)@ == old(text)@ + decimal(v),
{
    if v >= 100 {
        text.push(digit(v / 100));
        text.push(digit(v / 10 % 10));
    } else if v >= 10 {
        text.push(digit(v / 10));
    }
    text.push(digit(v % 10));
    assert(text@ =~= old(text)@ + decimal(v));
}

/// Appends the decimal digits of `v`, at least two characters wide.
pub fn push_decimal_padded(text: &mut String, v: u8)
    ensures
        final(text)@ == old(text)@ + decimal_padded(v),
{
    let ghost before = text@;
    if v < 10 {
        text.push(' ');
    }
    push_decimal(text, v);
    assert(text@ =~= before + decimal_padded(v));
}

/// The text of the first `upto` cells of a row: each number with a space
/// behind it.
pub open spec fn row_text(row: Seq<u8>, upto: int) -> Seq<char>
    decreases upto,
{
    if upto <= 0 {
        Seq::empty()
    } else {
        row_text(row, upto - 1) + decimal(row[upto - 1]) + seq![' ']
    }
}

/// The text of the first `upto` rows of a grid: one line for each.
pub open spec fn grid_text(g: Seq<Seq<u8>>, upto: int) -> Seq<char>
    decreases upto,
{
    if upto <= 0 {
        Seq::empty()
    } else {
        grid_text(g, upto - 1) + row_text(g[upto - 1], g[upto - 1].len() as int) + seq!['\n']
    }
}

/// The grid as text: one line for each row, each number with a space behind
/// it.
pub fn format_grid(grid: &Vec<Vec<u8>>) -> (text: String)
    ensures
        text@ == grid_text(cells(grid), grid@.len() as int),
{
    let ghost g = cells(grid);
    let mut text = String::new();
    assert(text@ =~= grid_text(g, 0));
    let mut r: usize = 0;
    while r < grid.len()
        invariant
            r <= grid@.len(),
            g == cells(grid),
            text@ == grid_text(g, r as int),
        decreases grid@.len() - r,
    {
        let ghost before = text@;
        let row = &grid[r];
        assert(g[r as int] == row@);
        let mut c: usize = 0;
        assert(text@ =~= before + row_text(row@, 0));
        while c < row.len()
            invariant
                c <= row@.len(),
                text@ == before + row_text(row@, c as int),
            decreases row@.len() - c,
        {
            push_decimal(&mut text, row[c]);
            text.push(' ');
            c += 1;
            assert(text@ =~= before + row_text(row@, c as int));
        }
        text.push('\n');
        r += 1;
        assert(text@ =~= grid_text(g, r as int));
    }
    text
}

} // verus!
