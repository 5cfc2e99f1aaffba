//! A 10x10 board of candidate lists: each cell holds the digits that may
//! still stand there.

use vstd::prelude::*;
use crate::grid::digits;
use crate::text::{decimal_padded, push_decimal_padded};

verus! {

/// A board of ten rows of ten cells, each a list of candidate digits.
pub struct GlobalBoard {
    data: Vec<Vec<Vec<u8>>>,
    size: usize,
}

/// The candidates that a new board holds at `(x, y)`: the given value alone
/// where `input` has one there, and else every digit from 1 to 9.
pub open spec fn initial_candidates(input: Seq<Seq<u8>>, x: int, y: int) -> Seq<u8> {
    if 0 <= x < input.len() && 0 <= y < input[x].len() {
        seq![input[x][y]]
    } else {
        digits()
    }
}

/// The entry that an iterator at `(x, y)` hands out, if it hands out any.
pub open spec fn entry_at(board: Seq<Seq<Seq<u8>>>, size: int, x: int, y: int) -> Option<
    (int, int, Seq<u8>),
> {
    if x >= size || y >= size {
        None
    } else {
        Some((x, y, board[x][y]))
    }
}

/// The position of an iterator after it has handed out the entry at `(x, y)`.
pub open spec fn position_after(size: int, x: int, y: int) -> (int, int) {
    if x >= size || y >= size {
        (x, y)
    } else if y + 1 >= size {
        (x + 1, 0)
    } else {
        (x, y + 1)
    }
}

/// A rule of 33 dashes, and the end of its line.
pub open spec fn rule_text() -> Seq<char> {
    Seq::new(33, |i: int| '-').push('\n')
}

/// The text of the first `upto` cells of a row of the board: a bar, then the
/// first candidate of each cell, two characters wide with a space behind it,
/// and a bar with a space behind every third cell.
pub open spec fn board_row_text(row: Seq<Seq<u8>>, upto: int) -> Seq<char>
    decreases upto,
{
    if upto <= 0 {
        seq!['|']
    } else {
        board_row_text(row, upto - 1) + decimal_padded(row[upto - 1][0]) + seq![' '] + (if upto % 3
            == 0 {
            seq!['|', ' ']
        } else {
            Seq::empty()
        })
    }
}

/// The text of the first `upto` rows of the board: a rule, then one line for
/// each row, and a rule behind every third row.
pub open spec fn board_text(board: Seq<Seq<Seq<u8>>>, upto: int) -> Seq<char>
    decreases upto,
{
    if upto <= 0 {
        rule_text()
    } else {
        board_text(board, upto - 1) + board_row_text(board[upto - 1], 9) + seq!['\n'] + (if upto % 3
            == 0 {
            rule_text()
        } else {
            Seq::empty()
        })
    }
}

/// Appends a rule of 33 dashes and ends the line.
fn push_rule(text: &mut String)
    ensures
        final(text)@ == old(text)@ + rule_text(),
{
    let ghost before = text@;
    let mut i: usize = 0;
    while i < 33
        invariant
            i <= 33,
            text@ == before + Seq::new(i as nat, |k: int| '-'),
        decreases 33 - i,
    {
        text.push('-');
        i += 1;
        assert(text@ =~= before + Seq::new(i as nat, |k: int| '-'));
    }
    text.push('\n');
    assert(text@ =~= before + rule_text());
}

impl GlobalBoard {
    /// The candidate lists, row by row.
    pub closed spec fn view(&self) -> Seq<Seq<Seq<u8>>> {
        Seq::new(self.data@.len(), |x: int| Seq::new(self.data@[x]@.len(), |y: int| self.data@[x]@[y]@))
    }

    /// The side of the board as the board records it.
    pub closed spec fn spec_size(&self) -> int {
        self.size as int
    }

    /// Ten rows of ten cells, with a recorded side of ten.
    pub open spec fn well_formed(&self) -> bool {
        &&& self.spec_size() == 10
        &&& self@.len() == 10
        &&& forall|x: int| 0 <= x < 10 ==> (#[trigger] self@[x]).len() == 10
    }

    /// What the model says of the vectors that hold it.
    proof fn shape(&self)
        requires
            self.well_formed(),
        ensures
            self.size == 10,
            self.data@.len() == 10,
            forall|x: int| 0 <= x < 10 ==> (#[trigger] self.data@[x])@.len() == 10,
            forall|x: int, y: int|
                0 <= x < 10 && 0 <= y < 10 ==> self@[x][y] == (#[trigger] self.data@[x]@[y])@,
    {
        assert forall|x: int| 0 <= x < 10 implies (#[trigger] self.data@[x])@.len() == 10 by {
            assert(self@[x].len() == 10);
        }
    }

    /// Makes a board from the values of a grid: a cell for which `input` has
    /// a value holds that value alone, every other cell holds the digits 1 to 9.
    pub fn new(input: Vec<Vec<u8>>) -> (board: Self)
        ensures
            board.well_formed(),
            forall|x: int, y: int|
                0 <= x < 10 && 0 <= y < 10 ==> #[trigger] board@[x][y] == initial_candidates(
                    crate::grid::cells(&input),
                    x,
                    y,
                ),
    {
        let ghost given = crate::grid::cells(&input);
        let mut data: Vec<Vec<Vec<u8>>> = Vec::new();
        let mut x: usize = 0;
        while x < 10
            invariant
                x <= 10,
                given == crate::grid::cells(&input),
                data@.len() == x,
                forall|a: int| 0 <= a < x ==> (#[trigger] data@[a])@.len() == 10,
                forall|a: int, b: int|
                    0 <= a < x && 0 <= b < 10 ==> (#[trigger] data@[a]@[b])@ == initial_candidates(
                        given,
                        a,
                        b,
                    ),
            decreases 10 - x,
        {
            let mut row: Vec<Vec<u8>> = Vec::new();
            let mut y: usize = 0;
            while y < 10
                invariant
                    x < 10,
                    y <= 10,
                    given == crate::grid::cells(&input),
                    row@.len() == y,
                    forall|b: int|
                        0 <= b < y ==> (#[trigger] row@[b])@ == initial_candidates(given, x as int, b),
                decreases 10 - y,
            {
                let mut cell: Vec<u8> = Vec::new();
                if x < input.len() && y < input[x].len() {
                    cell.push(input[x][y]);
                    assert(cell@ =~= seq![given[x as int][y as int]]);
                } else {
                    let mut d: u8 = 1;
                    while d <= 9
                        invariant
                            1 <= d <= 10,
                            cell@.len() == d - 1,
                            forall|k: int| 0 <= k < d - 1 ==> #[trigger] cell@[k] == k + 1,
                        decreases 10 - d,
                    {
                        cell.push(d);
                        d += 1;
                    }
                    assert(cell@ =~= digits());
                }
                row.push(cell);
                y += 1;
            }
            data.push(row);
            x += 1;
        }
        let board = GlobalBoard { data, size: 10 };
        assert forall|a: int, b: int| 0 <= a < 10 && 0 <= b < 10 implies #[trigger] board@[a][b]
            == initial_candidates(given, a, b) by {
            assert(board@[a][b] == board.data@[a]@[b]@);
        }
        board
    }

    /// The side of the board: ten.
    pub fn size(&self) -> (n: usize)
        ensures
            n == self.spec_size(),
            self.well_formed() ==> n == 10,
    {
        self.size
    }

    /// An iterator over the entries `(x, y, candidates)` in row-major order,
    /// placed before the first.
    pub fn iter(&self) -> (it: GlobalBoardIterator<'_>)
        ensures
            it.board() == self,
            it.position() == (0int, 0int),
    {
        GlobalBoardIterator { board: self, x: 0, y: 0 }
    }

    /// The first nine rows and columns each hold a candidate in every cell.
    pub open spec fn displayable(&self) -> bool {
        forall|x: int, y: int| 0 <= x < 9 && 0 <= y < 9 ==> (#[trigger] self@[x][y]).len() > 0
    }

    /// The 9x9 part of the board as text, with rules and bars round the 3x3
    /// boxes; of each cell the first candidate is shown.
    pub fn render(&self) -> (text: String)
        requires
            self.well_formed(),
            self.displayable(),
        ensures
            text@ == board_text(self@, 9),
    {
        let mut text = String::new();
        push_rule(&mut text);
        assert(text@ =~= board_text(self@, 0));
        let mut x: usize = 0;
        while x < 9
            invariant
                x <= 9,
                self.well_formed(),
                self.displayable(),
                text@ == board_text(self@, x as int),
            decreases 9 - x,
        {
            let ghost before = text@;
            text.push('|');
            assert(text@ =~= before + board_row_text(self@[x as int], 0));
            let mut y: usize = 0;
            while y < 9
                invariant
                    x < 9,
                    y <= 9,
                    self.well_formed(),
                    self.displayable(),
                    text@ == before + board_row_text(self@[x as int], y as int),
                decreases 9 - y,
            {
                proof {
                    self.shape();
                    assert(self@[x as int][y as int].len() > 0);
                }
                push_decimal_padded(&mut text, self.data[x][y][0]);
                text.push(' ');
                if (y + 1) % 3 == 0 {
                    text.push('|');
                    text.push(' ');
                }
                y += 1;
                assert(text@ =~= before + board_row_text(self@[x as int], y as int));
            }
            text.push('\n');
            if (x + 1) % 3 == 0 {
                push_rule(&mut text);
            }
            x += 1;
            assert(text@ =~= board_text(self@, x as int));
        }
        text
    }

    /// The candidates at `(idx.0, idx.1)`, to be changed in place; every other
    /// cell is kept.
    pub fn index_mut(&mut self, idx: (usize, usize)) -> (cell: &mut Vec<u8>)
        requires
            old(self).well_formed(),
            idx.0 < 10,
            idx.1 < 10,
        ensures
            cell@ == old(self)@[idx.0 as int][idx.1 as int],
            final(self).well_formed(),
            forall|x: int, y: int|
                0 <= x < 10 && 0 <= y < 10 ==> #[trigger] final(self)@[x][y] == (if x == idx.0 && y
                    == idx.1 {
                    final(cell)@
                } else {
                    old(self)@[x][y]
                }),
    {
        proof {
            self.shape();
        }
        &mut self.data[idx.0][idx.1]
    }
}

impl core::ops::Index<(usize, usize)> for GlobalBoard {
    type Output = Vec<u8>;

    /// The candidates at `(idx.0, idx.1)`, for a position on the board.
    fn index(&self, idx: (usize, usize)) -> (cell: &Vec<u8>)
        ensures
            cell@ == self@[idx.0 as int][idx.1 as int],
    {
        proof {
            self.shape();
        }
        &self.data[idx.0][idx.1]
    }
}

impl vstd::std_specs::core::IndexSpecImpl<(usize, usize)> for GlobalBoard {
    open spec fn index_req(&self, index: &(usize, usize)) -> bool {
        self.well_formed() && index.0 < 10 && index.1 < 10
    }
}

/// A walk over the entries of a board in row-major order.
pub struct GlobalBoardIterator<'a> {
    board: &'a GlobalBoard,
    x: usize,
    y: usize,
}

impl<'a> GlobalBoardIterator<'a> {
    /// The board that is walked over.
    pub closed spec fn board(&self) -> &GlobalBoard {
        self.board
    }

    /// The position of the entry that comes next.
    pub closed spec fn position(&self) -> (int, int) {
        (self.x as int, self.y as int)
    }

    /// Hands out the entry at the current position and moves on to the next
    /// in row-major order; past the last entry it hands out nothing and stays.
    pub fn next(&mut self) -> (entry: Option<(usize, usize, Vec<u8>)>)
        requires
            old(self).board().well_formed(),
        ensures
            final(self).board() == old(self).board(),
            final(self).position() == position_after(10, old(self).position().0, old(self).position().1),
            match entry {
                Some((x, y, candidates)) => entry_at(
                    old(self).board()@,
                    10,
                    old(self).position().0,
                    old(self).position().1,
                ) == Some((x as int, y as int, candidates@)),
                None => entry_at(
                    old(self).board()@,
                    10,
                    old(self).position().0,
                    old(self).position().1,
                ) is None,
            },
    {
        proof {
            self.board.shape();
        }
        if self.x >= self.board.size || self.y >= self.board.size {
            return None;
        }
        let candidates = self.board.data[self.x][self.y].clone();
        assert(candidates@ =~= self.board.data@[self.x as int]@[self.y as int]@);
        let result = (self.x, self.y, candidates);
        if self.y + 1 >= self.board.size {
            self.x += 1;
            self.y = 0;
        } else {
            self.y += 1;
        }
        Some(result)
    }
}

} // verus!
