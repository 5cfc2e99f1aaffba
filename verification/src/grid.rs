//! The mathematical model of a 9x9 grid: its shape, the cells that constrain
//! one another, what a completion is, and how many completions a grid has.

use vstd::prelude::*;

verus! {

/// The cells of a grid as a sequence of rows.
pub open spec fn cells(grid: &Vec<Vec<u8>>) -> Seq<Seq<u8>> {
    Seq::new(grid@.len(), |i: int| grid@[i]@)
}

/// Nine rows of nine cells each.
pub open spec fn well_shaped(g: Seq<Seq<u8>>) -> bool {
    &&& g.len() == 9
    &&& forall|r: int| 0 <= r < 9 ==> (#[trigger] g[r]).len() == 9
}

/// A position on the board.
pub open spec fn on_board(r: int, c: int) -> bool {
    0 <= r < 9 && 0 <= c < 9
}

/// Two positions constrain one another when they lie in one row, one column
/// or one 3x3 box. A position is in sight of itself.
pub open spec fn in_sight(r1: int, c1: int, r2: int, c2: int) -> bool {
    r1 == r2 || c1 == c2 || (r1 / 3 == r2 / 3 && c1 / 3 == c2 / 3)
}

/// `v` stands somewhere in the row, column or box of `(r, c)`.
pub open spec fn occurs_in_sight(g: Seq<Seq<u8>>, r: int, c: int, v: u8) -> bool {
    exists|i: int, j: int| on_board(i, j) && in_sight(i, j, r, c) && #[trigger] g[i][j] == v
}

/// The grid with the cell at `(r, c)` set to `v`.
pub open spec fn place(g: Seq<Seq<u8>>, r: int, c: int, v: u8) -> Seq<Seq<u8>> {
    g.update(r, g[r].update(c, v))
}

/// The position that follows `(r, c)` in row-major order.
pub open spec fn next_cell(r: int, c: int) -> (int, int) {
    if c == 8 {
        (r + 1, 0)
    } else {
        (r, c + 1)
    }
}

/// The number of ways to fill the empty cells from `(r, c)` onwards, in
/// row-major order, each with a digit that does not yet occur in its sight.
pub open spec fn completions(g: Seq<Seq<u8>>, r: int, c: int) -> nat
    decreases 81 - (9 * r + c), 11int,
{
    if !on_board(r, c) {
        1
    } else if g[r][c] != 0 {
        completions(g, next_cell(r, c).0, next_cell(r, c).1)
    } else {
        completions_with(g, r, c, 1)
    }
}

/// The part of `completions` in which the empty cell `(r, c)` takes the digit
/// `d`: nothing where `d` already stands in sight of the cell.
pub open spec fn completions_at(g: Seq<Seq<u8>>, r: int, c: int, d: int) -> nat
    decreases 81 - (9 * r + c), 0int,
{
    if !on_board(r, c) || occurs_in_sight(g, r, c, d as u8) {
        0
    } else {
        completions(place(g, r, c, d as u8), next_cell(r, c).0, next_cell(r, c).1)
    }
}

/// The part of `completions` in which the empty cell `(r, c)` takes a digit
/// from `d` to 9.
pub open spec fn completions_with(g: Seq<Seq<u8>>, r: int, c: int, d: int) -> nat
    decreases 81 - (9 * r + c), 10 - d,
{
    if !on_board(r, c) || d < 1 || d > 9 {
        0
    } else {
        completions_at(g, r, c, d) + completions_with(g, r, c, d + 1)
    }
}

/// The puzzle has exactly one solution.
pub open spec fn unique(g: Seq<Seq<u8>>) -> bool {
    completions(g, 0, 0) == 1
}

/// Every cell holds a digit from 1 to 9.
pub open spec fn full(g: Seq<Seq<u8>>) -> bool {
    forall|r: int, c: int| on_board(r, c) ==> 1 <= #[trigger] g[r][c] <= 9
}

/// Every cell is empty.
pub open spec fn blank(g: Seq<Seq<u8>>) -> bool {
    forall|r: int, c: int| on_board(r, c) ==> #[trigger] g[r][c] == 0
}

/// No digit stands twice in a row, a column or a box.
pub open spec fn consistent(g: Seq<Seq<u8>>) -> bool {
    forall|r1: int, c1: int, r2: int, c2: int|
        on_board(r1, c1) && on_board(r2, c2) && in_sight(r1, c1, r2, c2) && (r1 != r2 || c1 != c2)
            && #[trigger] g[r1][c1] != 0 ==> g[r1][c1] != #[trigger] g[r2][c2]
}

/// A solved grid: full, with no digit twice in a row, a column or a box.
pub open spec fn solved(g: Seq<Seq<u8>>) -> bool {
    well_shaped(g) && full(g) && consistent(g)
}

/// `s` fills the empty cells of `g`: it keeps what `g` holds, and each cell
/// that was empty holds a digit from 1 to 9 that stands nowhere else in its
/// row, column and box.
pub open spec fn fills(g: Seq<Seq<u8>>, s: Seq<Seq<u8>>) -> bool {
    &&& well_shaped(s)
    &&& forall|r: int, c: int| on_board(r, c) && g[r][c] != 0 ==> #[trigger] s[r][c] == g[r][c]
    &&& forall|r: int, c: int| on_board(r, c) && g[r][c] == 0 ==> 1 <= #[trigger] s[r][c] <= 9
    &&& forall|r: int, c: int, i: int, j: int|
        on_board(r, c) && on_board(i, j) && in_sight(i, j, r, c) && (i != r || j != c) && g[r][c]
            == 0 ==> #[trigger] s[r][c] != #[trigger] s[i][j]
}

/// The digits 1 to 9 in ascending order.
pub open spec fn digits() -> Seq<u8> {
    Seq::new(9, |k: int| (k + 1) as u8)
}

/// The nine cells of row `r`, from left to right.
pub open spec fn row_of(g: Seq<Seq<u8>>, r: int) -> Seq<u8> {
    Seq::new(9, |k: int| g[r][k])
}

/// The nine cells of column `c`, from top to bottom.
pub open spec fn column_of(g: Seq<Seq<u8>>, c: int) -> Seq<u8> {
    Seq::new(9, |k: int| g[k][c])
}

/// The nine cells of box `b`, row by row; the boxes are numbered row by row
/// too.
pub open spec fn box_of(g: Seq<Seq<u8>>, b: int) -> Seq<u8> {
    Seq::new(9, |k: int| g[3 * (b / 3) + k / 3][3 * (b % 3) + k % 3])
}

/// The nine cells hold each digit from 1 to 9 exactly once.
pub open spec fn each_digit_once(line: Seq<u8>) -> bool {
    &&& line.len() == 9
    &&& line.no_duplicates()
    &&& forall|d: u8| 1 <= d <= 9 ==> line.contains(d)
}

/// Every row, every column and every box holds each digit exactly once.
pub open spec fn complete(g: Seq<Seq<u8>>) -> bool {
    &&& well_shaped(g)
    &&& forall|r: int| 0 <= r < 9 ==> each_digit_once(#[trigger] row_of(g, r))
    &&& forall|c: int| 0 <= c < 9 ==> each_digit_once(#[trigger] column_of(g, c))
    &&& forall|b: int| 0 <= b < 9 ==> each_digit_once(#[trigger] box_of(g, b))
}

/// Nine different digits from 1 to 9 are all of them.
pub proof fn lemma_nine_different_digits(line: Seq<u8>)
    requires
        line.len() == 9,
        line.no_duplicates(),
        forall|k: int| 0 <= k < 9 ==> 1 <= #[trigger] line[k] <= 9,
    ensures
        each_digit_once(line),
{
    broadcast use vstd::seq_lib::seq_to_set_is_finite;

    line.unique_seq_to_set();
    assert(digits().no_duplicates());
    digits().unique_seq_to_set();
    assert forall|v: u8| line.to_set().contains(v) implies digits().to_set().contains(v) by {
        assert(line.contains(v));
        assert(digits()[v - 1] == v);
        assert(digits().contains(v));
    }
    vstd::set_lib::lemma_subset_equality(line.to_set(), digits().to_set());
    assert forall|d: u8| 1 <= d <= 9 implies line.contains(d) by {
        assert(digits()[d - 1] == d);
        assert(digits().contains(d));
        assert(digits().to_set().contains(d));
        assert(line.to_set().contains(d));
    }
}

/// In a solved grid every row, every column and every box holds each digit
/// exactly once.
pub proof fn lemma_solved_is_complete(g: Seq<Seq<u8>>)
    requires
        solved(g),
    ensures
        complete(g),
{
    assert forall|r: int| 0 <= r < 9 implies each_digit_once(#[trigger] row_of(g, r)) by {
        let line = row_of(g, r);
        assert forall|i: int, j: int| 0 <= i < 9 && 0 <= j < 9 && i != j implies line[i] != line[j] by {
            assert(on_board(r, i) && on_board(r, j) && in_sight(r, i, r, j));
            assert(g[r][i] != 0);
        }
        assert forall|k: int| 0 <= k < 9 implies 1 <= #[trigger] line[k] <= 9 by {
            assert(on_board(r, k));
        }
        lemma_nine_different_digits(line);
    }
    assert forall|c: int| 0 <= c < 9 implies each_digit_once(#[trigger] column_of(g, c)) by {
        let line = column_of(g, c);
        assert forall|i: int, j: int| 0 <= i < 9 && 0 <= j < 9 && i != j implies line[i] != line[j] by {
            assert(on_board(i, c) && on_board(j, c) && in_sight(i, c, j, c));
            assert(g[i][c] != 0);
        }
        assert forall|k: int| 0 <= k < 9 implies 1 <= #[trigger] line[k] <= 9 by {
            assert(on_board(k, c));
        }
        lemma_nine_different_digits(line);
    }
    assert forall|b: int| 0 <= b < 9 implies each_digit_once(#[trigger] box_of(g, b)) by {
        let line = box_of(g, b);
        let top = 3 * (b / 3);
        let left = 3 * (b % 3);
        assert forall|i: int, j: int| 0 <= i < 9 && 0 <= j < 9 && i != j implies line[i] != line[j] by {
            let (r1, c1) = (top + i / 3, left + i % 3);
            let (r2, c2) = (top + j / 3, left + j % 3);
            assert(on_board(r1, c1) && on_board(r2, c2) && in_sight(r1, c1, r2, c2));
            assert(r1 != r2 || c1 != c2);
            assert(g[r1][c1] != 0);
        }
        assert forall|k: int| 0 <= k < 9 implies 1 <= #[trigger] line[k] <= 9 by {
            assert(on_board(top + k / 3, left + k % 3));
        }
        lemma_nine_different_digits(line);
    }
}

/// A grid without an empty cell has one completion, itself, whatever it
/// holds.
pub proof fn lemma_full_has_one_completion(g: Seq<Seq<u8>>, r: int, c: int)
    requires
        full(g),
    ensures
        completions(g, r, c) == 1,
    decreases 81 - (9 * r + c),
{
    if on_board(r, c) {
        lemma_full_has_one_completion(g, next_cell(r, c).0, next_cell(r, c).1);
    }
}

/// The number of empty cells among the first `n` in row-major order.
pub open spec fn empty_among(g: Seq<Seq<u8>>, n: int) -> nat
    decreases n,
{
    if n <= 0 {
        0
    } else {
        let here: nat = if g[(n - 1) / 9][(n - 1) % 9] == 0 {
            1
        } else {
            0
        };
        empty_among(g, n - 1) + here
    }
}

/// The number of empty cells of the grid.
pub open spec fn empty_cells(g: Seq<Seq<u8>>) -> nat {
    empty_among(g, 81)
}

/// Clearing a cell that holds a digit makes one more empty cell.
pub proof fn lemma_clearing_adds_one(g: Seq<Seq<u8>>, r: int, c: int, n: int)
    requires
        well_shaped(g),
        on_board(r, c),
        g[r][c] != 0,
        0 <= n <= 81,
    ensures
        empty_among(place(g, r, c, 0), n) == empty_among(g, n) + (if 9 * r + c < n {
            1nat
        } else {
            0nat
        }),
    decreases n,
{
    if n > 0 {
        lemma_clearing_adds_one(g, r, c, n - 1);
        let a = (n - 1) / 9;
        let b = (n - 1) % 9;
        assert(on_board(a, b));
        if a == r && b == c {
            assert(place(g, r, c, 0)[a][b] == 0);
        } else {
            assert(place(g, r, c, 0)[a][b] == g[a][b]);
        }
    }
}

} // verus!
