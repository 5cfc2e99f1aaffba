//! Generating a solved grid, counting solutions, and carving a puzzle.

use vstd::prelude::*;
use crate::grid::{
    blank, cells, complete, completions, completions_at, completions_with, digits,
    empty_cells, fills, full, in_sight, lemma_clearing_adds_one,
    lemma_full_has_one_completion, lemma_solved_is_complete, next_cell, occurs_in_sight,
    on_board, place, solved, unique, well_shaped,
};
use crate::completion::{lemma_solvable_means_counted, lemma_unique_means_one_completion};
use crate::shuffle::{shuffle, thread_rng};

verus! {

/// What the shape of the model says of the vectors that hold it.
proof fn shape_of(grid: &Vec<Vec<u8>>)
    requires
        well_shaped(cells(grid)),
    ensures
        grid@.len() == 9,
        forall|r: int| 0 <= r < 9 ==> (#[trigger] grid@[r])@.len() == 9,
        forall|r: int| 0 <= r < 9 ==> (#[trigger] cells(grid)[r]) == grid@[r]@,
{
    assert forall|r: int| 0 <= r < 9 implies (#[trigger] grid@[r])@.len() == 9 by {
        assert(cells(grid)[r].len() == 9);
    }
}

/// Writes `v` into the cell at `(row, col)`.
fn set_cell(grid: &mut Vec<Vec<u8>>, row: usize, col: usize, v: u8)
    requires
        well_shaped(cells(old(grid))),
        row < 9,
        col < 9,
    ensures
        cells(final(grid)) == place(cells(old(grid)), row as int, col as int, v),
        well_shaped(cells(final(grid))),
{
    proof {
        shape_of(grid);
    }
    grid[row][col] = v;
    assert(cells(grid) =~= place(cells(old(grid)), row as int, col as int, v));
}

/// Decides whether `num` may be placed at `(row, col)`: it may unless it
/// already stands in the row, the column or the 3x3 box of that cell. The grid
/// is only read, and the answer depends on nothing but the arguments.
pub fn can_place_number(grid: &Vec<Vec<u8>>, row: usize, col: usize, num: u8) -> (ok: bool)
    requires
        well_shaped(cells(grid)),
        row < 9,
        col < 9,
    ensures
        ok == !occurs_in_sight(cells(grid), row as int, col as int, num),
{
    let ghost g = cells(grid);
    let mut c: usize = 0;
    while c < 9
        invariant
            c <= 9,
            row < 9,
            g == cells(grid),
            well_shaped(g),
            forall|j: int| 0 <= j < c ==> g[row as int][j] != num,
        decreases 9 - c,
    {
        proof {
            shape_of(grid);
        }
        if grid[row][c] == num {
            assert(on_board(row as int, c as int) && g[row as int][c as int] == num);
            return false;
        }
        c += 1;
    }
    let mut r: usize = 0;
    while r < 9
        invariant
            r <= 9,
            col < 9,
            g == cells(grid),
            well_shaped(g),
            forall|i: int| 0 <= i < r ==> g[i][col as int] != num,
        decreases 9 - r,
    {
        proof {
            shape_of(grid);
        }
        if grid[r][col] == num {
            assert(on_board(r as int, col as int) && g[r as int][col as int] == num);
            return false;
        }
        r += 1;
    }
    let top: usize = (row / 3) * 3;
    let left: usize = (col / 3) * 3;
    let mut i: usize = 0;
    while i < 3
        invariant
            i <= 3,
            top == (row / 3) * 3,
            left == (col / 3) * 3,
            row < 9,
            col < 9,
            g == cells(grid),
            well_shaped(g),
            forall|a: int, b: int| top <= a < top + i && left <= b < left + 3 ==> g[a][b] != num,
        decreases 3 - i,
    {
        let mut j: usize = 0;
        while j < 3
            invariant
                i < 3,
                j <= 3,
                top == (row / 3) * 3,
                left == (col / 3) * 3,
                row < 9,
                col < 9,
                g == cells(grid),
                well_shaped(g),
                forall|a: int, b: int|
                    top <= a < top + i && left <= b < left + 3 ==> g[a][b] != num,
                forall|a: int, b: int| a == top + i && left <= b < left + j ==> g[a][b] != num,
            decreases 3 - j,
        {
            proof {
                shape_of(grid);
            }
            if grid[top + i][left + j] == num {
                assert(on_board(top + i, left + j) && in_sight(top + i, left + j, row as int, col as int)
                    && g[top + i][left + j] == num);
                return false;
            }
            j += 1;
        }
        i += 1;
    }
    assert forall|a: int, b: int| on_board(a, b) && in_sight(a, b, row as int, col as int) implies #[trigger] g[a][b] != num by {
        if a != row && b != col {
            assert(top <= a < top + 3 && left <= b < left + 3);
        }
    }
    true
}

/// Writing a cell twice leaves the second value.
pub proof fn lemma_place_again(g: Seq<Seq<u8>>, r: int, c: int, v: u8, w: u8)
    requires
        well_shaped(g),
        on_board(r, c),
    ensures
        place(place(g, r, c, v), r, c, w) == place(g, r, c, w),
{
    assert(place(g, r, c, v)[r].update(c, w) =~= g[r].update(c, w));
    assert(place(place(g, r, c, v), r, c, w) =~= place(g, r, c, w));
}

/// Writing to a cell the value that it holds changes nothing.
pub proof fn lemma_place_same(g: Seq<Seq<u8>>, r: int, c: int)
    requires
        well_shaped(g),
        on_board(r, c),
    ensures
        place(g, r, c, g[r][c]) == g,
{
    assert(g[r].update(c, g[r][c]) =~= g[r]);
    assert(place(g, r, c, g[r][c]) =~= g);
}

/// The cells that the counter has yet to visit from `(row, col)` onwards.
pub open spec fn cells_left(row: int, col: int) -> int {
    if on_board(row, col) {
        81 - (9 * row + col)
    } else {
        0
    }
}

/// Counts the completions of the grid from `(row, col)` onwards, and stops
/// counting once it has found more than one. The count is exact when it is 0
/// or 1; it is at least 2 exactly when there are at least two completions.
/// The grid is the same afterwards as before.
pub fn solve_sudoku(grid: &mut Vec<Vec<u8>>, row: usize, col: usize) -> (solutions: usize)
    requires
        well_shaped(cells(old(grid))),
        row == 9 || (row < 9 && col < 9),
    ensures
        cells(final(grid)) == cells(old(grid)),
        solutions <= completions(cells(old(grid)), row as int, col as int),
        completions(cells(old(grid)), row as int, col as int) >= 1 ==> solutions >= 1,
        completions(cells(old(grid)), row as int, col as int) >= 2 ==> solutions >= 2,
        solutions <= 1 + cells_left(row as int, col as int),
    decreases cells_left(row as int, col as int),
{
    if row == 9 {
        return 1;
    }
    let (next_row, next_col) = if col == 9 - 1 {
        (row + 1, 0)
    } else {
        (row, col + 1)
    };
    proof {
        shape_of(grid);
    }
    let ghost g = cells(grid);
    if grid[row][col] != 0 {
        return solve_sudoku(grid, next_row, next_col);
    }
    let mut solutions: usize = 0;
    let mut num: u8 = 1;
    while num <= 9
        invariant
            1 <= num <= 10,
            row < 9,
            col < 9,
            (next_row as int, next_col as int) == next_cell(row as int, col as int),
            next_row == 9 || (next_row < 9 && next_col < 9),
            g == cells(grid),
            g == cells(old(grid)),
            well_shaped(g),
            g[row as int][col as int] == 0,
            solutions <= 1,
            solutions + completions_with(g, row as int, col as int, num as int) == completions_with(
                g,
                row as int,
                col as int,
                1,
            ),
        decreases 10 - num,
    {
        assert(completions_with(g, row as int, col as int, num as int) == completions_at(
            g,
            row as int,
            col as int,
            num as int,
        ) + completions_with(g, row as int, col as int, num + 1));
        if can_place_number(grid, row, col, num) {
            assert(completions_at(g, row as int, col as int, num as int) == completions(
                place(g, row as int, col as int, num),
                next_row as int,
                next_col as int,
            ));
            set_cell(grid, row, col, num);
            let found = solve_sudoku(grid, next_row, next_col);
            solutions += found;
            set_cell(grid, row, col, 0);
            proof {
                lemma_place_again(g, row as int, col as int, num, 0);
                lemma_place_same(g, row as int, col as int);
            }
            if solutions > 1 {
                return solutions;
            }
        }
        num += 1;
    }
    solutions
}

/// A copy of the grid, cell by cell.
fn copy_grid(grid: &Vec<Vec<u8>>) -> (copy: Vec<Vec<u8>>)
    requires
        well_shaped(cells(grid)),
    ensures
        cells(&copy) == cells(grid),
{
    let mut copy: Vec<Vec<u8>> = Vec::new();
    let mut r: usize = 0;
    while r < 9
        invariant
            r <= 9,
            well_shaped(cells(grid)),
            copy@.len() == r,
            forall|i: int| 0 <= i < r ==> (#[trigger] copy@[i])@ == cells(grid)[i],
        decreases 9 - r,
    {
        let mut line: Vec<u8> = Vec::new();
        let mut c: usize = 0;
        while c < 9
            invariant
                c <= 9,
                r < 9,
                well_shaped(cells(grid)),
                line@.len() == c,
                forall|j: int| 0 <= j < c ==> #[trigger] line@[j] == cells(grid)[r as int][j],
            decreases 9 - c,
        {
            proof {
                shape_of(grid);
            }
            line.push(grid[r][c]);
            c += 1;
        }
        assert(line@ =~= cells(grid)[r as int]);
        copy.push(line);
        r += 1;
    }
    assert(cells(&copy) =~= cells(grid));
    copy
}

/// Decides whether the puzzle has exactly one solution. The count is made on
/// a copy, so the caller's grid is never written to.
pub fn has_unique_solution(grid: &Vec<Vec<u8>>) -> (yes: bool)
    requires
        well_shaped(cells(grid)),
    ensures
        yes == unique(cells(grid)),
{
    let mut grid_copy = copy_grid(grid);
    let solutions = solve_sudoku(&mut grid_copy, 0, 0);
    solutions == 1
}

/// Every position of `order` lies on the board.
pub open spec fn all_on_board(order: Seq<(usize, usize)>) -> bool {
    forall|k: int| 0 <= k < order.len() ==> on_board((#[trigger] order[k]).0 as int, order[k].1 as int)
}

/// The 81 positions of the board in row-major order.
pub open spec fn all_positions() -> Seq<(usize, usize)> {
    Seq::new(81, |k: int| ((k / 9) as usize, (k % 9) as usize))
}

/// The puzzle that carving makes of `g` when it visits the positions of
/// `order` from index `k` on and may still clear `budget` cells: a cell that
/// holds a digit is cleared if the grid without it has exactly one solution,
/// and is kept otherwise.
pub open spec fn carved(g: Seq<Seq<u8>>, order: Seq<(usize, usize)>, k: int, budget: nat) -> Seq<
    Seq<u8>,
>
    decreases order.len() - k,
{
    if k < 0 || k >= order.len() || budget == 0 {
        g
    } else {
        let r = order[k].0 as int;
        let c = order[k].1 as int;
        if g[r][c] != 0 && unique(place(g, r, c, 0)) {
            carved(place(g, r, c, 0), order, k + 1, (budget - 1) as nat)
        } else {
            carved(g, order, k + 1, budget)
        }
    }
}

/// Carving never adds a digit: each cell of the carved grid is either empty
/// or holds what the grid held there before.
pub proof fn lemma_carved_weakens(g: Seq<Seq<u8>>, order: Seq<(usize, usize)>, k: int, budget: nat)
    requires
        well_shaped(g),
        all_on_board(order),
    ensures
        well_shaped(carved(g, order, k, budget)),
        forall|r: int, c: int|
            on_board(r, c) ==> #[trigger] carved(g, order, k, budget)[r][c] == 0 || carved(
                g,
                order,
                k,
                budget,
            )[r][c] == g[r][c],
    decreases order.len() - k,
{
    if !(k < 0 || k >= order.len() || budget == 0) {
        let r = order[k].0 as int;
        let c = order[k].1 as int;
        if g[r][c] != 0 && unique(place(g, r, c, 0)) {
            lemma_carved_weakens(place(g, r, c, 0), order, k + 1, (budget - 1) as nat);
        } else {
            lemma_carved_weakens(g, order, k + 1, budget);
        }
    }
}

/// Carving keeps uniqueness: a grid with exactly one solution is carved into
/// a puzzle with exactly one solution.
pub proof fn lemma_carved_unique(g: Seq<Seq<u8>>, order: Seq<(usize, usize)>, k: int, budget: nat)
    requires
        unique(g),
    ensures
        unique(carved(g, order, k, budget)),
    decreases order.len() - k,
{
    if !(k < 0 || k >= order.len() || budget == 0) {
        let r = order[k].0 as int;
        let c = order[k].1 as int;
        if g[r][c] != 0 && unique(place(g, r, c, 0)) {
            lemma_carved_unique(place(g, r, c, 0), order, k + 1, (budget - 1) as nat);
        } else {
            lemma_carved_unique(g, order, k + 1, budget);
        }
    }
}

/// A carved grid differs from the grid it was made of only where a cell was
/// cleared, and then it has exactly one solution.
pub proof fn lemma_carved_changed_is_unique(
    g: Seq<Seq<u8>>,
    order: Seq<(usize, usize)>,
    k: int,
    budget: nat,
)
    ensures
        carved(g, order, k, budget) == g || unique(carved(g, order, k, budget)),
    decreases order.len() - k,
{
    if !(k < 0 || k >= order.len() || budget == 0) {
        let r = order[k].0 as int;
        let c = order[k].1 as int;
        if g[r][c] != 0 && unique(place(g, r, c, 0)) {
            lemma_carved_unique(place(g, r, c, 0), order, k + 1, (budget - 1) as nat);
        } else {
            lemma_carved_changed_is_unique(g, order, k + 1, budget);
        }
    }
}

/// Carving clears no more cells than its budget allows.
pub proof fn lemma_carved_within_budget(
    g: Seq<Seq<u8>>,
    order: Seq<(usize, usize)>,
    k: int,
    budget: nat,
)
    requires
        well_shaped(g),
        all_on_board(order),
    ensures
        empty_cells(g) <= empty_cells(carved(g, order, k, budget)) <= empty_cells(g) + budget,
    decreases order.len() - k,
{
    if !(k < 0 || k >= order.len() || budget == 0) {
        let r = order[k].0 as int;
        let c = order[k].1 as int;
        if g[r][c] != 0 && unique(place(g, r, c, 0)) {
            lemma_clearing_adds_one(g, r, c, 81);
            lemma_carved_within_budget(place(g, r, c, 0), order, k + 1, (budget - 1) as nat);
        } else {
            lemma_carved_within_budget(g, order, k + 1, budget);
        }
    }
}

/// A solved grid completes every puzzle that holds nothing but some of its
/// digits.
pub proof fn lemma_solved_fills_weakening(g: Seq<Seq<u8>>, p: Seq<Seq<u8>>)
    requires
        solved(g),
        well_shaped(p),
        forall|r: int, c: int| on_board(r, c) ==> #[trigger] p[r][c] == 0 || p[r][c] == g[r][c],
    ensures
        fills(p, g),
{
    assert forall|r: int, c: int, i: int, j: int|
        on_board(r, c) && on_board(i, j) && in_sight(i, j, r, c) && (i != r || j != c) && p[r][c]
            == 0 implies #[trigger] g[r][c] != #[trigger] g[i][j] by {
        assert(in_sight(r, c, i, j));
        assert(g[r][c] != 0);
    }
}

/// A puzzle with exactly one solution that holds nothing but some digits of
/// a solved grid has that grid as its solution, and no other.
pub proof fn lemma_puzzle_has_its_solution(g: Seq<Seq<u8>>, p: Seq<Seq<u8>>)
    requires
        solved(g),
        well_shaped(p),
        forall|r: int, c: int| on_board(r, c) ==> #[trigger] p[r][c] == 0 || p[r][c] == g[r][c],
        unique(p),
    ensures
        fills(p, g),
        forall|t: Seq<Seq<u8>>| #[trigger] fills(p, t) ==> t == g,
{
    lemma_solved_fills_weakening(g, p);
    lemma_unique_means_one_completion(p);
}

/// With nothing to clear, carving returns the grid as it is.
pub proof fn lemma_carved_nothing(g: Seq<Seq<u8>>, order: Seq<(usize, usize)>, k: int)
    ensures
        carved(g, order, k, 0) == g,
{
}

/// Carves the grid along a given visiting order, clearing at most
/// `max_removed` cells. A cell is cleared only if the puzzle keeps exactly one
/// solution without it.
pub fn carve_in_order(grid: Vec<Vec<u8>>, order: &Vec<(usize, usize)>, max_removed: usize) -> (puzzle:
    Vec<Vec<u8>>)
    requires
        well_shaped(cells(&grid)),
        all_on_board(order@),
    ensures
        cells(&puzzle) == carved(cells(&grid), order@, 0, max_removed as nat),
{
    let ghost start = cells(&grid);
    let mut grid = grid;
    let mut removed_count: usize = 0;
    let mut k: usize = 0;
    while k < order.len() && removed_count < max_removed
        invariant
            k <= order@.len(),
            removed_count <= k,
            removed_count <= max_removed,
            well_shaped(cells(&grid)),
            all_on_board(order@),
            carved(cells(&grid), order@, k as int, (max_removed - removed_count) as nat) == carved(
                start,
                order@,
                0,
                max_removed as nat,
            ),
        decreases order@.len() - k,
    {
        let (i, j) = order[k];
        let ghost g = cells(&grid);
        proof {
            shape_of(&grid);
        }
        if grid[i][j] != 0 {
            let backup = grid[i][j];
            set_cell(&mut grid, i, j, 0);
            removed_count += 1;
            if !has_unique_solution(&grid) {
                set_cell(&mut grid, i, j, backup);
                removed_count -= 1;
                proof {
                    lemma_place_again(g, i as int, j as int, 0, backup);
                    lemma_place_same(g, i as int, j as int);
                }
            }
        }
        k += 1;
    }
    grid
}

/// The 81 positions in row-major order.
fn board_positions() -> (positions: Vec<(usize, usize)>)
    ensures
        positions@ == all_positions(),
{
    let mut positions: Vec<(usize, usize)> = Vec::new();
    let mut i: usize = 0;
    while i < 9
        invariant
            i <= 9,
            positions@.len() == 9 * i,
            forall|k: int| 0 <= k < 9 * i ==> #[trigger] positions@[k] == all_positions()[k],
        decreases 9 - i,
    {
        let mut j: usize = 0;
        while j < 9
            invariant
                i < 9,
                j <= 9,
                positions@.len() == 9 * i + j,
                forall|k: int| 0 <= k < 9 * i + j ==> #[trigger] positions@[k] == all_positions()[k],
            decreases 9 - j,
        {
            positions.push((i, j));
            j += 1;
        }
        i += 1;
    }
    assert(positions@ =~= all_positions());
    positions
}

/// A reordering of the 81 positions holds positions of the board only.
pub proof fn lemma_reordered_positions(order: Seq<(usize, usize)>)
    requires
        order.to_multiset() == all_positions().to_multiset(),
    ensures
        order.len() == 81,
        all_on_board(order),
{
    order.to_multiset_ensures();
    all_positions().to_multiset_ensures();
    assert forall|k: int| 0 <= k < order.len() implies on_board(
        (#[trigger] order[k]).0 as int,
        order[k].1 as int,
    ) by {
        assert(order.contains(order[k]));
        assert(order.to_multiset().count(order[k]) > 0);
        assert(all_positions().to_multiset().count(order[k]) > 0);
        assert(all_positions().contains(order[k]));
        let q = choose|q: int| 0 <= q < 81 && all_positions()[q] == order[k];
        assert(all_positions()[q] == ((q / 9) as usize, (q % 9) as usize));
    }
}

/// Carves a puzzle out of the grid: visits the 81 positions in a random order
/// and clears up to `max_removed` cells, each only if the puzzle keeps exactly
/// one solution without it. No digit is added or changed; with nothing to
/// clear the grid comes back as it is; and a grid that had exactly one
/// solution is carved into a puzzle that has exactly one.
pub fn create_puzzle_with(grid: Vec<Vec<u8>>, max_removed: usize) -> (puzzle: Vec<Vec<u8>>)
    requires
        well_shaped(cells(&grid)),
    ensures
        exists|order: Seq<(usize, usize)>|
            order.to_multiset() == all_positions().to_multiset() && cells(&puzzle) == #[trigger] carved(
                cells(&grid),
                order,
                0,
                max_removed as nat,
            ),
        well_shaped(cells(&puzzle)),
        forall|r: int, c: int|
            on_board(r, c) ==> #[trigger] cells(&puzzle)[r][c] == 0 || cells(&puzzle)[r][c] == cells(
                &grid,
            )[r][c],
        unique(cells(&grid)) || full(cells(&grid)) ==> unique(cells(&puzzle)),
        cells(&puzzle) == cells(&grid) || unique(cells(&puzzle)),
        max_removed == 0 ==> cells(&puzzle) == cells(&grid),
        empty_cells(cells(&puzzle)) <= empty_cells(cells(&grid)) + max_removed,
        solved(cells(&grid)) ==> fills(cells(&puzzle), cells(&grid)),
        solved(cells(&grid)) ==> forall|t: Seq<Seq<u8>>| #[trigger]
            fills(cells(&puzzle), t) ==> t == cells(&grid),
{
    let mut rng = thread_rng();
    let mut positions = board_positions();
    shuffle(&mut positions, &mut rng);
    proof {
        lemma_reordered_positions(positions@);
        lemma_carved_weakens(cells(&grid), positions@, 0, max_removed as nat);
        lemma_carved_changed_is_unique(cells(&grid), positions@, 0, max_removed as nat);
        lemma_carved_within_budget(cells(&grid), positions@, 0, max_removed as nat);
        if full(cells(&grid)) {
            lemma_full_has_one_completion(cells(&grid), 0, 0);
        }
        if unique(cells(&grid)) {
            lemma_carved_unique(cells(&grid), positions@, 0, max_removed as nat);
        }
        if solved(cells(&grid)) {
            lemma_puzzle_has_its_solution(
                cells(&grid),
                carved(cells(&grid), positions@, 0, max_removed as nat),
            );
        }
    }
    carve_in_order(grid, &positions, max_removed)
}

/// Carves a puzzle of medium difficulty: `create_puzzle_with` for up to 45
/// cleared cells.
pub fn create_puzzle(grid: Vec<Vec<u8>>) -> (puzzle: Vec<Vec<u8>>)
    requires
        well_shaped(cells(&grid)),
    ensures
        exists|order: Seq<(usize, usize)>|
            order.to_multiset() == all_positions().to_multiset() && cells(&puzzle) == #[trigger] carved(
                cells(&grid),
                order,
                0,
                45,
            ),
        well_shaped(cells(&puzzle)),
        forall|r: int, c: int|
            on_board(r, c) ==> #[trigger] cells(&puzzle)[r][c] == 0 || cells(&puzzle)[r][c] == cells(
                &grid,
            )[r][c],
        unique(cells(&grid)) || full(cells(&grid)) ==> unique(cells(&puzzle)),
        cells(&puzzle) == cells(&grid) || unique(cells(&puzzle)),
        empty_cells(cells(&puzzle)) <= empty_cells(cells(&grid)) + 45,
        solved(cells(&grid)) ==> fills(cells(&puzzle), cells(&grid)),
        solved(cells(&grid)) ==> forall|t: Seq<Seq<u8>>| #[trigger]
            fills(cells(&puzzle), t) ==> t == cells(&grid),
{
    create_puzzle_with(grid, 45)
}

/// `nums` holds the digits 1 to 9, each once, in some order.
pub open spec fn is_digit_order(nums: Seq<u8>) -> bool {
    nums.to_multiset() == digits().to_multiset()
}

/// An order of the digits has nine entries from 1 to 9, none twice, and
/// every digit among them.
pub proof fn lemma_digit_order(nums: Seq<u8>)
    requires
        is_digit_order(nums),
    ensures
        nums.len() == 9,
        nums.no_duplicates(),
        forall|k: int| 0 <= k < 9 ==> 1 <= #[trigger] nums[k] <= 9,
        forall|d: u8| 1 <= d <= 9 ==> nums.contains(d),
{
    nums.to_multiset_ensures();
    digits().to_multiset_ensures();
    assert forall|k: int| 0 <= k < 9 implies 1 <= #[trigger] nums[k] <= 9 by {
        assert(nums.contains(nums[k]));
        assert(nums.to_multiset().count(nums[k]) > 0);
        assert(digits().to_multiset().count(nums[k]) > 0);
        assert(digits().contains(nums[k]));
    }
    assert forall|d: u8| 1 <= d <= 9 implies nums.contains(d) by {
        assert(digits()[d - 1] == d);
        assert(digits().contains(d));
        assert(digits().to_multiset().count(d) > 0);
        assert(nums.to_multiset().count(d) > 0);
    }
    assert(digits().no_duplicates());
    digits().lemma_multiset_has_no_duplicates();
    nums.lemma_multiset_has_no_duplicates_conv();
}

/// The digits 1 to 9 in ascending order.
fn ascending_digits() -> (nums: Vec<u8>)
    ensures
        nums@ == digits(),
{
    let mut nums: Vec<u8> = Vec::new();
    let mut d: u8 = 1;
    while d <= 9
        invariant
            1 <= d <= 10,
            nums@.len() == d - 1,
            forall|k: int| 0 <= k < d - 1 ==> #[trigger] nums@[k] == k + 1,
        decreases 10 - d,
    {
        nums.push(d);
        d += 1;
    }
    assert(nums@ =~= digits());
    nums
}

/// The digits 1 to 9 in a random order.
fn shuffled_digits() -> (nums: Vec<u8>)
    ensures
        is_digit_order(nums@),
{
    let mut rng = thread_rng();
    let mut nums = ascending_digits();
    shuffle(&mut nums, &mut rng);
    nums
}

/// The grid in which the 3x3 square with its upper left corner at
/// `(start, start)` holds `nums`, row by row, and every other cell is as in `g`.
pub open spec fn seeded(g: Seq<Seq<u8>>, start: int, nums: Seq<u8>) -> Seq<Seq<u8>> {
    Seq::new(
        9,
        |r: int|
            Seq::new(
                9,
                |c: int|
                    if start <= r < start + 3 && start <= c < start + 3 {
                        nums[3 * (r - start) + (c - start)]
                    } else {
                        g[r][c]
                    },
            ),
    )
}

/// Writes the nine values of `nums` into the 3x3 square at `(start, start)`.
pub fn fill_subgrid_with(grid: &mut Vec<Vec<u8>>, start: usize, nums: &Vec<u8>)
    requires
        well_shaped(cells(old(grid))),
        start <= 6,
        nums@.len() == 9,
    ensures
        cells(final(grid)) == seeded(cells(old(grid)), start as int, nums@),
{
    let ghost g = cells(grid);
    let mut i: usize = 0;
    while i < 3
        invariant
            i <= 3,
            start <= 6,
            nums@.len() == 9,
            well_shaped(g),
            well_shaped(cells(grid)),
            forall|r: int, c: int|
                on_board(r, c) ==> #[trigger] cells(grid)[r][c] == (if start <= r < start + i && start
                    <= c < start + 3 {
                    nums@[3 * (r - start) + (c - start)]
                } else {
                    g[r][c]
                }),
        decreases 3 - i,
    {
        let mut j: usize = 0;
        while j < 3
            invariant
                i < 3,
                j <= 3,
                start <= 6,
                nums@.len() == 9,
                well_shaped(g),
                well_shaped(cells(grid)),
                forall|r: int, c: int|
                    on_board(r, c) ==> #[trigger] cells(grid)[r][c] == (if (start <= r < start + i
                        && start <= c < start + 3) || (r == start + i && start <= c < start + j) {
                        nums@[3 * (r - start) + (c - start)]
                    } else {
                        g[r][c]
                    }),
            decreases 3 - j,
        {
            set_cell(grid, start + i, start + j, nums[i * 3 + j]);
            j += 1;
        }
        i += 1;
    }
    assert forall|r: int| 0 <= r < 9 implies #[trigger] cells(grid)[r] == seeded(g, start as int, nums@)[r] by {
        assert(cells(grid)[r].len() == 9);
        assert forall|c: int| 0 <= c < 9 implies cells(grid)[r][c] == seeded(g, start as int, nums@)[r][c] by {
            assert(on_board(r, c));
        }
        assert(cells(grid)[r] =~= seeded(g, start as int, nums@)[r]);
    }
    assert(cells(grid) =~= seeded(g, start as int, nums@));
}

/// Fills the 3x3 square at `(start, start)` with the digits 1 to 9 in a
/// random order.
pub fn fill_subgrid(grid: &mut Vec<Vec<u8>>, start: usize)
    requires
        well_shaped(cells(old(grid))),
        start <= 6,
    ensures
        exists|nums: Seq<u8>|
            is_digit_order(nums) && cells(final(grid)) == #[trigger] seeded(
                cells(old(grid)),
                start as int,
                nums,
            ),
{
    let nums = shuffled_digits();
    proof {
        lemma_digit_order(nums@);
    }
    fill_subgrid_with(grid, start, &nums);
}

/// The row-major index of the first empty cell at or after index `from`, or
/// 81 where there is none.
pub open spec fn first_empty(g: Seq<Seq<u8>>, from: int) -> int
    decreases 81 - from,
{
    if from < 0 || from >= 81 {
        81
    } else if g[from / 9][from % 9] == 0 {
        from
    } else {
        first_empty(g, from + 1)
    }
}

/// Where every cell before index `p` is filled, the first empty cell is not
/// before `p`; it is at `p` if that cell is empty.
proof fn lemma_first_empty(g: Seq<Seq<u8>>, from: int, p: int)
    requires
        0 <= from <= p <= 81,
        forall|r: int, c: int| on_board(r, c) && 9 * r + c < p ==> #[trigger] g[r][c] != 0,
    ensures
        first_empty(g, from) >= p,
        first_empty(g, from) <= 81,
        p < 81 && g[p / 9][p % 9] == 0 ==> first_empty(g, from) == p,
    decreases p - from,
{
    if from < p {
        assert(on_board(from / 9, from % 9));
        lemma_first_empty(g, from + 1, p);
    } else if p < 81 && g[p / 9][p % 9] != 0 {
        lemma_first_empty_bound(g, from + 1);
    }
}

/// The first empty cell is never before the index the search starts at.
proof fn lemma_first_empty_bound(g: Seq<Seq<u8>>, from: int)
    requires
        0 <= from,
    ensures
        from <= first_empty(g, from) <= 81 || (from > 81 && first_empty(g, from) == 81),
    decreases 81 - from,
{
    if from < 81 && g[from / 9][from % 9] != 0 {
        lemma_first_empty_bound(g, from + 1);
    }
}

/// A grid without an empty cell fills itself.
pub proof fn lemma_fills_itself(g: Seq<Seq<u8>>)
    requires
        well_shaped(g),
        forall|r: int, c: int| on_board(r, c) ==> #[trigger] g[r][c] != 0,
    ensures
        fills(g, g),
{
}

/// A completion of the grid with one more legal digit placed is a completion
/// of the grid.
pub proof fn lemma_fills_after_placing(g: Seq<Seq<u8>>, r: int, c: int, d: u8, s: Seq<Seq<u8>>)
    requires
        well_shaped(g),
        on_board(r, c),
        g[r][c] == 0,
        1 <= d <= 9,
        !occurs_in_sight(g, r, c, d),
        fills(place(g, r, c, d), s),
    ensures
        fills(g, s),
{
    let p = place(g, r, c, d);
    assert forall|a: int, b: int| on_board(a, b) implies #[trigger] p[a][b] == (if a == r && b == c {
        d
    } else {
        g[a][b]
    }) by {}
    assert(s[r][c] == p[r][c]);
    assert forall|a: int, b: int, i: int, j: int|
        on_board(a, b) && on_board(i, j) && in_sight(i, j, a, b) && (i != a || j != b) && g[a][b]
            == 0 implies #[trigger] s[a][b] != #[trigger] s[i][j] by {
        if a == r && b == c {
            if p[i][j] == 0 {
                assert(in_sight(a, b, i, j));
                assert(s[i][j] != s[a][b]);
            } else {
                assert(s[i][j] == p[i][j]);
                assert(g[i][j] == p[i][j]);
                assert(g[i][j] != d);
            }
        } else {
            assert(p[a][b] == 0);
        }
    }
    assert forall|a: int, b: int| on_board(a, b) && g[a][b] != 0 implies #[trigger] s[a][b] == g[a][b] by {
        assert(p[a][b] == g[a][b]);
    }
    assert forall|a: int, b: int| on_board(a, b) && g[a][b] == 0 implies 1 <= #[trigger] s[a][b] <= 9 by {
        if !(a == r && b == c) {
            assert(p[a][b] == 0);
        }
    }
}

/// A completion of the grid holds, at an empty cell, a digit that is legal
/// there, and is a completion of the grid with that digit placed.
pub proof fn lemma_fills_before_placing(g: Seq<Seq<u8>>, r: int, c: int, s: Seq<Seq<u8>>)
    requires
        well_shaped(g),
        on_board(r, c),
        g[r][c] == 0,
        fills(g, s),
    ensures
        1 <= s[r][c] <= 9,
        !occurs_in_sight(g, r, c, s[r][c]),
        fills(place(g, r, c, s[r][c]), s),
{
    let d = s[r][c];
    let p = place(g, r, c, d);
    assert forall|a: int, b: int| on_board(a, b) implies #[trigger] p[a][b] == (if a == r && b == c {
        d
    } else {
        g[a][b]
    }) by {}
    assert forall|i: int, j: int| on_board(i, j) && in_sight(i, j, r, c) implies #[trigger] g[i][j] != d by {
        if i == r && j == c {
        } else if g[i][j] != 0 {
            assert(s[i][j] == g[i][j]);
            assert(s[r][c] != s[i][j]);
        }
    }
    assert forall|a: int, b: int| on_board(a, b) && p[a][b] != 0 implies #[trigger] s[a][b] == p[a][b] by {
        if !(a == r && b == c) {
            assert(g[a][b] == p[a][b]);
        }
    }
    assert forall|a: int, b: int| on_board(a, b) && p[a][b] == 0 implies 1 <= #[trigger] s[a][b] <= 9 by {
        assert(g[a][b] == 0);
    }
    assert forall|a: int, b: int, i: int, j: int|
        on_board(a, b) && on_board(i, j) && in_sight(i, j, a, b) && (i != a || j != b) && p[a][b]
            == 0 implies #[trigger] s[a][b] != #[trigger] s[i][j] by {
        assert(g[a][b] == 0);
    }
}

/// Some completion of the grid holds `d` at `(r, c)`.
pub open spec fn fills_with(g: Seq<Seq<u8>>, r: int, c: int, d: u8) -> bool {
    exists|s: Seq<Seq<u8>>| #[trigger] fills(g, s) && s[r][c] == d
}

/// Fills the empty cells of the grid by backtracking: the first empty cell in
/// row-major order takes the digits in a random order, each only where it is
/// legal, until the rest can be filled too. Succeeds exactly when the grid has
/// a completion, and then leaves one in the grid; a grid without one is left
/// as it was.
pub fn fill_remaining(grid: &mut Vec<Vec<u8>>) -> (ok: bool)
    requires
        well_shaped(cells(old(grid))),
    ensures
        ok <==> exists|s: Seq<Seq<u8>>| fills(cells(old(grid)), s),
        ok <==> completions(cells(old(grid)), 0, 0) >= 1,
        ok ==> fills(cells(old(grid)), cells(final(grid))),
        !ok ==> cells(final(grid)) == cells(old(grid)),
    decreases 81 - first_empty(cells(old(grid)), 0),
{
    let ghost g = cells(grid);
    proof {
        lemma_solvable_means_counted(g);
    }
    let mut row: usize = 0;
    while row < 9
        invariant
            row <= 9,
            g == cells(grid),
            g == cells(old(grid)),
            well_shaped(g),
            completions(g, 0, 0) >= 1 <==> exists|s: Seq<Seq<u8>>| fills(g, s),
            forall|r: int, c: int| on_board(r, c) && r < row ==> #[trigger] g[r][c] != 0,
        decreases 9 - row,
    {
        let mut col: usize = 0;
        while col < 9
            invariant
                row < 9,
                col <= 9,
                g == cells(grid),
                g == cells(old(grid)),
                well_shaped(g),
                completions(g, 0, 0) >= 1 <==> exists|s: Seq<Seq<u8>>| fills(g, s),
                forall|r: int, c: int|
                    on_board(r, c) && 9 * r + c < 9 * row + col ==> #[trigger] g[r][c] != 0,
            decreases 9 - col,
        {
            proof {
                shape_of(grid);
            }
            if grid[row][col] == 0 {
                let nums = shuffled_digits();
                proof {
                    lemma_digit_order(nums@);
                    lemma_first_empty(g, 0, 9 * row + col);
                }
                let mut k: usize = 0;
                while k < 9
                    invariant
                        k <= 9,
                        row < 9,
                        col < 9,
                        g == cells(grid),
                        g == cells(old(grid)),
                        well_shaped(g),
                        g[row as int][col as int] == 0,
                        completions(g, 0, 0) >= 1 <==> exists|s: Seq<Seq<u8>>| fills(g, s),
                        first_empty(g, 0) == 9 * row + col,
                        forall|r: int, c: int|
                            on_board(r, c) && 9 * r + c < 9 * row + col ==> #[trigger] g[r][c] != 0,
                        nums@.len() == 9,
                        forall|i: int| 0 <= i < 9 ==> 1 <= #[trigger] nums@[i] <= 9,
                        forall|d: u8| 1 <= d <= 9 ==> nums@.contains(d),
                        forall|i: int|
                            0 <= i < k ==> !fills_with(g, row as int, col as int, #[trigger] nums@[i]),
                    decreases 9 - k,
                {
                    let num = nums[k];
                    if can_place_number(grid, row, col, num) {
                        set_cell(grid, row, col, num);
                        let ghost p = cells(grid);
                        proof {
                            assert forall|r: int, c: int|
                                on_board(r, c) && 9 * r + c < 9 * row + col + 1 implies #[trigger] p[r][c]
                                != 0 by {
                                if !(r == row && c == col) {
                                    assert(p[r][c] == g[r][c]);
                                }
                            }
                            lemma_first_empty(p, 0, 9 * row + col + 1);
                        }
                        if fill_remaining(grid) {
                            proof {
                                lemma_fills_after_placing(g, row as int, col as int, num, cells(grid));
                            }
                            return true;
                        }
                        set_cell(grid, row, col, 0);
                        proof {
                            lemma_place_again(g, row as int, col as int, num, 0);
                            lemma_place_same(g, row as int, col as int);
                            if fills_with(g, row as int, col as int, num) {
                                let s = choose|s: Seq<Seq<u8>>| #[trigger]
                                    fills(g, s) && s[row as int][col as int] == num;
                                lemma_fills_before_placing(g, row as int, col as int, s);
                            }
                        }
                    } else {
                        proof {
                            if fills_with(g, row as int, col as int, num) {
                                let s = choose|s: Seq<Seq<u8>>| #[trigger]
                                    fills(g, s) && s[row as int][col as int] == num;
                                lemma_fills_before_placing(g, row as int, col as int, s);
                            }
                        }
                    }
                    k += 1;
                }
                proof {
                    if exists|s: Seq<Seq<u8>>| fills(g, s) {
                        let s = choose|s: Seq<Seq<u8>>| fills(g, s);
                        lemma_fills_before_placing(g, row as int, col as int, s);
                        let d = s[row as int][col as int];
                        assert(nums@.contains(d));
                        let i = choose|i: int| 0 <= i < 9 && nums@[i] == d;
                        assert(fills_with(g, row as int, col as int, nums@[i]));
                    }
                }
                return false;
            }
            col += 1;
        }
        row += 1;
    }
    proof {
        lemma_fills_itself(g);
    }
    true
}

/// The position lies in one of the diagonal boxes whose first row is
/// before `upto`.
pub open spec fn in_seeded_box(r: int, c: int, upto: int) -> bool {
    on_board(r, c) && r / 3 == c / 3 && 3 * (r / 3) < upto
}

/// The diagonal boxes whose first row is before `upto` each hold the digits 1
/// to 9, none twice, and every other cell is empty.
pub open spec fn diagonal_seeded(g: Seq<Seq<u8>>, upto: int) -> bool {
    &&& well_shaped(g)
    &&& forall|r: int, c: int|
        on_board(r, c) ==> (if in_seeded_box(r, c, upto) {
            1 <= #[trigger] g[r][c] <= 9
        } else {
            g[r][c] == 0
        })
    &&& forall|r1: int, c1: int, r2: int, c2: int|
        in_seeded_box(r1, c1, upto) && in_seeded_box(r2, c2, upto) && r1 / 3 == r2 / 3 && (r1 != r2
            || c1 != c2) ==> #[trigger] g[r1][c1] != #[trigger] g[r2][c2]
}

/// Seeding the next diagonal box with an order of the digits keeps the
/// diagonal boxes seeded.
pub proof fn lemma_seed_next_box(g: Seq<Seq<u8>>, start: int, nums: Seq<u8>)
    requires
        start == 0 || start == 3 || start == 6,
        diagonal_seeded(g, start),
        is_digit_order(nums),
    ensures
        diagonal_seeded(seeded(g, start, nums), start + 1),
        diagonal_seeded(seeded(g, start, nums), start + 3),
{
    lemma_digit_order(nums);
    let t = seeded(g, start, nums);
    assert forall|r: int, c: int| on_board(r, c) implies #[trigger] t[r][c] == (if start <= r < start + 3
        && start <= c < start + 3 {
        nums[3 * (r - start) + (c - start)]
    } else {
        g[r][c]
    }) by {}
    assert forall|r: int, c: int| on_board(r, c) implies (if in_seeded_box(r, c, start + 1) {
        1 <= #[trigger] t[r][c] <= 9
    } else {
        t[r][c] == 0
    }) by {
        if !(start <= r < start + 3 && start <= c < start + 3) {
            assert(t[r][c] == g[r][c]);
        }
    }
    assert forall|r1: int, c1: int, r2: int, c2: int|
        in_seeded_box(r1, c1, start + 1) && in_seeded_box(r2, c2, start + 1) && r1 / 3 == r2 / 3 && (
        r1 != r2 || c1 != c2) implies #[trigger] t[r1][c1] != #[trigger] t[r2][c2] by {
        if start <= r1 < start + 3 {
            let a = 3 * (r1 - start) + (c1 - start);
            let b = 3 * (r2 - start) + (c2 - start);
            assert(t[r1][c1] == nums[a]);
            assert(t[r2][c2] == nums[b]);
            assert(a != b);
        } else {
            assert(t[r1][c1] == g[r1][c1]);
            assert(t[r2][c2] == g[r2][c2]);
        }
    }
}

/// A grid whose three diagonal boxes are seeded holds no digit twice in a
/// row, a column or a box, so each of its completions is a solved grid.
pub proof fn lemma_seeded_completion_solved(g: Seq<Seq<u8>>, s: Seq<Seq<u8>>)
    requires
        diagonal_seeded(g, 9),
        fills(g, s),
    ensures
        solved(s),
{
    assert forall|r: int, c: int| on_board(r, c) implies 1 <= #[trigger] s[r][c] <= 9 by {
        if g[r][c] != 0 {
            assert(in_seeded_box(r, c, 9));
        }
    }
    assert forall|r1: int, c1: int, r2: int, c2: int|
        on_board(r1, c1) && on_board(r2, c2) && in_sight(r1, c1, r2, c2) && (r1 != r2 || c1 != c2)
            && #[trigger] s[r1][c1] != 0 implies s[r1][c1] != #[trigger] s[r2][c2] by {
        if g[r1][c1] == 0 {
            assert(in_sight(r2, c2, r1, c1));
        } else if g[r2][c2] == 0 {
            assert(s[r2][c2] != s[r1][c1]);
        } else {
            assert(in_seeded_box(r1, c1, 9) && in_seeded_box(r2, c2, 9));
            assert(g[r1][c1] != g[r2][c2]);
            assert(s[r1][c1] == g[r1][c1]);
            assert(s[r2][c2] == g[r2][c2]);
        }
    }
}

/// A grid of 81 empty cells.
fn empty_grid() -> (grid: Vec<Vec<u8>>)
    ensures
        well_shaped(cells(&grid)),
        blank(cells(&grid)),
{
    let mut grid: Vec<Vec<u8>> = Vec::new();
    let mut r: usize = 0;
    while r < 9
        invariant
            r <= 9,
            grid@.len() == r,
            forall|i: int| 0 <= i < r ==> (#[trigger] grid@[i])@.len() == 9,
            forall|i: int, j: int| 0 <= i < r && 0 <= j < 9 ==> (#[trigger] grid@[i]@[j]) == 0,
        decreases 9 - r,
    {
        let mut line: Vec<u8> = Vec::new();
        let mut c: usize = 0;
        while c < 9
            invariant
                c <= 9,
                line@.len() == c,
                forall|j: int| 0 <= j < c ==> #[trigger] line@[j] == 0,
            decreases 9 - c,
        {
            line.push(0);
            c += 1;
        }
        grid.push(line);
        r += 1;
    }
    assert forall|i: int, j: int| on_board(i, j) implies #[trigger] cells(&grid)[i][j] == 0 by {
        assert(grid@[i]@[j] == 0);
    }
    grid
}

/// Generates a random solved grid. The three diagonal boxes are each seeded
/// with the digits in a random order, and the rest is filled by backtracking.
/// The result is a solved grid, or, should the seeded grid have no completion,
/// a grid of empty cells.
pub fn generate_sudoku() -> (grid: Vec<Vec<u8>>)
    ensures
        well_shaped(cells(&grid)),
        solved(cells(&grid)) || blank(cells(&grid)),
        complete(cells(&grid)) || blank(cells(&grid)),
        exists|seed: Seq<Seq<u8>>| #[trigger]
            diagonal_seeded(seed, 9) && (if exists|s: Seq<Seq<u8>>| fills(seed, s) {
                fills(seed, cells(&grid))
            } else {
                blank(cells(&grid))
            }),
{
    let mut grid = empty_grid();
    let mut i: usize = 0;
    while i < 9
        invariant
            i <= 9,
            diagonal_seeded(cells(&grid), i as int),
        decreases 9 - i,
    {
        if i % 3 == 0 {
            let ghost before = cells(&grid);
            fill_subgrid(&mut grid, i);
            proof {
                let nums = choose|nums: Seq<u8>|
                    is_digit_order(nums) && cells(&grid) == #[trigger] seeded(before, i as int, nums);
                lemma_seed_next_box(before, i as int, nums);
            }
        }
        i += 1;
    }
    let ghost seed = cells(&grid);
    if fill_remaining(&mut grid) {
        proof {
            lemma_seeded_completion_solved(seed, cells(&grid));
            lemma_solved_is_complete(cells(&grid));
        }
        grid
    } else {
        empty_grid()
    }
}

} // verus!
