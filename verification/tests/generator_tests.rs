use sudoku_generator::generator::{
    can_place_number, carve_in_order, create_puzzle, create_puzzle_with, fill_remaining,
    fill_subgrid, fill_subgrid_with, generate_sudoku, has_unique_solution, solve_sudoku,
};

fn solved_fixture() -> Vec<Vec<u8>> {
    vec![
        vec![5, 3, 4, 6, 7, 8, 9, 1, 2],
        vec![6, 7, 2, 1, 9, 5, 3, 4, 8],
        vec![1, 9, 8, 3, 4, 2, 5, 6, 7],
        vec![8, 5, 9, 7, 6, 1, 4, 2, 3],
        vec![4, 2, 6, 8, 5, 3, 7, 9, 1],
        vec![7, 1, 3, 9, 2, 4, 8, 5, 6],
        vec![9, 6, 1, 5, 3, 7, 2, 8, 4],
        vec![2, 8, 7, 4, 1, 9, 6, 3, 5],
        vec![3, 4, 5, 2, 8, 6, 1, 7, 9],
    ]
}

fn empty_fixture() -> Vec<Vec<u8>> {
    vec![vec![0u8; 9]; 9]
}

fn is_complete(grid: &Vec<Vec<u8>>) -> bool {
    if grid.len() != 9 || grid.iter().any(|row| row.len() != 9) {
        return false;
    }
    for k in 0..9 {
        let mut row = [false; 10];
        let mut col = [false; 10];
        let mut boxed = [false; 10];
        for m in 0..9 {
            let a = grid[k][m] as usize;
            let b = grid[m][k] as usize;
            let c = grid[3 * (k / 3) + m / 3][3 * (k % 3) + m % 3] as usize;
            if a < 1 || a > 9 || b < 1 || b > 9 || c < 1 || c > 9 {
                return false;
            }
            if row[a] || col[b] || boxed[c] {
                return false;
            }
            row[a] = true;
            col[b] = true;
            boxed[c] = true;
        }
    }
    true
}

fn count_empty(grid: &Vec<Vec<u8>>) -> usize {
    grid.iter().map(|row| row.iter().filter(|v| **v == 0).count()).sum()
}

fn is_weakening(puzzle: &Vec<Vec<u8>>, solved: &Vec<Vec<u8>>) -> bool {
    (0..9).all(|r| (0..9).all(|c| puzzle[r][c] == 0 || puzzle[r][c] == solved[r][c]))
}

#[test]
fn can_place_rejects_digit_in_row() {
    let mut grid = empty_fixture();
    grid[2][7] = 4;
    assert!(!can_place_number(&grid, 2, 0, 4));
}

#[test]
fn can_place_rejects_digit_in_column() {
    let mut grid = empty_fixture();
    grid[8][3] = 6;
    assert!(!can_place_number(&grid, 0, 3, 6));
}

#[test]
fn can_place_rejects_digit_in_box() {
    let mut grid = empty_fixture();
    grid[4][4] = 9;
    assert!(!can_place_number(&grid, 3, 5, 9));
    assert!(!can_place_number(&grid, 5, 3, 9));
}

#[test]
fn can_place_rejects_digit_in_the_cell_itself() {
    let mut grid = empty_fixture();
    grid[1][1] = 2;
    assert!(!can_place_number(&grid, 1, 1, 2));
}

#[test]
fn can_place_accepts_absent_digit() {
    let mut grid = empty_fixture();
    grid[4][4] = 9;
    assert!(can_place_number(&grid, 0, 0, 9));
    assert!(can_place_number(&grid, 3, 6, 9));
    assert!(!can_place_number(&grid, 4, 6, 9));
    assert!(can_place_number(&grid, 6, 3, 9));
    assert!(can_place_number(&grid, 4, 5, 1));
}

#[test]
fn can_place_follows_the_fixture() {
    let mut grid = solved_fixture();
    let held = grid[4][4];
    grid[4][4] = 0;
    for d in 1..=9u8 {
        assert_eq!(can_place_number(&grid, 4, 4, d), d == held);
    }
}

#[test]
fn can_place_is_repeatable_and_reads_only() {
    let mut grid = solved_fixture();
    grid[0][0] = 0;
    let before = grid.clone();
    let first = can_place_number(&grid, 0, 0, 5);
    let second = can_place_number(&grid, 0, 0, 5);
    assert!(first);
    assert_eq!(first, second);
    assert_eq!(grid, before);
}

#[test]
fn count_is_one_for_a_single_determined_cell() {
    let mut grid = solved_fixture();
    grid[6][2] = 0;
    let before = grid.clone();
    assert_eq!(solve_sudoku(&mut grid, 0, 0), 1);
    assert_eq!(grid, before);
    assert!(has_unique_solution(&grid));
}

#[test]
fn count_is_one_for_a_full_grid() {
    let mut grid = solved_fixture();
    assert_eq!(solve_sudoku(&mut grid, 0, 0), 1);
    assert_eq!(grid, solved_fixture());
}

#[test]
fn count_past_the_last_row_is_one() {
    let mut grid = empty_fixture();
    assert_eq!(solve_sudoku(&mut grid, 9, 0), 1);
}

#[test]
fn count_is_zero_without_a_legal_digit() {
    let mut grid = empty_fixture();
    for c in 1..9 {
        grid[0][c] = c as u8;
    }
    grid[1][0] = 9;
    let before = grid.clone();
    assert_eq!(solve_sudoku(&mut grid, 0, 0), 0);
    assert_eq!(grid, before);
    assert!(!has_unique_solution(&grid));
}

#[test]
fn count_stops_at_two_for_interchangeable_digits() {
    let mut grid = solved_fixture();
    for r in 0..9 {
        for c in 0..9 {
            if grid[r][c] == 1 || grid[r][c] == 2 {
                grid[r][c] = 0;
            }
        }
    }
    let before = grid.clone();
    let n = solve_sudoku(&mut grid, 0, 0);
    assert!(n >= 2);
    assert!(n <= 82);
    assert_eq!(grid, before);
    assert!(!has_unique_solution(&grid));
}

#[test]
fn count_of_the_empty_grid_stops_early() {
    let mut grid = empty_fixture();
    let n = solve_sudoku(&mut grid, 0, 0);
    assert!(n >= 2);
    assert_eq!(grid, empty_fixture());
}

#[test]
fn count_from_a_later_cell_skips_what_lies_before() {
    let mut grid = solved_fixture();
    grid[0][0] = 0;
    grid[8][8] = 0;
    assert_eq!(solve_sudoku(&mut grid, 4, 0), 1);
    assert_eq!(grid[0][0], 0);
    assert_eq!(grid[8][8], 0);
}

#[test]
fn generated_grid_is_complete() {
    for _ in 0..5 {
        let grid = generate_sudoku();
        assert!(is_complete(&grid));
    }
}

#[test]
fn generated_grids_vary() {
    let first = generate_sudoku();
    let mut differs = false;
    for _ in 0..10 {
        if generate_sudoku() != first {
            differs = true;
        }
    }
    assert!(differs);
}

#[test]
fn fill_subgrid_with_writes_row_by_row() {
    let mut grid = empty_fixture();
    let nums: Vec<u8> = vec![9, 8, 7, 6, 5, 4, 3, 2, 1];
    fill_subgrid_with(&mut grid, 3, &nums);
    let mut expected = empty_fixture();
    expected[3][3] = 9;
    expected[3][4] = 8;
    expected[3][5] = 7;
    expected[4][3] = 6;
    expected[4][4] = 5;
    expected[4][5] = 4;
    expected[5][3] = 3;
    expected[5][4] = 2;
    expected[5][5] = 1;
    assert_eq!(grid, expected);
}

#[test]
fn fill_subgrid_places_each_digit_once() {
    let mut seen_other_order = false;
    for _ in 0..20 {
        let mut grid = empty_fixture();
        fill_subgrid(&mut grid, 6);
        let mut held: Vec<u8> = Vec::new();
        for r in 0..9 {
            for c in 0..9 {
                if r >= 6 && c >= 6 {
                    held.push(grid[r][c]);
                } else {
                    assert_eq!(grid[r][c], 0);
                }
            }
        }
        if held != vec![1, 2, 3, 4, 5, 6, 7, 8, 9] {
            seen_other_order = true;
        }
        held.sort();
        assert_eq!(held, vec![1, 2, 3, 4, 5, 6, 7, 8, 9]);
    }
    assert!(seen_other_order);
}

#[test]
fn fill_remaining_completes_a_puzzle() {
    let mut grid = solved_fixture();
    grid[0][0] = 0;
    grid[3][3] = 0;
    grid[8][1] = 0;
    assert!(fill_remaining(&mut grid));
    assert_eq!(grid, solved_fixture());
}

#[test]
fn fill_remaining_fills_the_empty_grid() {
    let mut grid = empty_fixture();
    assert!(fill_remaining(&mut grid));
    assert!(is_complete(&grid));
}

#[test]
fn fill_remaining_reports_failure_and_restores() {
    let mut grid = empty_fixture();
    for c in 1..9 {
        grid[0][c] = c as u8;
    }
    grid[1][0] = 9;
    let before = grid.clone();
    assert!(!fill_remaining(&mut grid));
    assert_eq!(grid, before);
}

#[test]
fn carving_with_no_quota_returns_the_grid() {
    let grid = generate_sudoku();
    let puzzle = create_puzzle_with(grid.clone(), 0);
    assert_eq!(puzzle, grid);
}

#[test]
fn carving_with_a_large_quota_keeps_one_solution() {
    let grid = solved_fixture();
    let puzzle = create_puzzle_with(grid.clone(), 81);
    assert!(has_unique_solution(&puzzle));
    assert!(is_weakening(&puzzle, &grid));
    assert!(count_empty(&puzzle) > 0);
}

#[test]
fn carved_puzzle_is_unique_and_a_weakening() {
    let grid = generate_sudoku();
    let puzzle = create_puzzle(grid.clone());
    assert!(has_unique_solution(&puzzle));
    assert!(is_weakening(&puzzle, &grid));
    assert!(count_empty(&puzzle) <= 45);
    let mut completed = puzzle.clone();
    assert!(fill_remaining(&mut completed));
    assert_eq!(completed, grid);
}

#[test]
fn carved_puzzles_vary() {
    let grid = solved_fixture();
    let first = create_puzzle_with(grid.clone(), 5);
    let mut differs = false;
    for _ in 0..10 {
        if create_puzzle_with(grid.clone(), 5) != first {
            differs = true;
        }
    }
    assert!(differs);
}

#[test]
fn carve_in_order_clears_in_the_given_order() {
    let grid = solved_fixture();
    let order: Vec<(usize, usize)> = vec![(0, 0), (0, 1), (0, 0), (4, 4), (8, 8)];
    let puzzle = carve_in_order(grid.clone(), &order, 3);
    let mut expected = solved_fixture();
    expected[0][0] = 0;
    expected[0][1] = 0;
    expected[4][4] = 0;
    assert_eq!(puzzle, expected);
}

#[test]
fn carve_in_order_keeps_a_cell_that_uniqueness_needs() {
    let mut grid = solved_fixture();
    for r in 0..9 {
        for c in 0..9 {
            if (grid[r][c] == 1 || grid[r][c] == 2) && !(r == 0 && c == 7) {
                grid[r][c] = 0;
            }
        }
    }
    assert!(has_unique_solution(&grid));
    let order: Vec<(usize, usize)> = vec![(0, 7), (0, 0)];
    let puzzle = carve_in_order(grid.clone(), &order, 10);
    let mut expected = grid.clone();
    expected[0][0] = 0;
    assert_eq!(puzzle, expected);
}

#[test]
fn carve_in_order_with_no_positions_changes_nothing() {
    let grid = solved_fixture();
    let order: Vec<(usize, usize)> = Vec::new();
    assert_eq!(carve_in_order(grid.clone(), &order, 45), grid);
}

#[test]
fn carving_the_empty_grid_changes_nothing() {
    let puzzle = create_puzzle(empty_fixture());
    assert_eq!(puzzle, empty_fixture());
}
