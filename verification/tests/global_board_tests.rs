use sudoku_generator::global_board::GlobalBoard;

#[test]
fn new_board_holds_given_values_and_all_digits_elsewhere() {
    let input: Vec<Vec<u8>> = vec![vec![7, 0], vec![3]];
    let board = GlobalBoard::new(input);
    assert_eq!(board.size(), 10);
    assert_eq!(board[(0, 0)], vec![7u8]);
    assert_eq!(board[(0, 1)], vec![0u8]);
    assert_eq!(board[(1, 0)], vec![3u8]);
    assert_eq!(board[(1, 1)], vec![1u8, 2, 3, 4, 5, 6, 7, 8, 9]);
    assert_eq!(board[(0, 2)], vec![1u8, 2, 3, 4, 5, 6, 7, 8, 9]);
    assert_eq!(board[(9, 9)], vec![1u8, 2, 3, 4, 5, 6, 7, 8, 9]);
}

#[test]
fn board_of_a_nine_by_nine_grid_pads_the_tenth_line() {
    let input: Vec<Vec<u8>> = vec![vec![4u8; 9]; 9];
    let board = GlobalBoard::new(input);
    assert_eq!(board[(8, 8)], vec![4u8]);
    assert_eq!(board[(8, 9)], vec![1u8, 2, 3, 4, 5, 6, 7, 8, 9]);
    assert_eq!(board[(9, 0)], vec![1u8, 2, 3, 4, 5, 6, 7, 8, 9]);
}

#[test]
fn index_mut_changes_one_cell() {
    let mut board = GlobalBoard::new(vec![vec![1u8, 2], vec![3, 4]]);
    *board.index_mut((1, 1)) = vec![5, 6];
    board.index_mut((0, 0)).push(9);
    assert_eq!(board[(1, 1)], vec![5u8, 6]);
    assert_eq!(board[(0, 0)], vec![1u8, 9]);
    assert_eq!(board[(1, 0)], vec![3u8]);
    assert_eq!(board[(0, 1)], vec![2u8]);
}

#[test]
fn iterator_walks_row_major_and_stops() {
    let board = GlobalBoard::new(vec![vec![8u8]]);
    let mut it = board.iter();
    assert_eq!(it.next(), Some((0, 0, vec![8u8])));
    assert_eq!(it.next(), Some((0, 1, vec![1u8, 2, 3, 4, 5, 6, 7, 8, 9])));
    for _ in 2..10 {
        assert!(it.next().is_some());
    }
    let entry = it.next();
    assert_eq!(entry, Some((1, 0, vec![1u8, 2, 3, 4, 5, 6, 7, 8, 9])));
    let mut seen = 11;
    while let Some((x, y, _)) = it.next() {
        assert_eq!(x * 10 + y, seen);
        seen += 1;
    }
    assert_eq!(seen, 100);
    assert_eq!(it.next(), None);
    assert_eq!(it.next(), None);
}

#[test]
fn render_draws_rules_and_bars() {
    let mut input: Vec<Vec<u8>> = Vec::new();
    for r in 0..9u8 {
        let mut row: Vec<u8> = Vec::new();
        for c in 0..9u8 {
            row.push((r + c) % 10);
        }
        input.push(row);
    }
    let board = GlobalBoard::new(input);
    let rule = "---------------------------------\n";
    let mut expected = String::new();
    expected.push_str(rule);
    expected.push_str("| 0  1  2 |  3  4  5 |  6  7  8 | \n");
    expected.push_str("| 1  2  3 |  4  5  6 |  7  8  9 | \n");
    expected.push_str("| 2  3  4 |  5  6  7 |  8  9  0 | \n");
    expected.push_str(rule);
    expected.push_str("| 3  4  5 |  6  7  8 |  9  0  1 | \n");
    expected.push_str("| 4  5  6 |  7  8  9 |  0  1  2 | \n");
    expected.push_str("| 5  6  7 |  8  9  0 |  1  2  3 | \n");
    expected.push_str(rule);
    expected.push_str("| 6  7  8 |  9  0  1 |  2  3  4 | \n");
    expected.push_str("| 7  8  9 |  0  1  2 |  3  4  5 | \n");
    expected.push_str("| 8  9  0 |  1  2  3 |  4  5  6 | \n");
    expected.push_str(rule);
    assert_eq!(board.render(), expected);
}

#[test]
fn render_shows_wide_numbers_in_full() {
    let mut board = GlobalBoard::new(vec![vec![0u8; 9]; 9]);
    *board.index_mut((0, 0)) = vec![42, 1];
    *board.index_mut((0, 1)) = vec![205];
    let text = board.render();
    let second_line: &str = text.lines().nth(1).unwrap();
    assert_eq!(second_line, "|42 205  0 |  0  0  0 |  0  0  0 | ");
    assert_eq!(format!("{:2} {:2} {:2} ", 42u8, 205u8, 0u8), "42 205  0 ");
}
