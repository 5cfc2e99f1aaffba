use sudoku_generator::text::{format_grid, push_decimal, push_decimal_padded};

#[test]
fn decimal_of_each_width() {
    let mut text = String::from("x");
    push_decimal(&mut text, 0);
    push_decimal(&mut text, 7);
    push_decimal(&mut text, 10);
    push_decimal(&mut text, 99);
    push_decimal(&mut text, 100);
    push_decimal(&mut text, 255);
    assert_eq!(text, "x071099100255");
}

#[test]
fn decimal_agrees_with_std_for_every_value() {
    for v in 0..=255u8 {
        let mut plain = String::new();
        push_decimal(&mut plain, v);
        assert_eq!(plain, format!("{}", v));
        let mut padded = String::new();
        push_decimal_padded(&mut padded, v);
        assert_eq!(padded, format!("{:2}", v));
    }
}

#[test]
fn grid_text_has_a_line_for_each_row() {
    let grid: Vec<Vec<u8>> = vec![vec![1, 0, 9], vec![], vec![12]];
    assert_eq!(format_grid(&grid), "1 0 9 \n\n12 \n");
}

#[test]
fn grid_text_of_no_rows_is_empty() {
    let grid: Vec<Vec<u8>> = Vec::new();
    assert_eq!(format_grid(&grid), "");
}
