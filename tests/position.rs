use rainbow_text::position::Rainbow;

#[test]
fn test_rainbow_advance_col_row() {
    let mut rainbow = Rainbow::new();
    assert_eq!(rainbow.col, 0);
    assert_eq!(rainbow.row, 0);

    rainbow.advance('a');
    assert_eq!(rainbow.col, 1);
    assert_eq!(rainbow.row, 0);

    rainbow.advance('\n');
    assert_eq!(rainbow.col, 0);
    assert_eq!(rainbow.row, 1);
}

#[test]
fn tab_and_carriage_return_count_as_one_column() {
    let mut rainbow = Rainbow::new();
    rainbow.advance('\t');
    rainbow.advance('\r');
    rainbow.advance('é');
    assert_eq!(rainbow.col, 3);
    assert_eq!(rainbow.row, 0);
}
