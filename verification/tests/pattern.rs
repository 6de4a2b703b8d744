use life_collatz::pattern::parse_pattern;

#[test]
fn test_parse_trims_outer_whitespace() {
    let rows = parse_pattern("\nOO\nO\n");
    assert_eq!(rows, vec![vec!['O', 'O'], vec!['O']]);
}

#[test]
fn test_parse_empty_and_blank_templates() {
    assert_eq!(parse_pattern(""), Vec::<Vec<char>>::new());
    assert_eq!(parse_pattern(" \n\t\r\n "), Vec::<Vec<char>>::new());
}

#[test]
fn test_parse_keeps_interior_blank_lines() {
    let rows = parse_pattern("O\n\nO");
    assert_eq!(rows, vec![vec!['O'], vec![], vec!['O']]);
}

#[test]
fn test_parse_strips_carriage_returns() {
    let rows = parse_pattern("O.\r\n.O");
    assert_eq!(rows, vec![vec!['O', '.'], vec!['.', 'O']]);
}

#[test]
fn test_parse_keeps_interior_spaces() {
    let rows = parse_pattern(" O O ");
    assert_eq!(rows, vec![vec!['O', ' ', 'O']]);
}
