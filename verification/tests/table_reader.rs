use decision_table::table_reader::parse;

fn cells(text: &str) -> Vec<Vec<String>> {
    parse(&text.to_string())
        .rows
        .into_iter()
        .map(|row| row.cells)
        .collect()
}

#[test]
fn each_line_with_a_bar_is_a_row() {
    assert_eq!(
        cells("| a | b |\n| c | d |\n"),
        vec![vec!["a", "b"], vec!["c", "d"]]
    );
    assert_eq!(cells(""), Vec::<Vec<String>>::new());
    assert_eq!(cells("no bar here\n\nnor here"), Vec::<Vec<String>>::new());
    assert_eq!(cells("|"), vec![Vec::<String>::new()]);
    assert_eq!(cells("||"), vec![vec![""]]);
    assert_eq!(cells("| a |\n\ntext\n| b |"), vec![vec!["a"], vec!["b"]]);
}

#[test]
fn text_outside_the_bars_is_no_cell() {
    assert_eq!(cells("before | a | after"), vec![vec!["a"]]);
    assert_eq!(cells("| a | b"), vec![vec!["a"]]);
    assert_eq!(cells("| a | b \n c | d |"), vec![vec!["a"], vec!["d"]]);
    assert_eq!(cells("x | y"), vec![Vec::<String>::new()]);
}

#[test]
fn cells_are_trimmed() {
    assert_eq!(
        cells("|  a b  |\t\"c \"\t|\u{a0}d\u{2003}|\r\n"),
        vec![vec!["a b", "\"c \"", "d"]]
    );
    assert_eq!(cells("|   | \t |"), vec![vec!["", ""]]);
}
