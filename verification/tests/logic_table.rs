use decision_table::logic_table::{parse, run_table, try_parse, try_run_table, Definition, Table};
use decision_table::operand::Operand;
use decision_table::table_reader::Row;

const DISHES: &str = r#"
| season   | guestCount | desiredDish |
| -------- | ---------- | ----------: |
| string   | number     | string      |
| ======== | ========== | =========== |
| "Fall"   | >= 8       | "Spaceribs" |
| "Winter" | < 8        | "Roastbeef" |
"#;

fn get_test_table() -> Result<Table, String> {
    Ok(parse(&DISHES.to_string()))
}

fn context(text: &str) -> serde_json::Value {
    serde_json::from_str(text).unwrap()
}

fn table_of(inputs: &[&str], outputs: &[&str], rules: &[&[&str]]) -> Table {
    let column = |name: &&str| (name.to_string(), "string".to_string());
    let mut rows: Vec<Row> = (0..4).map(|_| Row { cells: vec![] }).collect();
    for rule in rules {
        rows.push(Row {
            cells: rule.iter().map(|cell| cell.to_string()).collect(),
        });
    }
    Table {
        rows,
        defs: Definition {
            inputs: inputs.iter().map(column).collect(),
            outputs: outputs.iter().map(column).collect(),
        },
    }
}

#[test]
fn correct_md_table_size() -> Result<(), String> {
    let table = get_test_table()?;
    assert_eq!(table.defs.inputs.len(), 2);
    assert_eq!(table.defs.outputs.len(), 1);
    assert_eq!(table.rows.len(), 6);

    assert_eq!(table.defs.inputs[0].1, "string".to_owned());
    assert_eq!(table.defs.inputs[1].1, "number".to_owned());
    assert_eq!(table.defs.outputs[0].1, "string".to_owned());

    assert_eq!(table.rows[5].cells[2], "\"Roastbeef\"".to_owned());

    Ok(())
}

#[test]
fn execute_md_table() -> Result<(), String> {
    let table = get_test_table()?;
    let json_str = r#"
        { "season": "Fall", "guestCount": 8 }
        "#;

    let context: serde_json::Value = serde_json::from_str(json_str).unwrap();
    let res = run_table(&table, &context)?;

    assert_eq!(res.len(), 1);

    let firs_res = &res[0];
    assert_eq!(firs_res.contains_key("desiredDish"), true);
    assert_eq!(
        firs_res.get("desiredDish"),
        Some(&Operand::String("\"Spaceribs\"".to_owned()))
    );

    Ok(())
}

#[test]
fn one_matching_row_gives_one_output() {
    let table = table_of(
        &["season", "guestCount"],
        &["desiredDish"],
        &[&["\"Fall\"", ">= 8", "\"Spareribs\""]],
    );
    let given = run_table(&table, &context(r#"{ "season": "Fall", "guestCount": 8 }"#)).unwrap();
    assert_eq!(given.len(), 1);
    assert_eq!(given[0].len(), 1);
    assert_eq!(
        given[0].get("desiredDish"),
        Some(&Operand::String("\"Spareribs\"".to_string()))
    );
}

#[test]
fn header_names_and_types_of_marked_columns() {
    let text = "| a | b | c | d | e |\n| - | -: | x | :-- | --- |\n| ta | tb | tc | td | te |\n";
    let table = parse(&text.to_string());
    let pair = |name: &str, kind: &str| (name.to_string(), kind.to_string());
    assert_eq!(table.defs.inputs, vec![pair("a", "ta"), pair("e", "te")]);
    assert_eq!(table.defs.outputs, vec![pair("b", "tb")]);
    assert_eq!(table.rows.len(), 3);
}

#[test]
fn text_without_header_is_no_table() {
    assert!(try_parse(&"".to_string()).is_none());
    assert!(try_parse(&"| a |\n| - |\n".to_string()).is_none());
    assert!(try_parse(&"| a | b |\n| - |\n| t | t |\n".to_string()).is_none());
    assert!(try_parse(&"| a | b |\n| - | - |\n| t |\n".to_string()).is_none());
    assert!(try_parse(&"| a |\n| - | - |\n| t | t | t |\n".to_string()).is_some());
    assert!(try_parse(&"|\n|\n|\n".to_string()).is_some());
}

#[test]
fn rows_match_in_table_order() {
    let table = table_of(
        &["n"],
        &["size"],
        &[
            &["> 10", "big"],
            &["> 100", "huge"],
            &["<= 10", "small"],
            &["50", "fifty"],
            &["> 1", "some"],
        ],
    );
    let sizes = |json: &str| -> Vec<String> {
        run_table(&table, &context(json))
            .unwrap()
            .iter()
            .map(|row| match row.get("size") {
                Some(Operand::String(text)) => text.clone(),
                other => panic!("no text: {:?}", other),
            })
            .collect()
    };
    assert_eq!(sizes(r#"{ "n": 50 }"#), vec!["big", "fifty", "some"]);
    assert_eq!(sizes(r#"{ "n": 500 }"#), vec!["big", "huge", "some"]);
    assert_eq!(sizes(r#"{ "n": 1 }"#), vec!["small"]);
    assert_eq!(sizes(r#"{ "n": "text" }"#), Vec::<String>::new());
    assert_eq!(sizes(r#"{ }"#), Vec::<String>::new());
}

#[test]
fn cell_without_operator_is_compared_for_equality() {
    let table = table_of(
        &["x"],
        &["hit"],
        &[
            &["\"Fall\"", "text"],
            &["8", "number"],
            &["(4 + 4)", "group"],
            &["other", "variable"],
            &["= 8", "operator"],
            &["!= 8", "unequal"],
        ],
    );
    let hits = |json: &str| -> Vec<String> {
        run_table(&table, &context(json))
            .unwrap()
            .iter()
            .map(|row| match row.get("hit") {
                Some(Operand::String(text)) => text.clone(),
                other => panic!("no text: {:?}", other),
            })
            .collect()
    };
    assert_eq!(hits(r#"{ "x": "Fall", "other": 1 }"#), vec!["text", "unequal"]);
    assert_eq!(
        hits(r#"{ "x": 8, "other": 8 }"#),
        vec!["number", "group", "variable", "operator"]
    );
    assert_eq!(hits(r#"{ "other": 8 }"#), vec!["unequal"]);
    assert_eq!(hits(r#"{ }"#), vec!["variable", "unequal"]);
}

#[test]
fn every_input_has_to_hold() {
    let table = table_of(
        &["a", "b.c"],
        &["first", "second"],
        &[
            &["1", "2", "one", "two"],
            &["1", "3", "one", "three"],
            &["< 5", "> a", "less", "more"],
        ],
    );
    let given = run_table(&table, &context(r#"{ "a": 1, "b": { "c": 2 } }"#)).unwrap();
    assert_eq!(given.len(), 2);
    assert_eq!(given[0].len(), 2);
    assert_eq!(
        given[0].get("first"),
        Some(&Operand::String("one".to_string()))
    );
    assert_eq!(
        given[0].get("second"),
        Some(&Operand::String("two".to_string()))
    );
    assert_eq!(
        given[1].get("first"),
        Some(&Operand::String("less".to_string()))
    );
    assert_eq!(
        given[1].get("second"),
        Some(&Operand::String("more".to_string()))
    );
}

#[test]
fn later_output_column_of_the_same_name_counts() {
    let table = table_of(&[], &["out", "out"], &[&["first", "second"]]);
    let given = run_table(&table, &context("{}")).unwrap();
    assert_eq!(given.len(), 1);
    assert_eq!(given[0].len(), 1);
    assert_eq!(
        given[0].get("out"),
        Some(&Operand::String("second".to_string()))
    );
}

#[test]
fn cell_that_cannot_be_read_ends_the_run() {
    let doc = context(r#"{ "n": 1 }"#);
    let run = |cell: &str| {
        try_run_table(&table_of(&["n"], &["o"], &[&["1", "a"], &[cell, "b"]]), &doc)
            .map(|r| r.map(|rows| rows.len()))
    };
    assert_eq!(
        run("1 ^ 2"),
        Some(Err("unknown symbol at index 2, '^'".to_string()))
    );
    assert_eq!(
        run("\"open"),
        Some(Err("A string has no closing \"".to_string()))
    );
    assert_eq!(
        run("1.2.3"),
        Some(Err("number: multiple '.' at 3".to_string()))
    );
    assert_eq!(run("=> 1"), Some(Err("unsupported operator".to_string())));
    assert_eq!(
        run(""),
        Some(Err("Reached end - unprocessed statements found".to_string()))
    );
    assert_eq!(
        run("(1"),
        Some(Err("no matching closing paren".to_string()))
    );
    assert_eq!(
        run("1)"),
        Some(Err("no matching opening paren".to_string()))
    );
}

#[test]
fn cell_after_a_failed_input_is_not_read() {
    let table = table_of(&["a", "b"], &["o"], &[&["2", "1 ^ 2", "x"]]);
    let given = try_run_table(&table, &context(r#"{ "a": 1, "b": 1 }"#));
    assert_eq!(given.map(|r| r.map(|rows| rows.len())), Some(Ok(0)));
}

#[test]
fn nothing_to_evaluate() {
    let doc = context(r#"{ "n": 1 }"#);
    let short = table_of(&["n", "n"], &["o"], &[&["1"]]);
    assert!(try_run_table(&short, &doc).is_none());
    let no_output = table_of(&["n"], &["o", "p"], &[&["1", "x"]]);
    assert!(try_run_table(&no_output, &doc).is_none());
    let dangling = table_of(&["n"], &["o"], &[&[">=", "x"]]);
    assert!(try_run_table(&dangling, &doc).is_none());
    let unmatched = table_of(&["n", "n"], &["o"], &[&["2"]]);
    assert_eq!(
        try_run_table(&unmatched, &doc).map(|r| r.map(|rows| rows.len())),
        Some(Ok(0))
    );
}

#[test]
fn table_without_rules_gives_nothing() {
    let table = table_of(&["n"], &["o"], &[]);
    assert_eq!(run_table(&table, &context("{}")).map(|rows| rows.len()), Ok(0));
    let header_only = Table {
        rows: vec![],
        defs: Definition {
            inputs: vec![],
            outputs: vec![],
        },
    };
    assert_eq!(
        run_table(&header_only, &context("{}")).map(|rows| rows.len()),
        Ok(0)
    );
}

#[test]
fn first_four_rows_are_not_rules() {
    let mut table = table_of(&["n"], &["o"], &[&["1", "x"]]);
    for row in 0..4 {
        table.rows[row].cells = vec!["1 ^ 2".to_string(), "y".to_string()];
    }
    let given = run_table(&table, &context(r#"{ "n": 1 }"#)).unwrap();
    assert_eq!(given.len(), 1);
}
