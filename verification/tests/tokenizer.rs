use decision_table::fault::{decimal, Fault};
use decision_table::number::Number;
use decision_table::operand::{Operand, Operator};
use decision_table::postfix::{precedence, to_postfix};
use decision_table::tokenizer::{check_if_digit, check_if_operand, check_if_operator, Tokenizer};

fn number(text: &str) -> Operand {
    Operand::Number(Number::from_scientific(text).unwrap())
}

fn variable(name: &str) -> Operand {
    Operand::Variable(name.to_string())
}

fn operator(op: Operator) -> Operand {
    Operand::OperatorToken(op)
}

fn tokens_of(formula: &str) -> Result<Vec<Operand>, String> {
    let mut parser = Tokenizer::new(formula);
    parser.parse()?;
    Ok(parser.operands().clone())
}

#[test]
fn parses_expression() -> Result<(), String> {
    let formula = "100.00<=
 ((aA+(b*c))-d*2 )";

    let mut parser = Tokenizer::new(&formula);
    let res = parser.parse();
    assert!(res.is_ok());
    assert!(parser.operands().len() == 17);

    let postfix = parser.to_postfix()?;
    assert!(postfix.len() == 11);
    assert_eq!(
        postfix,
        vec![
            number("100.0"),
            variable("aA"),
            variable("b"),
            variable("c"),
            operator(Operator::Multiply),
            operator(Operator::Plus),
            variable("d"),
            number("2.0"),
            operator(Operator::Multiply),
            operator(Operator::Substract),
            operator(Operator::LE),
        ]
    );
    Ok(())
}

#[test]
fn parses_no_paren_expression() -> Result<(), String> {
    let formula = "aA+b *c-d*2 ";

    let mut parser = Tokenizer::new(&formula);
    let res = parser.parse();
    assert!(res.is_ok());
    assert!(parser.operands().len() == 9);

    let postfix = parser.to_postfix()?;
    assert!(postfix.len() == 9);
    assert_eq!(
        postfix,
        vec![
            variable("aA"),
            variable("b"),
            variable("c"),
            operator(Operator::Multiply),
            operator(Operator::Plus),
            variable("d"),
            number("2.0"),
            operator(Operator::Multiply),
            operator(Operator::Substract),
        ]
    );
    Ok(())
}

#[test]
fn fails_expression_unknown_symbol() {
    let formula = "100.00<)^";
    let mut parser = Tokenizer::new(&formula);
    let res = parser.parse();
    assert!(!res.is_ok());
}

#[test]
fn fails_expression_no_open_paren() -> Result<(), String> {
    let formula = "100.00)";
    let mut parser = Tokenizer::new(&formula);
    parser.parse()?;
    let postfix = parser.to_postfix();
    assert!(!postfix.is_ok());
    Ok(())
}

#[test]
fn fails_expression_no_closing_paren() -> Result<(), String> {
    let formula = "100.00(";
    let mut parser = Tokenizer::new(&formula);
    parser.parse()?;

    let postfix = parser.to_postfix();
    assert!(!postfix.is_ok());
    Ok(())
}

#[test]
fn succeeds_single_element() -> Result<(), String> {
    let formula = "\"hello\"";
    let mut parser = Tokenizer::new(&formula);
    parser.parse()?;

    let postfix = parser.to_postfix();
    assert!(postfix.is_ok());

    assert_eq!(postfix?, vec![Operand::String("hello".to_string())]);
    Ok(())
}

#[test]
fn unknown_symbol_is_reported_with_its_index() {
    assert_eq!(
        tokens_of("100.00<)^"),
        Err("unknown symbol at index 8, '^'".to_string())
    );
    assert_eq!(
        tokens_of("a . b"),
        Err("unknown symbol at index 2, '.'".to_string())
    );
}

#[test]
fn index_in_a_message_is_written_in_decimal() {
    assert_eq!(
        tokens_of("1234567890 + 12 ~"),
        Err("unknown symbol at index 16, '~'".to_string())
    );
    assert_eq!(
        tokens_of(r"          \"),
        Err(r"unknown symbol at index 10, '\\'".to_string())
    );
    assert_eq!(
        tokens_of("a + b + c + d + 1.0.0"),
        Err("number: multiple '.' at 19".to_string())
    );
    assert_eq!(decimal(0), "0");
    assert_eq!(decimal(9), "9");
    assert_eq!(decimal(10), "10");
    assert_eq!(decimal(907), "907");
    assert_eq!(decimal(usize::MAX), usize::MAX.to_string());
}

#[test]
fn unmatched_closing_paren_is_reported() {
    let tokens = tokens_of("100.00)").unwrap();
    assert_eq!(
        to_postfix(&tokens),
        Err("no matching opening paren".to_string())
    );
    let tokens = tokens_of("(1+2))").unwrap();
    assert_eq!(
        to_postfix(&tokens),
        Err("no matching opening paren".to_string())
    );
}

#[test]
fn unmatched_opening_paren_is_reported() {
    let tokens = tokens_of("100.00(").unwrap();
    assert_eq!(
        to_postfix(&tokens),
        Err("no matching closing paren".to_string())
    );
    let tokens = tokens_of("((1+2)").unwrap();
    assert_eq!(
        to_postfix(&tokens),
        Err("no matching closing paren".to_string())
    );
}

#[test]
fn unterminated_string_is_reported() {
    assert_eq!(
        tokens_of("\"hello"),
        Err("A string has no closing \"".to_string())
    );
    assert_eq!(
        tokens_of("1 + \""),
        Err("A string has no closing \"".to_string())
    );
}

#[test]
fn second_dot_in_a_number_is_reported_with_its_index() {
    assert_eq!(
        tokens_of("1.2.3"),
        Err("number: multiple '.' at 3".to_string())
    );
    assert_eq!(
        tokens_of("10..5"),
        Err("number: multiple '.' at 3".to_string())
    );
}

#[test]
fn unsupported_operator_run_is_reported() {
    assert_eq!(tokens_of("1 == 2"), Err("unsupported operator".to_string()));
    assert_eq!(tokens_of("1 +- 2"), Err("unsupported operator".to_string()));
    assert_eq!(tokens_of("1 ! 2"), Err("unsupported operator".to_string()));
    assert_eq!(tokens_of("1 =< 2"), Err("unsupported operator".to_string()));
}

#[test]
fn number_with_too_many_digits_is_reported_with_its_index() {
    assert_eq!(
        tokens_of("1 + 12345678901234567890"),
        Err("number: out of range at 4".to_string())
    );
    assert_eq!(
        tokens_of("0.0000000000000000001"),
        Err("number: out of range at 0".to_string())
    );
}

#[test]
fn expression_without_tokens_is_reported() {
    assert_eq!(
        tokens_of(""),
        Err("Reached end - unprocessed statements found".to_string())
    );
    assert_eq!(
        tokens_of(" \t\n "),
        Err("Reached end - unprocessed statements found".to_string())
    );
}

#[test]
fn every_operator_spelling_is_read() {
    assert_eq!(
        tokens_of("+ - * / = != < <= > >="),
        Ok(vec![
            operator(Operator::Plus),
            operator(Operator::Substract),
            operator(Operator::Multiply),
            operator(Operator::Division),
            operator(Operator::E),
            operator(Operator::NE),
            operator(Operator::L),
            operator(Operator::LE),
            operator(Operator::G),
            operator(Operator::GE),
        ])
    );
}

#[test]
fn blanks_separate_tokens_and_are_dropped() {
    assert_eq!(
        tokens_of(" (\ta\n)  \"x y\" 1."),
        Ok(vec![
            Operand::OpenParen,
            variable("a"),
            Operand::CloseParen,
            Operand::String("x y".to_string()),
            number("1"),
        ])
    );
}

#[test]
fn identifiers_hold_letters_only() {
    assert_eq!(
        tokens_of("ab1"),
        Ok(vec![variable("ab"), number("1")])
    );
    assert_eq!(
        tokens_of("a_b"),
        Err("unknown symbol at index 1, '_'".to_string())
    );
}

#[test]
fn number_literals_are_exact_fractions() {
    let tokens = tokens_of("100.00 0.5 2.25 7").unwrap();
    assert_eq!(
        tokens,
        vec![
            Operand::Number(Number::new(100, 1).unwrap()),
            Operand::Number(Number::new(1, 2).unwrap()),
            Operand::Number(Number::new(9, 4).unwrap()),
            Operand::Number(Number::new(7, 1).unwrap()),
        ]
    );
}

#[test]
fn parsing_appends_to_the_tokens_already_held() {
    let mut parser = Tokenizer::new(">= 8");
    parser.parse().unwrap();
    assert!(parser.starts_with_operator());
    parser.insert_start(number("3"));
    assert!(!parser.starts_with_operator());
    assert_eq!(
        parser.operands().clone(),
        vec![number("3"), operator(Operator::GE), number("8")]
    );
    assert_eq!(parser.parse(), Ok(()));
    assert_eq!(parser.operands().len(), 3);
}

#[test]
fn every_fault_has_its_message() {
    assert_eq!(
        Fault::UnknownSymbol { index: 3, symbol: '\n' }.message(),
        "unknown symbol at index 3, '\\n'"
    );
    assert_eq!(
        Fault::ReachedEnd.message(),
        "Reached end - unprocessed statements found"
    );
    assert_eq!(
        Fault::UnterminatedString.message(),
        "A string has no closing \""
    );
    assert_eq!(Fault::UnsupportedOperator.message(), "unsupported operator");
    assert_eq!(
        Fault::MultipleDots { index: 42 }.message(),
        "number: multiple '.' at 42"
    );
    assert_eq!(
        Fault::NumberOutOfRange { index: 7 }.message(),
        "number: out of range at 7"
    );
    assert_eq!(Fault::NoOpeningParen.message(), "no matching opening paren");
    assert_eq!(Fault::NoClosingParen.message(), "no matching closing paren");
}

#[test]
fn character_classes() {
    assert!(check_if_operand(&'a') && check_if_operand(&'z'));
    assert!(check_if_operand(&'A') && check_if_operand(&'Z'));
    assert!(!check_if_operand(&'0') && !check_if_operand(&'_') && !check_if_operand(&'['));
    for c in ['+', '-', '/', '*', '<', '=', '>', '!'] {
        assert!(check_if_operator(&c));
    }
    assert!(!check_if_operator(&'^') && !check_if_operator(&'a'));
    assert!(check_if_digit(&'0') && check_if_digit(&'9'));
    assert!(!check_if_digit(&'a') && !check_if_digit(&'.'));
}

#[test]
fn precedence_levels() {
    assert_eq!(precedence(&Operator::Multiply), 2);
    assert_eq!(precedence(&Operator::Division), 2);
    assert_eq!(precedence(&Operator::Plus), 1);
    assert_eq!(precedence(&Operator::Substract), 1);
    for op in [
        Operator::L,
        Operator::G,
        Operator::LE,
        Operator::GE,
        Operator::E,
        Operator::NE,
    ] {
        assert_eq!(precedence(&op), -1);
    }
}

#[test]
fn operators_of_one_level_leave_in_the_order_they_came() {
    let tokens = tokens_of("a-b+c").unwrap();
    assert_eq!(
        to_postfix(&tokens),
        Ok(vec![
            variable("a"),
            variable("b"),
            operator(Operator::Substract),
            variable("c"),
            operator(Operator::Plus),
        ])
    );
}

#[test]
fn postfix_holds_no_grouping_markers() {
    for formula in ["((a))", "(1+2)*(3-(4/5))", "a<=(b)", "(\"x\")=(\"y\")"] {
        let tokens = tokens_of(formula).unwrap();
        let postfix = to_postfix(&tokens).unwrap();
        assert!(postfix
            .iter()
            .all(|o| *o != Operand::OpenParen && *o != Operand::CloseParen));
    }
}
