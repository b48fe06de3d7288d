use decision_table::executor::{interpret, try_interpret};
use decision_table::number::Number;
use decision_table::operand::{Operand, Operator};
use decision_table::tokenizer::Tokenizer;

fn postfix_for(formula: &str) -> Result<Vec<Operand>, String> {
    let mut tokenizer = Tokenizer::new(&formula);
    tokenizer.parse()?;
    tokenizer.to_postfix()
}

fn no_context() -> serde_json::Value {
    serde_json::Value::Null
}

fn context(text: &str) -> serde_json::Value {
    serde_json::from_str(text).unwrap()
}

fn number(value: f32) -> Operand {
    Operand::Number(Number::from_scientific(&value.to_string()).unwrap())
}

fn evaluate(formula: &str, json: &str) -> Vec<Operand> {
    let postfix = postfix_for(formula).unwrap();
    try_interpret(&postfix, &context(json)).unwrap()
}

#[test]
fn executor_interpreter_succeeds_adding() -> Result<(), String> {
    let postfix = postfix_for("2+1");
    let formula_result = interpret(&postfix?, &no_context());
    assert_eq!(formula_result, [number(3.0)]);
    Ok(())
}

#[test]
fn interpreter_interpreter_succeeds_adding() -> Result<(), String> {
    let formula = "2+1";
    let mut tokenizer = Tokenizer::new(&formula);
    tokenizer.parse()?;
    let postfix = tokenizer.to_postfix();

    let formula_result = interpret(&postfix?, &no_context());
    assert_eq!(formula_result, [number(3.0)]);
    Ok(())
}

#[test]
fn interpreter_succeeds_adding_string() -> Result<(), String> {
    let postfix = postfix_for("\"hello\"+\"world\"");

    let formula_result = interpret(&postfix?, &no_context());
    assert_eq!(formula_result, [Operand::String("helloworld".to_string())]);
    Ok(())
}

#[test]
fn interpreter_succeeds_substracting() -> Result<(), String> {
    let postfix = postfix_for("2-1");
    let formula_result = interpret(&postfix?, &no_context());
    assert_eq!(formula_result, [number(1.0)]);
    Ok(())
}

#[test]
fn interpreter_succeeds_comparing_numbers_greater() -> Result<(), String> {
    let postfix = postfix_for("2>1");
    let formula_result = interpret(&postfix?, &no_context());
    assert_eq!(formula_result, [Operand::Boolean(true)]);
    Ok(())
}

#[test]
fn interpreter_succeeds_comparing_numbers_less() -> Result<(), String> {
    let postfix = postfix_for("20<1");
    let formula_result = interpret(&postfix?, &no_context());
    assert_eq!(formula_result, [Operand::Boolean(false)]);
    Ok(())
}

#[test]
fn interpreter_succeeds_comparing_non_eq_numbers() -> Result<(), String> {
    let postfix = postfix_for("20!=20");
    let formula_result = interpret(&postfix?, &no_context());
    assert_eq!(formula_result, [Operand::Boolean(false)]);
    Ok(())
}

#[test]
fn interpreter_succeeds_comparing_numbers_less_eq() -> Result<(), String> {
    let postfix = postfix_for("20<=20");
    let formula_result = interpret(&postfix?, &no_context());
    assert_eq!(formula_result, [Operand::Boolean(true)]);
    Ok(())
}

#[test]
fn interpreter_succeeds_comparing_numbers_ne() -> Result<(), String> {
    let postfix = postfix_for("20!=20");
    let formula_result = interpret(&postfix?, &no_context());
    assert_eq!(formula_result, [Operand::Boolean(false)]);
    Ok(())
}

#[test]
fn interpreter_succeeds_multiply() -> Result<(), String> {
    let postfix = postfix_for("20*2");
    let formula_result = interpret(&postfix?, &no_context());
    assert_eq!(formula_result, [number(40.0)]);
    Ok(())
}

#[test]
fn interpreter_succeeds_divide() -> Result<(), String> {
    let postfix = postfix_for("20/2");
    let formula_result = interpret(&postfix?, &no_context());
    assert_eq!(formula_result, [number(10.0)]);
    Ok(())
}

#[test]
fn interpreter_succeeds_divide_by_zero() -> Result<(), String> {
    let postfix = postfix_for("20/0");
    let formula_result = interpret(&postfix?, &no_context());
    assert_eq!(formula_result, [Operand::Missing]);
    Ok(())
}

#[test]
fn interpreter_succeeds_equality_check() -> Result<(), String> {
    let postfix = postfix_for("2+1=4-1");
    let formula_result = interpret(&postfix?, &no_context());
    assert_eq!(formula_result, [Operand::Boolean(true)]);
    Ok(())
}

#[test]
fn interpreter_succeeds_sum_with_variable() -> Result<(), String> {
    let postfix = postfix_for("2+extraValue");

    let formula_result = interpret(&postfix?, &context(r#"{ "extraValue": 2 }"#));
    assert_eq!(formula_result, [number(4.0)]);
    Ok(())
}

#[test]
fn nested_expression_with_variables() {
    let formula = "100.00<= ((aA+(b*c))-d*2 )";
    let postfix = postfix_for(formula).unwrap();
    assert_eq!(postfix.len(), 11);
    let json = r#"{ "aA": 1, "b": 2, "c": 3, "d": 4 }"#;
    let result = interpret(&postfix, &context(json));
    assert_eq!(result.len(), 1);
    assert_eq!(
        evaluate("(aA+(b*c))-d*2", json),
        [Operand::Number(Number::from_integer(-1))]
    );
    assert_eq!(result, [Operand::Boolean(false)]);
    assert_eq!(
        evaluate("100.00>= ((aA+(b*c))-d*2 )", json),
        [Operand::Boolean(true)]
    );
}

#[test]
fn arithmetic_is_exact() {
    assert_eq!(
        evaluate("1/3", "null"),
        [Operand::Number(Number::new(1, 3).unwrap())]
    );
    assert_eq!(evaluate("1/3*3", "null"), [number(1.0)]);
    assert_eq!(evaluate("0.1+0.2=0.3", "null"), [Operand::Boolean(true)]);
    assert_eq!(
        evaluate("2.5*4-0.75", "null"),
        [Operand::Number(Number::new(37, 4).unwrap())]
    );
    assert_eq!(evaluate("3-5", "null"), [number(-2.0)]);
    assert_eq!(evaluate("7/2", "null"), [number(3.5)]);
}

#[test]
fn arithmetic_agrees_with_floating_point_on_small_integers() {
    for a in 0..=12 {
        for b in 0..=12 {
            for (sign, host) in [
                ("+", a as f32 + b as f32),
                ("-", a as f32 - b as f32),
                ("*", a as f32 * b as f32),
                ("/", a as f32 / b as f32),
            ] {
                let result = evaluate(&format!("{}{}{}", a, sign, b), "null");
                match &result[..] {
                    [Operand::Number(n)] => {
                        assert_eq!(n.numerator() as f32 / n.denominator() as f32, host)
                    }
                    [Operand::Missing] => assert!(sign == "/" && b == 0),
                    other => panic!("{:?}", other),
                }
            }
        }
    }
}

#[test]
fn multiplication_binds_tighter_than_addition() {
    assert_eq!(evaluate("2+3*4", "null"), [number(14.0)]);
    assert_eq!(evaluate("(2+3)*4", "null"), [number(20.0)]);
    assert_eq!(evaluate("2*3+4", "null"), [number(10.0)]);
    assert_eq!(evaluate("10-4-3", "null"), [number(3.0)]);
    assert_eq!(evaluate("1+2<2*2", "null"), [Operand::Boolean(true)]);
}

#[test]
fn result_beyond_the_range_is_missing() {
    assert_eq!(
        evaluate("9000000000000000000+9000000000000000000", "null"),
        [Operand::Missing]
    );
    assert_eq!(
        evaluate("9000000000000000000*10", "null"),
        [Operand::Missing]
    );
}

#[test]
fn division_by_zero_is_missing() {
    assert_eq!(evaluate("20/0", "null"), [Operand::Missing]);
    assert_eq!(evaluate("0/0", "null"), [Operand::Missing]);
    assert_eq!(evaluate("1/(2-2)", "null"), [Operand::Missing]);
    assert_eq!(evaluate("0/5", "null"), [number(0.0)]);
}

#[test]
fn ill_typed_arithmetic_is_missing() {
    assert_eq!(evaluate("1+\"a\"", "null"), [Operand::Missing]);
    assert_eq!(evaluate("\"a\"-\"b\"", "null"), [Operand::Missing]);
    assert_eq!(evaluate("\"a\"*2", "null"), [Operand::Missing]);
    assert_eq!(evaluate("\"a\"/\"b\"", "null"), [Operand::Missing]);
    assert_eq!(
        evaluate("flag+1", r#"{ "flag": true }"#),
        [Operand::Missing]
    );
}

#[test]
fn texts_compare_lexicographically() {
    assert_eq!(evaluate("\"abc\"<\"abd\"", "null"), [Operand::Boolean(true)]);
    assert_eq!(evaluate("\"ab\"<\"abc\"", "null"), [Operand::Boolean(true)]);
    assert_eq!(evaluate("\"abc\"<\"ab\"", "null"), [Operand::Boolean(false)]);
    assert_eq!(evaluate("\"b\">\"abc\"", "null"), [Operand::Boolean(true)]);
    assert_eq!(evaluate("\"a\"<=\"a\"", "null"), [Operand::Boolean(true)]);
    assert_eq!(evaluate("\"a\">=\"b\"", "null"), [Operand::Boolean(false)]);
    assert_eq!(evaluate("\"Z\"<\"a\"", "null"), [Operand::Boolean(true)]);
    assert_eq!(evaluate("\"\"<\"a\"", "null"), [Operand::Boolean(true)]);
    assert_eq!(evaluate("\"a\"<\"a\"", "null"), [Operand::Boolean(false)]);
}

#[test]
fn comparison_of_different_kinds_is_false() {
    assert_eq!(evaluate("1<\"a\"", "null"), [Operand::Boolean(false)]);
    assert_eq!(evaluate("1>=\"a\"", "null"), [Operand::Boolean(false)]);
    assert_eq!(evaluate("\"1\"=1", "null"), [Operand::Boolean(false)]);
    assert_eq!(evaluate("\"1\"!=1", "null"), [Operand::Boolean(true)]);
    assert_eq!(
        evaluate("flag<=flag", r#"{ "flag": true }"#),
        [Operand::Boolean(false)]
    );
}

#[test]
fn equality_is_reflexive() {
    assert_eq!(evaluate("7=7", "null"), [Operand::Boolean(true)]);
    assert_eq!(evaluate("0.50=0.5", "null"), [Operand::Boolean(true)]);
    assert_eq!(evaluate("\"x\"=\"x\"", "null"), [Operand::Boolean(true)]);
    assert_eq!(
        evaluate("flag=flag", r#"{ "flag": false }"#),
        [Operand::Boolean(true)]
    );
    assert_eq!(evaluate("nothing=nothing", "{}"), [Operand::Boolean(true)]);
    assert_eq!(evaluate("nothing!=nothing", "{}"), [Operand::Boolean(false)]);
}

#[test]
fn unknown_variable_makes_arithmetic_missing_and_order_false() {
    let json = r#"{ "known": 5 }"#;
    for op in ["+", "-", "*", "/"] {
        assert_eq!(
            evaluate(&format!("known{}known", op), json).len(),
            1
        );
        assert_eq!(
            evaluate(&format!("unknown{}known", op), json),
            [Operand::Missing]
        );
        assert_eq!(
            evaluate(&format!("known{}unknown", op), json),
            [Operand::Missing]
        );
    }
    for op in ["<", "<=", ">", ">=", "="] {
        assert_eq!(
            evaluate(&format!("unknown{}known", op), json),
            [Operand::Boolean(false)]
        );
        assert_eq!(
            evaluate(&format!("known{}unknown", op), json),
            [Operand::Boolean(false)]
        );
    }
    assert_eq!(evaluate("unknown!=known", json), [Operand::Boolean(true)]);
    assert_eq!(evaluate("unknown<=unknown", json), [Operand::Boolean(false)]);
}

#[test]
fn operator_without_operands_is_not_evaluated() {
    let plus = Operand::OperatorToken(Operator::Plus);
    assert_eq!(try_interpret(&vec![plus.clone()], &no_context()), None);
    assert_eq!(
        try_interpret(&vec![number(1.0), plus.clone()], &no_context()),
        None
    );
    assert_eq!(
        try_interpret(&vec![number(1.0), number(2.0), plus.clone(), plus], &no_context()),
        None
    );
    assert_eq!(try_interpret(&postfix_for("1+").unwrap(), &no_context()), None);
}

#[test]
fn grouping_marker_is_not_evaluated() {
    assert_eq!(
        try_interpret(&vec![Operand::OpenParen], &no_context()),
        None
    );
    assert_eq!(
        try_interpret(&vec![number(1.0), Operand::CloseParen], &no_context()),
        None
    );
}

#[test]
fn values_without_operator_stay_on_the_stack() {
    assert_eq!(try_interpret(&vec![], &no_context()), Some(vec![]));
    assert_eq!(
        try_interpret(
            &vec![number(1.0), Operand::Boolean(true), Operand::Missing],
            &no_context()
        ),
        Some(vec![number(1.0), Operand::Boolean(true), Operand::Missing])
    );
}

#[test]
fn valid_infix_leaves_one_value() {
    let json = r#"{ "a": 1, "b": "two", "c": { "d": 3 } }"#;
    for formula in [
        "1",
        "a",
        "(a)",
        "a+b",
        "(a+b)*c",
        "a<b=c",
        "((1+2)*(3-4))/(5+(6))",
        "\"x\"+\"y\"<\"z\"",
        "1<2<3",
        "missing>=missing/0",
    ] {
        let postfix = postfix_for(formula).unwrap();
        assert_eq!(try_interpret(&postfix, &context(json)).unwrap().len(), 1);
    }
}
