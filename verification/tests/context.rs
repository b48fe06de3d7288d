use decision_table::context::{get_context_var, to_operand, var_to_operand};
use decision_table::number::Number;
use decision_table::operand::Operand;
use serde_json::Value as JsonValue;

fn context(text: &str) -> serde_json::Value {
    serde_json::from_str(text).unwrap()
}

#[test]
fn succeeds_get_context_value() -> Result<(), String> {
    let json_str = r#"{ "season": "Fall", "preferences": { "type": "vegetarian" }, "count": 1 }
                "#;

    let context: serde_json::Value = serde_json::from_str(json_str).unwrap();

    let season = get_context_var(&"season".to_string(), &context);

    assert_eq!(season, JsonValue::String("Fall".to_string()));

    let p_type = get_context_var(&"preferences.type".to_string(), &context);
    assert_eq!(p_type, JsonValue::String("vegetarian".to_string()));

    let missing_val = get_context_var(&"NoExist".to_string(), &context);
    assert_eq!(missing_val, JsonValue::Null);

    let missing_val = get_context_var(&"NoExist.subParam".to_string(), &context);
    assert_eq!(missing_val, JsonValue::Null);

    let num = get_context_var(&"count".to_string(), &context);
    let num_value: Option<f64> = match num {
        JsonValue::Number(column_number) => column_number.as_f64(),
        _ => Some(0.0),
    };

    assert_eq!(num_value, Some(1.0));

    Ok(())
}

#[test]
fn path_descends_member_by_member() {
    let doc = context(r#"{ "a": { "b": { "c": 7, "": 8 }, "a": 1 }, "b": 2, "": { "": 3 } }"#);
    assert_eq!(get_context_var(&"a.b.c".to_string(), &doc), context("7"));
    assert_eq!(get_context_var(&"a.a".to_string(), &doc), context("1"));
    assert_eq!(get_context_var(&"b".to_string(), &doc), context("2"));
    assert_eq!(
        get_context_var(&"a.b".to_string(), &doc),
        context(r#"{ "c": 7, "": 8 }"#)
    );
    assert_eq!(get_context_var(&"a.b.".to_string(), &doc), context("8"));
    assert_eq!(get_context_var(&".".to_string(), &doc), context("3"));
    assert_eq!(
        get_context_var(&"".to_string(), &doc),
        context(r#"{ "": 3 }"#)
    );
}

#[test]
fn path_through_anything_but_an_object_is_null() {
    let doc = context(r#"{ "n": 1, "s": "text", "l": [ { "x": 1 } ], "z": null, "t": true }"#);
    assert_eq!(get_context_var(&"n.x".to_string(), &doc), JsonValue::Null);
    assert_eq!(get_context_var(&"s.x".to_string(), &doc), JsonValue::Null);
    assert_eq!(get_context_var(&"l.x".to_string(), &doc), JsonValue::Null);
    assert_eq!(get_context_var(&"l.0".to_string(), &doc), JsonValue::Null);
    assert_eq!(get_context_var(&"z".to_string(), &doc), JsonValue::Null);
    assert_eq!(get_context_var(&"z.x".to_string(), &doc), JsonValue::Null);
    assert_eq!(get_context_var(&"t.x.y".to_string(), &doc), JsonValue::Null);
    assert_eq!(
        get_context_var(&"x".to_string(), &context("[1, 2]")),
        JsonValue::Null
    );
}

#[test]
fn values_become_operands() {
    assert_eq!(to_operand(&context("null")), Operand::Missing);
    assert_eq!(to_operand(&context("true")), Operand::Boolean(true));
    assert_eq!(to_operand(&context("false")), Operand::Boolean(false));
    assert_eq!(
        to_operand(&context("\"Fall\"")),
        Operand::String("Fall".to_string())
    );
    assert_eq!(
        to_operand(&context("8")),
        Operand::Number(Number::from_integer(8))
    );
    assert_eq!(
        to_operand(&context("-8")),
        Operand::Number(Number::from_integer(-8))
    );
    assert_eq!(
        to_operand(&context("2.5")),
        Operand::Number(Number::new(5, 2).unwrap())
    );
    assert_eq!(
        to_operand(&context("1e-7")),
        Operand::Number(Number::new(1, 10_000_000).unwrap())
    );
    assert_eq!(
        to_operand(&context("1.5e3")),
        Operand::Number(Number::from_integer(1500))
    );
    assert_eq!(to_operand(&context("[1]")), Operand::Missing);
    assert_eq!(to_operand(&context("{ \"a\": 1 }")), Operand::Missing);
}

#[test]
fn floating_point_values_become_the_fractions_they_are_written_as() {
    let number = |num: i64, den: i64| Operand::Number(Number::new(num, den).unwrap());
    assert_eq!(to_operand(&context("0.1")), number(1, 10));
    assert_eq!(to_operand(&context("100.0")), number(100, 1));
    assert_eq!(to_operand(&context("-0.0")), number(0, 1));
    assert_eq!(to_operand(&context("123456789.125")), number(987654313, 8));
    assert_eq!(to_operand(&context("1e16")), number(10_000_000_000_000_000, 1));
    assert_eq!(to_operand(&context("2.5e-3")), number(1, 400));
    assert_eq!(to_operand(&context("1E2")), number(100, 1));
    assert_eq!(
        to_operand(&serde_json::Value::from(0.75_f64)),
        number(3, 4)
    );
    assert_eq!(to_operand(&serde_json::Value::from(7_u8)), number(7, 1));
}

#[test]
fn number_beyond_the_range_becomes_missing() {
    assert_eq!(to_operand(&context("1e300")), Operand::Missing);
    assert_eq!(to_operand(&context("18446744073709551615")), Operand::Missing);
    assert_eq!(to_operand(&context("1e-30")), Operand::Missing);
    assert_eq!(
        to_operand(&context("9223372036854775807")),
        Operand::Number(Number::from_integer(i64::MAX))
    );
    assert_eq!(
        to_operand(&context("-9223372036854775807")),
        Operand::Number(Number::from_integer(-i64::MAX))
    );
    assert_eq!(to_operand(&context("-9223372036854775808")), Operand::Missing);
}

#[test]
fn variables_resolve_to_operands() {
    let doc = context(r#"{ "season": "Fall", "guest": { "count": 8, "vip": true } }"#);
    assert_eq!(
        var_to_operand(&"season".to_string(), &doc),
        Operand::String("Fall".to_string())
    );
    assert_eq!(
        var_to_operand(&"guest.count".to_string(), &doc),
        Operand::Number(Number::from_integer(8))
    );
    assert_eq!(
        var_to_operand(&"guest.vip".to_string(), &doc),
        Operand::Boolean(true)
    );
    assert_eq!(var_to_operand(&"guest".to_string(), &doc), Operand::Missing);
    assert_eq!(
        var_to_operand(&"guest.name".to_string(), &doc),
        Operand::Missing
    );
    assert_eq!(var_to_operand(&"nobody".to_string(), &doc), Operand::Missing);
}
