use decision_table::number::Number;

fn fraction(num: i64, den: i64) -> Number {
    Number::new(num, den).unwrap()
}

#[test]
fn fractions_are_kept_in_lowest_terms() {
    assert_eq!(fraction(10000, 100), Number::from_integer(100));
    assert_eq!(fraction(6, 4).numerator(), 3);
    assert_eq!(fraction(6, 4).denominator(), 2);
    assert_eq!(fraction(6, -4).numerator(), -3);
    assert_eq!(fraction(6, -4).denominator(), 2);
    assert_eq!(fraction(-6, -4), fraction(3, 2));
    assert_eq!(fraction(0, -7), Number::from_integer(0));
    assert_eq!(fraction(0, 5).denominator(), 1);
    assert_eq!(fraction(i64::MIN, 2).numerator(), i64::MIN / 2);
}

#[test]
fn fraction_without_representation() {
    assert_eq!(Number::new(1, 0), None);
    assert_eq!(Number::new(0, 0), None);
    assert_eq!(Number::new(i64::MIN, -1), None);
    assert_eq!(Number::new(1, i64::MIN), None);
    assert_eq!(Number::new(2, i64::MIN), Some(fraction(-1, 1 << 62)));
    assert_eq!(
        Number::new(i64::MIN, 1),
        Some(Number::from_integer(i64::MIN))
    );
}

#[test]
fn sums_differences_products_quotients() {
    let half = fraction(1, 2);
    let third = fraction(1, 3);
    assert_eq!(half.plus(&third), Some(fraction(5, 6)));
    assert_eq!(half.minus(&third), Some(fraction(1, 6)));
    assert_eq!(third.minus(&half), Some(fraction(-1, 6)));
    assert_eq!(half.times(&third), Some(fraction(1, 6)));
    assert_eq!(half.divided_by(&third), Some(fraction(3, 2)));
    assert_eq!(half.divided_by(&fraction(-1, 3)), Some(fraction(-3, 2)));
    assert_eq!(half.plus(&half), Some(Number::from_integer(1)));
    assert_eq!(half.minus(&half), Some(Number::from_integer(0)));
    assert_eq!(half.negate(), Some(fraction(-1, 2)));
}

#[test]
fn no_quotient_by_zero() {
    let zero = Number::from_integer(0);
    assert_eq!(Number::from_integer(20).divided_by(&zero), None);
    assert_eq!(zero.divided_by(&zero), None);
    assert_eq!(zero.divided_by(&Number::from_integer(20)), Some(zero));
}

#[test]
fn no_result_beyond_the_range() {
    let most = Number::from_integer(i64::MAX);
    let least = Number::from_integer(i64::MIN);
    let one = Number::from_integer(1);
    assert_eq!(most.plus(&one), None);
    assert_eq!(least.minus(&one), None);
    assert_eq!(most.times(&Number::from_integer(2)), None);
    assert_eq!(least.negate(), None);
    assert_eq!(one.divided_by(&most).unwrap().times(&fraction(1, 2)), None);
    assert_eq!(most.minus(&one), Some(Number::from_integer(i64::MAX - 1)));
    assert_eq!(least.plus(&most), Some(Number::from_integer(-1)));
    assert_eq!(least.divided_by(&least), Some(one));
}

#[test]
fn order_and_equality_go_by_value() {
    let half = fraction(1, 2);
    let third = fraction(1, 3);
    assert!(third.less_than(&half));
    assert!(!half.less_than(&third));
    assert!(!half.less_than(&half));
    assert!(fraction(-1, 2).less_than(&fraction(-1, 3)));
    assert!(half.equals(&fraction(2, 4)));
    assert!(!half.equals(&third));
    assert!(Number::from_integer(i64::MIN).less_than(&Number::from_integer(i64::MAX)));
}

#[test]
fn decimal_literals() {
    let digits = |text: &str| text.chars().collect::<Vec<char>>();
    assert_eq!(
        Number::from_decimal(&digits("100"), &digits("00")),
        Some(Number::from_integer(100))
    );
    assert_eq!(
        Number::from_decimal(&digits("0"), &digits("125")),
        Some(fraction(1, 8))
    );
    assert_eq!(
        Number::from_decimal(&digits(""), &digits("")),
        Some(Number::from_integer(0))
    );
    assert_eq!(
        Number::from_decimal(&digits("9223372036854775807"), &digits("")),
        Some(Number::from_integer(i64::MAX))
    );
    assert_eq!(
        Number::from_decimal(&digits("9223372036854775808"), &digits("")),
        None
    );
    assert_eq!(
        Number::from_decimal(&digits("0"), &digits("000000000000000000")),
        Some(Number::from_integer(0))
    );
    assert_eq!(
        Number::from_decimal(&digits("0"), &digits("0000000000000000000")),
        None
    );
    assert_eq!(Number::from_decimal(&digits("1a"), &digits("")), None);
    assert_eq!(Number::from_decimal(&digits("1"), &digits("-")), None);
}

#[test]
fn scientific_notation() {
    assert_eq!(Number::from_scientific("8"), Some(Number::from_integer(8)));
    assert_eq!(Number::from_scientific("-8"), Some(Number::from_integer(-8)));
    assert_eq!(Number::from_scientific("2.50"), Some(fraction(5, 2)));
    assert_eq!(Number::from_scientific("-0.125"), Some(fraction(-1, 8)));
    assert_eq!(Number::from_scientific("1e3"), Some(Number::from_integer(1000)));
    assert_eq!(Number::from_scientific("1E+3"), Some(Number::from_integer(1000)));
    assert_eq!(Number::from_scientific("25e-1"), Some(fraction(5, 2)));
    assert_eq!(Number::from_scientific("1.5e18"), Some(Number::from_integer(1_500_000_000_000_000_000)));
    assert_eq!(Number::from_scientific("-0"), Some(Number::from_integer(0)));
    assert_eq!(Number::from_scientific("0e0"), Some(Number::from_integer(0)));
}

#[test]
fn text_that_writes_no_number() {
    for text in [
        "", "-", ".", ".5", "5.", "1e", "1e+", "e5", "1.5.2", "1 ", " 1", "+1", "1e1.5", "0x10",
        "1e19", "1e-19", "--1", "1,5", "NaN",
    ] {
        assert_eq!(Number::from_scientific(text), None);
    }
}
