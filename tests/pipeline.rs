use postfix_calc::{parse, Expression, ParseError};

fn chars(s: &str) -> Vec<char> {
    s.chars().collect()
}

fn value_of(s: &str) -> Result<i32, String> {
    parse(chars(s)).expect("parses").evaluate()
}

fn rendered(s: &str) -> String {
    parse(chars(s)).expect("parses").render()
}

#[test]
fn addition_of_two_literals() {
    assert_eq!(value_of("3 4 +"), Ok(7));
    assert_eq!(rendered("3 4 +"), "(3 + 4)");
}

#[test]
fn subtraction_keeps_operand_order() {
    assert_eq!(value_of("10 4 -"), Ok(6));
    assert_eq!(value_of("4 10 -"), Ok(-6));
    assert_eq!(rendered("4 10 -"), "(4 - 10)");
}

#[test]
fn multiplication_of_two_literals() {
    assert_eq!(value_of("6 7 *"), Ok(42));
}

#[test]
fn division_truncates() {
    assert_eq!(value_of("7 2 /"), Ok(3));
    assert_eq!(value_of("2 7 /"), Ok(0));
    assert_eq!(value_of("0 7 - 2 /"), Ok(-3));
    assert_eq!(value_of("7 0 2 - /"), Ok(-3));
}

#[test]
fn division_by_zero_fails_and_tree_still_renders() {
    let e = parse(chars("5 0 /")).expect("parses");
    assert_eq!(e.evaluate(), Err("Division by zero.".to_string()));
    assert_eq!(e.render(), "(5 / 0)");
}

#[test]
fn division_by_zero_deep_in_the_tree() {
    assert_eq!(value_of("1 2 3 3 - / +"), Err("Division by zero.".to_string()));
    assert_eq!(value_of("1 0 / 2 0 / +"), Err("Division by zero.".to_string()));
}

#[test]
fn operator_without_operands() {
    let r = parse(chars("+"));
    assert_eq!(r.as_ref().err(), Some(&ParseError::InvalidFormat));
    assert_eq!(ParseError::InvalidFormat.message(), "Input has an invalid format.");
}

#[test]
fn operator_with_one_operand() {
    assert_eq!(parse(chars("1 +")).err(), Some(ParseError::InvalidFormat));
}

#[test]
fn leftover_operands() {
    assert_eq!(parse(chars("1 2")).err(), Some(ParseError::InvalidFormat));
}

#[test]
fn empty_input() {
    assert_eq!(parse(chars("")).err(), Some(ParseError::InvalidFormat));
    assert_eq!(parse(chars("   ")).err(), Some(ParseError::InvalidFormat));
}

#[test]
fn unknown_character() {
    let err = parse(chars("1 2 ^")).err().expect("fails");
    assert_eq!(err, ParseError::UnexpectedCharacter('^'));
    assert_eq!(err.message(), "Unexpected character '^' found.");
}

#[test]
fn first_failure_decides() {
    assert_eq!(parse(chars("+ x")).err(), Some(ParseError::InvalidFormat));
    assert_eq!(parse(chars("x +")).err(), Some(ParseError::UnexpectedCharacter('x')));
}

#[test]
fn nested_rendering() {
    assert_eq!(rendered("3 4 + 2 *"), "((3 + 4) * 2)");
    assert_eq!(value_of("3 4 + 2 *"), Ok(14));
    assert_eq!(rendered("1 2 3 * -"), "(1 - (2 * 3))");
    assert_eq!(value_of("1 2 3 * -"), Ok(-5));
}

#[test]
fn spaces_only_separate() {
    let a = parse(chars("  3   4 +  ")).expect("parses");
    let b = parse(chars("3 4 +")).expect("parses");
    let c = parse(chars("3 4+")).expect("parses");
    assert_eq!(a.render(), "(3 + 4)");
    assert_eq!(b.render(), "(3 + 4)");
    assert_eq!(c.render(), "(3 + 4)");
    assert_eq!(a.evaluate(), Ok(7));
    assert_eq!(c.evaluate(), Ok(7));
}

#[test]
fn space_splits_a_numeral() {
    assert_eq!(parse(chars("12")).map(|e| e.render()), Ok("12".to_string()));
    assert_eq!(parse(chars("1 2")).err(), Some(ParseError::InvalidFormat));
}

#[test]
fn evaluation_is_repeatable() {
    let e = parse(chars("8 3 - 4 *")).expect("parses");
    let first = e.evaluate();
    let second = e.evaluate();
    assert_eq!(first, Ok(20));
    assert_eq!(first, second);
    assert_eq!(e.render(), "((8 - 3) * 4)");
}

#[test]
fn sum_wraps_past_the_largest_value() {
    assert_eq!(value_of("2147483647 1 +"), Ok(-2147483648));
    assert_eq!(value_of("65536 65536 *"), Ok(0));
}

#[test]
fn overflowing_quotient_wraps() {
    assert_eq!(value_of("0 2147483647 - 1 - 0 1 - /"), Ok(-2147483648));
}

#[test]
fn large_literal_wraps() {
    assert_eq!(rendered("4294967297"), "1");
    assert_eq!(rendered("2147483648"), "-2147483648");
    assert_eq!(value_of("4294967296 5 +"), Ok(5));
}

#[test]
fn leading_zeros() {
    assert_eq!(rendered("007 010 +"), "(7 + 10)");
}

#[test]
fn trees_built_directly() {
    let e = Expression::Division(
        Box::new(Expression::Literal(9)),
        Box::new(Expression::Subtraction(
            Box::new(Expression::Literal(1)),
            Box::new(Expression::Literal(4)),
        )),
    );
    assert_eq!(e.evaluate(), Ok(-3));
    assert_eq!(e.render(), "(9 / (1 - 4))");
    assert_eq!(Expression::Literal(-12).render(), "-12");
    assert_eq!(Expression::Literal(0).render(), "0");
}
