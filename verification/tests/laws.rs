use std::cell::Cell;
use std::collections::HashMap;

use lib::decimal::Decimal;
use lib::eval::{compare_values, evaluate, order, value_of_answer};
use lib::expression::{Expression, Operand, Operator};
use lib::lexer::{tokenize, Token};
use lib::order::Order;
use lib::value::{ContractError, StructureReader, StructuredValue};

/// A reader that counts what it is asked.
struct CountingReader {
    values: HashMap<String, StructuredValue>,
    asked: Cell<usize>,
}

impl CountingReader {
    fn new(pairs: Vec<(&str, StructuredValue)>) -> Self {
        Self {
            values: pairs
                .into_iter()
                .map(|(path, value)| (path.to_string(), value))
                .collect(),
            asked: Cell::new(0),
        }
    }
}

impl StructureReader for CountingReader {
    fn read(&self, path: &str) -> Result<Option<StructuredValue>, ContractError> {
        self.asked.set(self.asked.get() + 1);
        if path == "/broken" {
            return Err(ContractError {
                message: "refused".to_string(),
            });
        }
        Ok(self.values.get(path).cloned())
    }
}

fn truth(predicate: &str, reader: &CountingReader) -> Result<bool, String> {
    let parsed = Expression::parse(predicate).expect("parses");
    evaluate(&parsed, reader).map_err(|e| e.message)
}

fn path(text: &str) -> Operand {
    Operand::Path(text.into())
}

fn integer(n: i64) -> StructuredValue {
    StructuredValue::Integer(n)
}

fn decimal(text: &str) -> StructuredValue {
    StructuredValue::Decimal(Decimal::from_text(text).expect("a decimal"))
}

#[test]
fn each_path_operand_is_read_once() {
    let reader = CountingReader::new(vec![("/a", integer(1)), ("/b", integer(2))]);
    assert_eq!(truth("'/a' < '/b' and exists('/c')", &reader), Ok(false));
    assert_eq!(reader.asked.get(), 3);
    reader.asked.set(0);
    assert_eq!(truth("'/a' = 2 and '/b' = 2", &reader), Ok(false));
    assert_eq!(reader.asked.get(), 1);
    reader.asked.set(0);
    assert_eq!(truth("1 = 1", &reader), Ok(true));
    assert_eq!(reader.asked.get(), 0);
    reader.asked.set(0);
    assert_eq!(truth("'/broken' = '/a'", &reader), Err("refused".to_string()));
    assert_eq!(reader.asked.get(), 1);
}

#[test]
fn a_missing_path_and_a_present_null_compare_alike() {
    let reader = CountingReader::new(vec![("/null", StructuredValue::Null)]);
    for operator in ["=", "!=", "<", "<=", ">", ">="] {
        for right in ["null", "1", "\"x\"", "'/null'"] {
            let absent = format!("'/none' {operator} {right}");
            let present = format!("'/null' {operator} {right}");
            assert_eq!(truth(&absent, &reader), truth(&present, &reader), "{absent}");
        }
    }
    assert_eq!(truth("exists('/null')", &reader), Ok(true));
    assert_eq!(truth("exists('/none')", &reader), Ok(false));
}

#[test]
fn not_equal_negates_equal_and_orderings_complement() {
    let values = [
        integer(3),
        decimal("3.0"),
        decimal("-2.5"),
        StructuredValue::Text("b".into()),
        StructuredValue::Bool(true),
        StructuredValue::Binary(vec![1, 2]),
    ];
    let l = path("/l");
    let r = path("/r");
    for a in &values {
        for b in &values {
            let eq = compare_values(&l, a, Operator::Equal, &r, b).map_err(|e| e.message);
            let ne = compare_values(&l, a, Operator::NotEqual, &r, b).map_err(|e| e.message);
            assert_eq!(ne, eq.clone().map(|x| !x));
            let lt = compare_values(&l, a, Operator::Less, &r, b).map_err(|e| e.message);
            let ge = compare_values(&l, a, Operator::GreaterOrEqual, &r, b).map_err(|e| e.message);
            assert_eq!(lt, ge.map(|x| !x));
            let gt = compare_values(&r, b, Operator::Greater, &l, a).ok();
            assert_eq!(lt.ok(), gt);
        }
    }
}

#[test]
fn only_equality_speaks_of_null() {
    let null = StructuredValue::Null;
    let one = integer(1);
    let l = path("/l");
    let r = path("/r");
    assert_eq!(compare_values(&l, &null, Operator::Equal, &r, &null), Ok(true));
    assert_eq!(compare_values(&l, &null, Operator::NotEqual, &r, &one), Ok(true));
    assert_eq!(compare_values(&l, &one, Operator::Equal, &r, &null), Ok(false));
    assert_eq!(compare_values(&l, &null, Operator::LessOrEqual, &r, &null), Ok(false));
    assert_eq!(compare_values(&l, &one, Operator::Greater, &r, &null), Ok(false));
}

#[test]
fn kinds_that_do_not_compare_are_named() {
    let l = path("/l");
    let message = compare_values(
        &l,
        &StructuredValue::Binary(vec![0; 4]),
        Operator::Less,
        &Operand::Literal(integer(-7)),
        &integer(-7),
    )
    .expect_err("refused")
    .message;
    assert_eq!(
        message,
        "predicate: '/l' is Binary and -7 is Integer: not comparable"
    );
    let message = compare_values(
        &Operand::Literal(StructuredValue::Binary(vec![0; 4])),
        &StructuredValue::Binary(vec![0; 4]),
        Operator::Less,
        &Operand::Literal(StructuredValue::Bool(false)),
        &StructuredValue::Bool(false),
    )
    .expect_err("refused")
    .message;
    assert_eq!(
        message,
        "predicate: 4 bytes is Binary and false is Bool: not comparable"
    );
}

#[test]
fn an_integer_compares_as_the_decimal_of_its_value() {
    assert_eq!(order(&integer(3), &decimal("3.000")), Some(Order::Equal));
    assert_eq!(order(&decimal("2.999"), &integer(3)), Some(Order::Less));
    assert_eq!(order(&integer(-3), &decimal("-3.5")), Some(Order::Greater));
    assert_eq!(order(&integer(i64::MIN), &decimal("-9223372036854775808.0")), Some(Order::Equal));
    assert_eq!(order(&integer(i64::MAX), &decimal("9223372036854775807.5")), Some(Order::Less));
    assert_eq!(order(&decimal("-0.0"), &integer(0)), Some(Order::Less));
    assert_eq!(order(&decimal("0.0"), &integer(0)), Some(Order::Equal));
    assert_eq!(order(&decimal("10"), &decimal("9.99")), Some(Order::Greater));
    assert_eq!(order(&integer(1), &StructuredValue::Text("1".into())), None);
}

#[test]
fn lexical_orders_hold_for_text_and_bytes() {
    let text = |s: &str| StructuredValue::Text(s.into());
    let bytes = |b: &[u8]| StructuredValue::Binary(b.to_vec());
    assert_eq!(order(&text("abc"), &text("abd")), Some(Order::Less));
    assert_eq!(order(&text("ab"), &text("a")), Some(Order::Greater));
    assert_eq!(order(&text(""), &text("")), Some(Order::Equal));
    assert_eq!(order(&bytes(&[1, 255]), &bytes(&[2])), Some(Order::Less));
    assert_eq!(order(&bytes(&[1, 2]), &bytes(&[1, 2])), Some(Order::Equal));
    assert_eq!(
        order(&StructuredValue::Bool(true), &StructuredValue::Bool(false)),
        Some(Order::Greater)
    );
}

#[test]
fn a_reader_answer_is_a_value_or_null() {
    assert_eq!(value_of_answer(Ok(None)), Ok(StructuredValue::Null));
    assert_eq!(value_of_answer(Ok(Some(integer(5)))), Ok(integer(5)));
    let refused = ContractError {
        message: "no".to_string(),
    };
    assert_eq!(
        value_of_answer(Err(refused)).expect_err("refused").message,
        "no"
    );
}

#[test]
fn any_letter_begins_a_word_and_any_whitespace_separates() {
    assert_eq!(
        tokenize("été\u{3000}Ωmega_2").expect("lexes"),
        vec![Token::Word("été".into()), Token::Word("Ωmega_2".into())]
    );
    assert_eq!(
        tokenize("=\u{a0}=").expect("lexes"),
        vec![Token::Equal, Token::Equal]
    );
    assert_eq!(
        tokenize("'a'\"b\"").expect("lexes"),
        vec![Token::Path("a".into()), Token::Text("b".into())]
    );
}

#[test]
fn white_space_only_separates_two_texts_that_lex() {
    let a = "exists('/x') or";
    let b = "1.5 >= -2 and \"t\" != null";
    for c in [" ", "\t", "\n", "\r", "\u{2003}"] {
        let mut joined = tokenize(a).expect("lexes");
        joined.extend(tokenize(b).expect("lexes"));
        assert_eq!(tokenize(&format!("{a}{c}{b}")).expect("lexes"), joined);
    }
}
