use std::collections::HashMap;

use lib::decimal::Decimal;
use lib::eval::evaluate;
use lib::expression::Expression;
use lib::value::{ContractError, StructureReader, StructuredValue};

/// A reader backed by a map of path to value, standing in for any real
/// structure reader. One path, `/broken`, fails on purpose.
struct MapReader {
    values: HashMap<String, StructuredValue>,
}

impl MapReader {
    fn order() -> Self {
        let values = [
            ("/order/id", StructuredValue::Text("A1".into())),
            (
                "/order/customer",
                StructuredValue::Text("Ilian Nilsson".into()),
            ),
            (
                "/order/amount",
                StructuredValue::Decimal(Decimal::from_text("120.5").expect("a decimal")),
            ),
            ("/order/qty", StructuredValue::Integer(3)),
            ("/order/lines", StructuredValue::Integer(3)),
            ("/order/paid", StructuredValue::Bool(false)),
            ("/order/note", StructuredValue::Null),
        ]
        .into_iter()
        .map(|(path, value)| (path.to_string(), value))
        .collect();
        Self { values }
    }
}

impl StructureReader for MapReader {
    fn read(&self, path: &str) -> Result<Option<StructuredValue>, ContractError> {
        if path == "/broken" {
            return Err(ContractError {
                message: "the fixture refuses /broken".to_string(),
            });
        }
        Ok(self.values.get(path).cloned())
    }
}

fn holds(predicate: &str, reader: &MapReader) -> bool {
    let parsed = Expression::parse(predicate).expect("parses");
    evaluate(&parsed, reader).expect("evaluates")
}

fn fails(predicate: &str, reader: &MapReader) -> String {
    let parsed = Expression::parse(predicate).expect("parses");
    evaluate(&parsed, reader).expect_err("refused").message
}

#[test]
fn compares_numbers_text_and_booleans_with_promotion() {
    let reader = MapReader::order();
    assert!(holds("'/order/amount' > 100", &reader));
    assert!(holds("'/order/amount' >= 120.5", &reader));
    assert!(holds("'/order/amount' = 120.5", &reader));
    assert!(holds("'/order/qty' = 3.0", &reader));
    assert!(holds("'/order/qty' < 3.5 and '/order/qty' >= 3", &reader));
    assert!(holds("'/order/id' = \"A1\"", &reader));
    assert!(holds("'/order/id' < \"B\"", &reader));
    assert!(holds("'/order/id' != \"a1\"", &reader));
    assert!(holds("'/order/paid' = false", &reader));
    assert!(holds("'/order/qty' = '/order/lines'", &reader));
    assert!(!holds("'/order/qty' != '/order/lines'", &reader));
    assert!(holds("\"b\" > \"a\"", &reader));
}

#[test]
fn a_missing_path_is_null_and_only_null_tests_and_exists_speak_of_it() {
    let reader = MapReader::order();
    assert!(holds("'/nowhere' = null", &reader));
    assert!(!holds("'/nowhere' != null", &reader));
    assert!(!holds("'/nowhere' = 1", &reader));
    assert!(holds("'/nowhere' != 1", &reader));
    assert!(!holds("'/nowhere' > 1", &reader));
    assert!(!holds("'/nowhere' <= \"z\"", &reader));
    assert!(!holds("exists('/nowhere')", &reader));
    assert!(holds("exists('/order/note')", &reader));
    assert!(holds("'/order/note' = null", &reader));
    assert!(holds("'/order/note' = '/nowhere'", &reader));
    assert!(!holds("starts-with('/nowhere', \"A\")", &reader));
    assert!(!holds("contains('/order/note', \"A\")", &reader));
}

#[test]
fn text_functions_and_the_connectives_hold_together() {
    let reader = MapReader::order();
    assert!(holds("starts-with('/order/id', \"A\")", &reader));
    assert!(!holds("starts-with('/order/id', \"B\")", &reader));
    assert!(holds("contains('/order/customer', \"Nils\")", &reader));
    assert!(holds("not contains('/order/customer', \"Karl\")", &reader));
    assert!(holds(
        "'/order/paid' = true or '/order/amount' > 100",
        &reader
    ));
    assert!(!holds(
        "'/order/paid' = true and '/order/amount' > 100",
        &reader
    ));
    assert!(holds(
        "not ('/order/paid' = true and '/order/amount' > 100)",
        &reader
    ));
    assert!(holds("not not '/order/paid' = false", &reader));
}

#[test]
fn precedence_is_or_over_and_over_not() {
    let reader = MapReader::order();
    // a or (b and c): a holds, so the whole holds even though b does not.
    assert!(holds(
        "'/order/qty' = 3 or '/order/paid' = true and '/order/qty' = 3",
        &reader
    ));
    // (a or b) and c would be false here; the parentheses say so.
    assert!(!holds(
        "('/order/qty' = 3 or '/order/paid' = true) and '/order/paid' = true",
        &reader
    ));
    // (b and c) or a, the same predicate the other way round.
    assert!(holds(
        "'/order/paid' = true and '/order/qty' = 3 or '/order/qty' = 3",
        &reader
    ));
    // not binds to the comparison, not to the conjunction.
    assert!(!holds(
        "not '/order/paid' = false and '/order/qty' = 3",
        &reader
    ));
}

#[test]
fn a_kind_mismatch_is_an_error_naming_both_kinds() {
    let reader = MapReader::order();
    assert_eq!(
        fails("'/order/id' < 5", &reader),
        "predicate: '/order/id' is Text and 5 is Integer: not comparable"
    );
    assert_eq!(
        fails("'/order/paid' = \"false\"", &reader),
        "predicate: '/order/paid' is Bool and \"false\" is Text: not comparable"
    );
    assert_eq!(
        fails("starts-with('/order/qty', \"3\")", &reader),
        "predicate: '/order/qty' is Integer; starts-with() needs Text"
    );
    assert!(fails("contains('/order/paid', \"f\")", &reader).contains("contains()"));
}

#[test]
fn a_reader_that_fails_fails_the_predicate() {
    let reader = MapReader::order();
    assert_eq!(
        fails("'/broken' = 1", &reader),
        "the fixture refuses /broken"
    );
    assert!(evaluate(&Expression::Exists("/broken".into()), &reader).is_err());
}

#[test]
fn a_decided_connective_does_not_read_its_right_side() {
    let reader = MapReader::order();
    assert!(!holds("'/order/paid' = true and '/broken' = 1", &reader));
    assert!(holds("'/order/qty' = 3 or '/broken' = 1", &reader));
    assert_eq!(
        fails("'/order/qty' = 3 and '/broken' = 1", &reader),
        "the fixture refuses /broken"
    );
    assert_eq!(
        fails("'/broken' = 1 or '/order/qty' = 3", &reader),
        "the fixture refuses /broken"
    );
}

#[test]
fn decimals_compare_by_value() {
    let reader = MapReader::order();
    assert!(holds("'/order/amount' = 120.50", &reader));
    assert!(holds("'/order/amount' < 120.51", &reader));
    assert!(holds("'/order/amount' > -120.5", &reader));
    assert!(!holds("-0.0 = 0", &reader));
    assert!(holds("-0.0 < 0", &reader));
    assert!(holds("0.0 = 0", &reader));
    assert!(holds("-1.5 < -1", &reader));
    assert!(holds("-2 < -1.5", &reader));
    assert!(holds("100000000000000000000.5 > 9223372036854775807", &reader));
    assert_eq!(
        fails("'/order/amount' = \"x\"", &reader),
        "predicate: '/order/amount' is Decimal and \"x\" is Text: not comparable"
    );
    assert_eq!(
        fails("12.50 = true", &reader),
        "predicate: 12.5 is Decimal and true is Bool: not comparable"
    );
    assert_eq!(
        fails("3.0 != null and 3.0 < false", &reader),
        "predicate: 3 is Decimal and false is Bool: not comparable"
    );
}

#[test]
fn text_orders_by_characters_and_contains_looks_everywhere() {
    let reader = MapReader::order();
    assert!(holds("\"ab\" < \"abc\"", &reader));
    assert!(holds("\"Z\" < \"a\"", &reader));
    assert!(holds("\"é\" > \"z\"", &reader));
    assert!(holds("contains('/order/customer', \"son\")", &reader));
    assert!(holds("contains('/order/customer', \"\")", &reader));
    assert!(!holds("contains('/order/customer', \"Nilsson!\")", &reader));
    assert!(holds("starts-with('/order/customer', \"Ilian Nilsson\")", &reader));
    assert!(!holds("starts-with('/order/customer', \"Ilian Nilsson \")", &reader));
    assert!(holds("true > false", &reader));
}
