use lib::decimal::Decimal;
use lib::expression::{Expression, Operand, Operator};
use lib::value::StructuredValue;

// A boxed operand is what the tree holds, so the helper hands one back.
#[allow(clippy::unnecessary_box_returns)]
fn equals(path_text: &str, integer: i64) -> Box<Expression> {
    Box::new(Expression::Compare {
        left: path(path_text),
        operator: Operator::Equal,
        right: Operand::Literal(StructuredValue::Integer(integer)),
    })
}

fn path(text: &str) -> Operand {
    Operand::Path(text.into())
}

#[test]
fn or_binds_looser_than_and_which_binds_looser_than_not() {
    let parsed = Expression::parse("'/a' = 1 or not '/b' = 2 and '/c' = 3").expect("parses");
    let a = equals("/a", 1);
    let b = equals("/b", 2);
    let c = equals("/c", 3);
    assert_eq!(
        parsed,
        Expression::Or(
            a,
            Box::new(Expression::And(Box::new(Expression::Not(b)), c))
        )
    );
}

#[test]
fn parentheses_functions_and_every_literal_parse() {
    let parsed = Expression::parse(
        "('/a' = \"x\" or '/b' != null) and exists('/c') \
         and starts-with('/d', \"pre\") and contains('/e', \"in\") \
         and '/f' <= true",
    )
    .expect("parses");
    let Expression::And(rest, last) = parsed else {
        panic!("and at the top");
    };
    assert_eq!(
        *last,
        Expression::Compare {
            left: path("/f"),
            operator: Operator::LessOrEqual,
            right: Operand::Literal(StructuredValue::Bool(true)),
        }
    );
    let Expression::And(rest, contains) = *rest else {
        panic!("and below");
    };
    assert_eq!(
        *contains,
        Expression::Contains {
            path: "/e".into(),
            text: "in".into()
        }
    );
    let Expression::And(rest, starts) = *rest else {
        panic!("and below");
    };
    assert_eq!(
        *starts,
        Expression::StartsWith {
            path: "/d".into(),
            text: "pre".into()
        }
    );
    let Expression::And(group, exists) = *rest else {
        panic!("and below");
    };
    assert_eq!(*exists, Expression::Exists("/c".into()));
    assert!(matches!(*group, Expression::Or(..)));
}

#[test]
fn refuses_what_a_predicate_does_not_have() {
    let unknown = Expression::parse("length('/a')").expect_err("refused");
    assert_eq!(
        unknown.message,
        "predicate: length() is not a function a predicate has"
    );
    assert!(Expression::parse("'/a'").is_err());
    assert!(Expression::parse("'/a' = ").is_err());
    assert!(Expression::parse("'/a' = 1 '/b' = 2").is_err());
    assert!(Expression::parse("('/a' = 1").is_err());
    assert!(Expression::parse("exists(\"/a\")").is_err());
    assert!(Expression::parse("starts-with('/a', '/b')").is_err());
    assert!(Expression::parse("").is_err());
}

#[test]
fn parse_errors_name_what_was_found() {
    let cases = [
        ("'/a'", "predicate: expected a comparison, found None"),
        ("'/a' = ", "predicate: expected a 'path' or a literal, found None"),
        (
            "'/a' = 1 '/b' = 2",
            "predicate: unexpected Path(\"/b\") after the predicate",
        ),
        ("('/a' = 1", "predicate: expected CloseParen, found None"),
        (
            "exists(\"/a\")",
            "predicate: expected a 'path', found Some(Text(\"/a\"))",
        ),
        (
            "starts-with('/a', '/b')",
            "predicate: starts-with() needs a \"text\", found Some(Path(\"/b\"))",
        ),
        (
            "contains('/a' \"x\")",
            "predicate: expected Comma, found Some(Text(\"x\"))",
        ),
        (
            "'/a' = 1.50 2",
            "predicate: unexpected Integer(2) after the predicate",
        ),
        (
            "'/a' 2.0",
            "predicate: expected a comparison, found Some(Decimal(2.0))",
        ),
        ("", "predicate: expected a 'path' or a literal, found None"),
    ];
    for (text, message) in cases {
        assert_eq!(
            Expression::parse(text).expect_err("refused").message,
            message,
            "{text}"
        );
    }
}

#[test]
fn literals_parse_to_their_values() {
    let parsed = Expression::parse("'/a' >= -0.25").expect("parses");
    assert_eq!(
        parsed,
        Expression::Compare {
            left: path("/a"),
            operator: Operator::GreaterOrEqual,
            right: Operand::Literal(StructuredValue::Decimal(
                Decimal::from_text("-0.25").expect("a decimal")
            )),
        }
    );
    let parsed = Expression::parse("null != \"x\"").expect("parses");
    assert_eq!(
        parsed,
        Expression::Compare {
            left: Operand::Literal(StructuredValue::Null),
            operator: Operator::NotEqual,
            right: Operand::Literal(StructuredValue::Text("x".into())),
        }
    );
    let parsed = Expression::parse("not not exists('/x')").expect("parses");
    assert_eq!(
        parsed,
        Expression::Not(Box::new(Expression::Not(Box::new(Expression::Exists(
            "/x".into()
        )))))
    );
}
