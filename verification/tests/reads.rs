use std::cell::RefCell;
use std::collections::HashMap;

use lib::expression::{Expression, Operand, Operator};
use lib::lexer::{tokenize, Token};
use lib::eval::evaluate;
use lib::value::{ContractError, StructureReader, StructuredValue};

/// A reader that writes down every path it is asked for.
struct RecordingReader {
    values: HashMap<String, StructuredValue>,
    asked: RefCell<Vec<String>>,
}

impl RecordingReader {
    fn new(pairs: Vec<(&str, StructuredValue)>) -> Self {
        Self {
            values: pairs
                .into_iter()
                .map(|(path, value)| (path.to_string(), value))
                .collect(),
            asked: RefCell::new(Vec::new()),
        }
    }

    fn asked(&self) -> Vec<String> {
        self.asked.replace(Vec::new())
    }
}

impl StructureReader for RecordingReader {
    fn read(&self, path: &str) -> Result<Option<StructuredValue>, ContractError> {
        self.asked.borrow_mut().push(path.to_string());
        if path == "/broken" {
            return Err(ContractError {
                message: "refused".to_string(),
            });
        }
        Ok(self.values.get(path).cloned())
    }
}

fn truth(predicate: &str, reader: &RecordingReader) -> Result<bool, String> {
    let parsed = Expression::parse(predicate).expect("parses");
    evaluate(&parsed, reader).map_err(|e| e.message)
}

fn paths(list: &[&str]) -> Vec<String> {
    list.iter().map(|p| p.to_string()).collect()
}

#[test]
fn exists_reads_its_own_path_once() {
    let reader = RecordingReader::new(vec![("/null", StructuredValue::Null)]);
    assert_eq!(truth("exists('/null')", &reader), Ok(true));
    assert_eq!(reader.asked(), paths(&["/null"]));
    assert_eq!(truth("exists('/none')", &reader), Ok(false));
    assert_eq!(reader.asked(), paths(&["/none"]));
    assert_eq!(truth("exists('/broken')", &reader), Err("refused".to_string()));
    assert_eq!(reader.asked(), paths(&["/broken"]));
}

#[test]
fn paths_are_read_in_order_and_only_those_named() {
    let reader = RecordingReader::new(vec![
        ("/a", StructuredValue::Integer(1)),
        ("/b", StructuredValue::Text("xy".to_string())),
    ]);
    assert_eq!(
        truth("'/a' = 1 and starts-with('/b', \"x\") and not contains('/c', \"z\")", &reader),
        Ok(true)
    );
    assert_eq!(reader.asked(), paths(&["/a", "/b", "/c"]));
    assert_eq!(truth("'/b' > '/a'", &reader), Err(
        "predicate: '/b' is Text and '/a' is Integer: not comparable".to_string()
    ));
    assert_eq!(reader.asked(), paths(&["/b", "/a"]));
}

#[test]
fn a_decided_connective_reads_nothing_of_its_right_side() {
    let reader = RecordingReader::new(vec![("/a", StructuredValue::Integer(2))]);
    assert_eq!(truth("'/a' = 1 and '/broken' = 2", &reader), Ok(false));
    assert_eq!(reader.asked(), paths(&["/a"]));
    assert_eq!(truth("'/a' = 2 or '/broken' = 2", &reader), Ok(true));
    assert_eq!(reader.asked(), paths(&["/a"]));
    assert_eq!(truth("'/a' = 2 and '/broken' = 2", &reader), Err("refused".to_string()));
    assert_eq!(reader.asked(), paths(&["/a", "/broken"]));
    assert_eq!(truth("'/a' = 1 or '/b' = 2", &reader), Ok(false));
    assert_eq!(reader.asked(), paths(&["/a", "/b"]));
}

#[test]
fn connectives_agree_with_their_parts_over_one_reader() {
    let reader = RecordingReader::new(vec![
        ("/a", StructuredValue::Integer(2)),
        ("/b", StructuredValue::Bool(true)),
    ]);
    for (a, b) in [("'/a' = 2", "'/b' = true"), ("'/a' < 2", "'/b' = true"), ("'/a' = 2", "'/b' = 1")] {
        let ta = truth(a, &reader);
        let tb = truth(b, &reader);
        assert_eq!(truth(&format!("not ({a})"), &reader), ta.clone().map(|x| !x));
        let and = truth(&format!("({a}) and ({b})"), &reader);
        assert_eq!(and, match ta.clone() { Ok(true) => tb.clone(), other => other });
        let or = truth(&format!("({a}) or ({b})"), &reader);
        assert_eq!(or, match ta { Ok(false) => tb, other => other });
    }
}

#[test]
fn a_failure_is_a_read_or_one_the_engine_writes() {
    let reader = RecordingReader::new(vec![("/n", StructuredValue::Integer(3))]);
    assert_eq!(truth("'/broken' = 1", &reader), Err("refused".to_string()));
    assert_eq!(
        truth("contains('/n', \"3\")", &reader),
        Err("predicate: '/n' is Integer; contains() needs Text".to_string())
    );
    assert_eq!(
        truth("'/n' = \"3\"", &reader),
        Err("predicate: '/n' is Integer and \"3\" is Text: not comparable".to_string())
    );
}

#[test]
fn quoting_undoes_escaping() {
    assert_eq!(
        tokenize("'a\\'b\\\\c\"d'").expect("lexes"),
        vec![Token::Path("a'b\\c\"d".into())]
    );
    assert_eq!(
        tokenize("\"a\\\"b\\\\c'd\"").expect("lexes"),
        vec![Token::Text("a\"b\\c'd".into())]
    );
}

#[test]
fn a_stray_character_fails_the_whole_predicate() {
    assert_eq!(
        tokenize("'/a' = 1 and # or").map_err(|e| e.message),
        Err("predicate: unexpected '#' at 13 in \"'/a' = 1 and # or\"".to_string())
    );
}

fn equals(path_text: &str, integer: i64) -> Box<Expression> {
    Box::new(Expression::Compare {
        left: Operand::Path(path_text.into()),
        operator: Operator::Equal,
        right: Operand::Literal(StructuredValue::Integer(integer)),
    })
}

#[test]
fn calls_and_groups_bind_as_operands() {
    let exists = || Box::new(Expression::Exists("/e".into()));
    let starts = || {
        Box::new(Expression::StartsWith {
            path: "/s".into(),
            text: "x".into(),
        })
    };
    let group = || Box::new(Expression::Or(equals("/a", 1), equals("/b", 2)));
    assert_eq!(
        Expression::parse("exists('/e') or starts-with('/s', \"x\") and ('/a' = 1 or '/b' = 2)")
            .expect("parses"),
        Expression::Or(exists(), Box::new(Expression::And(starts(), group())))
    );
    assert_eq!(
        Expression::parse("exists('/e') and starts-with('/s', \"x\") or ('/a' = 1 or '/b' = 2)")
            .expect("parses"),
        Expression::Or(Box::new(Expression::And(exists(), starts())), group())
    );
    assert_eq!(
        Expression::parse("exists('/e') and starts-with('/s', \"x\") and ('/a' = 1 or '/b' = 2)")
            .expect("parses"),
        Expression::And(Box::new(Expression::And(exists(), starts())), group())
    );
    assert_eq!(
        Expression::parse("exists('/e') or starts-with('/s', \"x\") or ('/a' = 1 or '/b' = 2)")
            .expect("parses"),
        Expression::Or(Box::new(Expression::Or(exists(), starts())), group())
    );
    assert_eq!(
        Expression::parse("not ('/a' = 1 or '/b' = 2) and exists('/e')").expect("parses"),
        Expression::And(Box::new(Expression::Not(group())), exists())
    );
    assert_eq!(
        Expression::parse("(('/a' = 1 or '/b' = 2))").expect("parses"),
        *group()
    );
}
