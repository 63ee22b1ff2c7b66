use std::collections::HashMap;

use lib::decimal::Decimal;
use lib::value::{ContractError, StructureReader, StructureWriter, StructuredValue};
use lib::{Path, PathCost, PredicateEngine};

struct MapReader {
    values: HashMap<String, StructuredValue>,
}

impl MapReader {
    fn order() -> Self {
        let values = [
            ("/order/id", StructuredValue::Text("A1".into())),
            (
                "/order/amount",
                StructuredValue::Decimal(Decimal::from_text("120.5").expect("a decimal")),
            ),
            ("/order/qty", StructuredValue::Integer(3)),
            ("/order/paid", StructuredValue::Bool(false)),
        ]
        .into_iter()
        .map(|(path, value)| (path.to_string(), value))
        .collect();
        Self { values }
    }
}

impl StructureReader for MapReader {
    fn read(&self, path: &str) -> Result<Option<StructuredValue>, ContractError> {
        Ok(self.values.get(path).cloned())
    }
}

struct NoWriter;

impl StructureWriter for NoWriter {
    fn write(&mut self, _path: &str, _value: StructuredValue) -> Result<(), ContractError> {
        panic!("the engine must refuse before reaching the writer");
    }
}

#[test]
fn reads_one_truth_through_the_reader_it_is_given() {
    let reader = MapReader::order();
    let engine = PredicateEngine;
    let read = |text: &str| engine.read(&reader, &Path::new("predicate", text));
    assert_eq!(engine.language(), "predicate");
    assert_eq!(
        read("'/order/amount' > 100 and starts-with('/order/id', \"A\")").expect("reads"),
        Some(StructuredValue::Bool(true))
    );
    assert_eq!(
        read("'/order/paid' = true or '/nowhere' != null").expect("reads"),
        Some(StructuredValue::Bool(false))
    );
    assert_eq!(
        read("'/order/qty' = 3 or '/order/paid' = true and '/order/qty' = 4").expect("reads"),
        Some(StructuredValue::Bool(true))
    );
    let mismatch = read("'/order/id' > 1").expect_err("refused");
    assert_eq!(
        mismatch.message,
        "predicate: '/order/id' is Text and 1 is Integer: not comparable"
    );
    assert!(read("'/order/id' >").is_err());
    assert_eq!(
        engine.cost(&Path::new("predicate", "'/a' = 1")),
        PathCost::Materialized
    );
}

#[test]
fn a_write_is_refused_before_any_writer_is_touched() {
    let mut writer = NoWriter;
    let refused = PredicateEngine
        .write(
            &mut writer,
            &Path::new("predicate", "'/a' = 1"),
            StructuredValue::Bool(true),
        )
        .expect_err("refused");
    assert_eq!(
        refused.message,
        "predicate: a predicate is read, not written"
    );
}

#[test]
fn a_parse_failure_is_the_read_failure() {
    let reader = MapReader::order();
    let refused = PredicateEngine
        .read(&reader, &Path::new("predicate", "'/a' # 1"))
        .expect_err("refused");
    assert_eq!(
        refused.message,
        "predicate: unexpected '#' at 5 in \"'/a' # 1\""
    );
}
