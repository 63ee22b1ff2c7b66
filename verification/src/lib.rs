//! The predicate path technology.
//!
//! One engine, because this language addresses no content of its own:
//! [`PredicateEngine`], the engine for the language `predicate`. A predicate
//! is a boolean expression whose operands are paths in the language of
//! whatever [`StructureReader`] the engine is handed — `'/order/amount'` for
//! a JSON Pointer reader, `'order.amount'` for a dot reader; the engine does
//! not know and does not need to, it calls `reader.read(path)` and reasons
//! about the scalars that come back. A route or a Subscription reads one
//! truth from content this way: `'/order/amount' > 100 and
//! starts-with('/order/id', "EU")`.
//!
//! The language: comparisons `=`, `!=`, `<`, `<=`, `>`, `>=` between paths and
//! literals (`"text"`, integers, decimals, `true`, `false`, `null`);
//! `exists('path')`, `starts-with('path', "text")`, `contains('path', "text")`;
//! `and`, `or`, `not` in that order of loosening precedence; parentheses. An
//! integer beside a decimal is promoted to decimal, text compares lexically,
//! two present values of different kinds are an error naming both, and a
//! path the reader has nothing for compares as null. Read yields a
//! [`StructuredValue::Bool`]; write is refused, because a predicate is read,
//! not written.

use vstd::prelude::*;

pub mod decimal;
pub mod eval;
pub mod expression;
pub mod laws;
pub mod lexer;
pub mod order;
pub mod text;
pub mod value;

pub use decimal::Decimal;
pub use eval::evaluate;
pub use expression::{Expression, Operand, Operator};
pub use lexer::{tokenize, Token};
pub use value::{ContractError, StructureReader, StructureWriter, StructuredValue};

use eval::is_run;
use value::Answer;
use expression::parse_predicate;
use text::push_str;
use value::{error, predicate_message};

verus! {

/// A path: an expression in some path language.
#[derive(Debug, PartialEq)]
pub struct Path {
    /// The language the expression is written in.
    pub language: String,
    /// The expression.
    pub expression: String,
}

impl Path {
    /// The path `expression` in the language `language`.
    pub fn new(language: &str, expression: &str) -> (r: Path)
        ensures
            r.language@ == language@,
            r.expression@ == expression@,
    {
        let mut l = String::new();
        push_str(&mut l, language);
        let mut e = String::new();
        push_str(&mut e, expression);
        Path { language: l, expression: e }
    }
}

/// What answering a path costs.
#[derive(Clone, Copy, Debug, PartialEq, Eq, Structural)]
pub enum PathCost {
    /// The content must be materialised to answer.
    Materialized,
}

/// The `predicate` engine. It parses the expression and evaluates it through
/// the reader it is given; the outcome rests on at most one answer per path
/// operand.
pub struct PredicateEngine;

/// How a read's outcome reads as a truth.
pub open spec fn read_truth(r: Result<Option<StructuredValue>, ContractError>) -> Result<
    bool,
    Seq<char>,
> {
    match r {
        Ok(Some(StructuredValue::Bool(b))) => Ok(b),
        Ok(_) => Ok(false),
        Err(e) => Err(e@),
    }
}

impl PredicateEngine {
    /// The name of the language.
    pub fn language(&self) -> (r: &'static str)
        ensures
            r@ == "predicate"@,
    {
        "predicate"
    }

    /// The truth of the predicate `path.expression`, read through `reader`.
    ///
    /// # Errors
    /// The expression does not parse, or its evaluation fails.
    pub fn read<R: StructureReader>(&self, reader: &R, path: &Path) -> (r: Result<
        Option<StructuredValue>,
        ContractError,
    >)
        ensures
            r matches Ok(v) ==> v matches Some(StructuredValue::Bool(_)),
            parse_predicate(path.expression@) matches Err(m) ==> r matches Err(e) && e@ == m,
            parse_predicate(path.expression@) matches Ok(e) ==> exists|t: Seq<Answer>|
                #[trigger] is_run(reader, e, t, read_truth(r)),
    {
        let expression = match Expression::parse(path.expression.as_str()) {
            Ok(e) => e,
            Err(e) => return Err(e),
        };
        match evaluate(&expression, reader) {
            Ok(truth) => Ok(Some(StructuredValue::Bool(truth))),
            Err(e) => Err(e),
        }
    }

    /// A write, which is refused: a predicate is read, not written. The
    /// writer is not touched.
    ///
    /// # Errors
    /// Always.
    pub fn write<W: StructureWriter>(
        &self,
        writer: &mut W,
        path: &Path,
        value: StructuredValue,
    ) -> (r: Result<(), ContractError>)
        ensures
            r matches Err(e) && e@ == predicate_message("a predicate is read, not written"@),
            *final(writer) == *old(writer),
    {
        let mut m = String::new();
        push_str(&mut m, "a predicate is read, not written");
        Err(error(m))
    }

    /// The cost is the reader's, and the engine cannot know which reader it
    /// will be handed; the most expensive answer is the only honest one.
    pub fn cost(&self, path: &Path) -> (r: PathCost)
        ensures
            r == PathCost::Materialized,
    {
        PathCost::Materialized
    }
}

} // verus!
