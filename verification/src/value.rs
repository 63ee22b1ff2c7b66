//! The scalars that a reader answers with, the error that a reader or the
//! engine reports, and the two sides of content: readers and writers.

use vstd::prelude::*;

use crate::decimal::{Decimal, DecimalView};
use crate::text::push_str;

verus! {

/// One scalar of content.
#[derive(Debug, PartialEq)]
pub enum StructuredValue {
    /// Nothing, present.
    Null,
    /// `true` or `false`.
    Bool(bool),
    /// A whole number.
    Integer(i64),
    /// A number with a point.
    Decimal(Decimal),
    /// Text.
    Text(String),
    /// Bytes.
    Binary(Vec<u8>),
}

/// The mathematical content of a [`StructuredValue`].
pub enum ValueView {
    Null,
    Bool(bool),
    Integer(int),
    Decimal(DecimalView),
    Text(Seq<char>),
    Binary(Seq<u8>),
}

impl View for StructuredValue {
    type V = ValueView;

    open spec fn view(&self) -> ValueView {
        match self {
            StructuredValue::Null => ValueView::Null,
            StructuredValue::Bool(b) => ValueView::Bool(*b),
            StructuredValue::Integer(i) => ValueView::Integer(*i as int),
            StructuredValue::Decimal(d) => ValueView::Decimal(d@),
            StructuredValue::Text(t) => ValueView::Text(t@),
            StructuredValue::Binary(b) => ValueView::Binary(b@),
        }
    }
}

/// A copy of the bytes `b`.
pub fn copy_bytes(b: &Vec<u8>) -> (r: Vec<u8>)
    ensures
        r@ == b@,
{
    let mut r: Vec<u8> = Vec::new();
    let mut i: usize = 0;
    while i < b.len()
        invariant
            0 <= i <= b.len(),
            r@ == b@.take(i as int),
        decreases b.len() - i,
    {
        r.push(b[i]);
        proof {
            assert(b@.take(i + 1) =~= b@.take(i as int).push(b@[i as int]));
        }
        i = i + 1;
    }
    proof {
        assert(b@.take(b.len() as int) =~= b@);
    }
    r
}

impl Clone for StructuredValue {
    fn clone(&self) -> (r: StructuredValue)
        ensures
            r@ == self@,
    {
        match self {
            StructuredValue::Null => StructuredValue::Null,
            StructuredValue::Bool(b) => StructuredValue::Bool(*b),
            StructuredValue::Integer(i) => StructuredValue::Integer(*i),
            StructuredValue::Decimal(d) => StructuredValue::Decimal(d.clone()),
            StructuredValue::Text(t) => StructuredValue::Text(t.clone()),
            StructuredValue::Binary(b) => StructuredValue::Binary(copy_bytes(b)),
        }
    }
}

/// The name of the kind of `v`, as errors name it.
pub open spec fn kind_name(v: ValueView) -> Seq<char> {
    match v {
        ValueView::Null => "Null"@,
        ValueView::Bool(_) => "Bool"@,
        ValueView::Integer(_) => "Integer"@,
        ValueView::Decimal(_) => "Decimal"@,
        ValueView::Text(_) => "Text"@,
        ValueView::Binary(_) => "Binary"@,
    }
}

/// The name of the kind of `value`.
pub fn kind(value: &StructuredValue) -> (r: &'static str)
    ensures
        r@ == kind_name(value@),
{
    match value {
        StructuredValue::Null => "Null",
        StructuredValue::Bool(_) => "Bool",
        StructuredValue::Integer(_) => "Integer",
        StructuredValue::Decimal(_) => "Decimal",
        StructuredValue::Text(_) => "Text",
        StructuredValue::Binary(_) => "Binary",
    }
}

/// A failure, told by its message.
#[derive(Debug, PartialEq)]
pub struct ContractError {
    /// What went wrong.
    pub message: String,
}

impl View for ContractError {
    type V = Seq<char>;

    open spec fn view(&self) -> Seq<char> {
        self.message@
    }
}

/// The message of a failure that the engine itself reports.
pub open spec fn predicate_message(m: Seq<char>) -> Seq<char> {
    "predicate: "@ + m
}

/// The engine's error with the message `message`.
pub fn error(message: String) -> (r: ContractError)
    ensures
        r@ == predicate_message(message@),
{
    let mut m = String::new();
    push_str(&mut m, "predicate: ");
    push_str(&mut m, message.as_str());
    proof {
        assert(m@ =~= predicate_message(message@));
    }
    ContractError { message: m }
}

/// What a reader answered once: a value, nothing, or a failure.
pub type Answer = Result<Option<ValueView>, Seq<char>>;

/// What a reader answers when asked for a path: a value, nothing there, or
/// a failure.
pub open spec fn answer_view(a: Result<Option<StructuredValue>, ContractError>) -> Result<
    Option<ValueView>,
    Seq<char>,
> {
    match a {
        Ok(Some(v)) => Ok(Some(v@)),
        Ok(None) => Ok(None),
        Err(e) => Err(e@),
    }
}

/// Something that answers paths with values, in whatever path language it
/// speaks.
pub trait StructureReader {
    /// Whether `a` is an answer that this reader may give when it is asked
    /// for `path`. A reader that promises nothing of itself may give any;
    /// one whose content does not move under it answers each path one way
    /// only.
    open spec fn answers(&self, path: Seq<char>, a: Answer) -> bool {
        true
    }

    /// The value at `path`, `None` when there is nothing there.
    fn read(&self, path: &str) -> (r: Result<Option<StructuredValue>, ContractError>)
        ensures
            self.answers(path@, answer_view(r)),
    ;
}

/// Something that takes values at paths.
pub trait StructureWriter {
    /// Put `value` at `path`.
    fn write(&mut self, path: &str, value: StructuredValue) -> Result<(), ContractError>;
}

} // verus!
