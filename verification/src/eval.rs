//! Evaluation of a predicate through the reader it is given.
//!
//! The engine never sees content. Every operand that is a path goes to
//! `reader.read(path)` in whatever language that reader speaks, and the
//! predicate reasons only about the scalars that come back. A path the reader
//! has nothing for compares as null: `= null` and `!= null` say so, `exists`
//! tells a present null from an absent path, and any other comparison with
//! it is simply false rather than an error, because a route that asks
//! `'/amount' > 100` of a message without an amount wants "no", not a fault.
//! Two present values of different kinds are a fault, named by both kinds:
//! that is a mistake in the predicate or the content, not a "no".

use vstd::prelude::*;

use crate::decimal::{decimal_order, decimal_text, integer_decimal, Decimal};
use crate::expression::{ExprView, Expression, Operand, OperandView, Operator};
use crate::order::{byte_seq_order, char_seq_order, compare_bytes, compare_chars, int_order, Order};
use crate::text::{chars_of, debug_str, int_text, nat_text, push_int, push_nat, push_str, str_debug};
use crate::value::{
    answer_view, error, kind, kind_name, predicate_message, Answer, ContractError,
    StructureReader, StructuredValue, ValueView,
};

verus! {

/// How `a` stands to `b`, when their kinds compare: integers and decimals
/// by their exact values, never rounded to a binary float (an integer
/// beside a decimal is promoted to decimal), text
/// lexically, booleans with `false` first, bytes lexically. `None` for two
/// kinds that do not compare.
pub open spec fn value_order(a: ValueView, b: ValueView) -> Option<Order> {
    match (a, b) {
        (ValueView::Integer(x), ValueView::Integer(y)) => Some(int_order(x, y)),
        (ValueView::Integer(x), ValueView::Decimal(d)) => Some(
            decimal_order(integer_decimal(x), d),
        ),
        (ValueView::Decimal(d), ValueView::Integer(y)) => Some(
            decimal_order(d, integer_decimal(y)),
        ),
        (ValueView::Decimal(d), ValueView::Decimal(e)) => Some(decimal_order(d, e)),
        (ValueView::Text(x), ValueView::Text(y)) => Some(char_seq_order(x, y)),
        (ValueView::Bool(x), ValueView::Bool(y)) => Some(
            int_order(
                if x {
                    1
                } else {
                    0
                },
                if y {
                    1
                } else {
                    0
                },
            ),
        ),
        (ValueView::Binary(x), ValueView::Binary(y)) => Some(byte_seq_order(x, y)),
        _ => None,
    }
}

/// Whether the comparison `operator` holds of two values that stand as `o`.
pub open spec fn operator_holds(operator: Operator, o: Order) -> bool {
    match operator {
        Operator::Equal => o == Order::Equal,
        Operator::NotEqual => o != Order::Equal,
        Operator::Less => o == Order::Less,
        Operator::LessOrEqual => o != Order::Greater,
        Operator::Greater => o == Order::Greater,
        Operator::GreaterOrEqual => o != Order::Less,
    }
}

/// How an error names an operand: a path in single quotes, a text literal
/// as `{:?}` writes it, other literals as they are written.
pub open spec fn describe(o: OperandView) -> Seq<char> {
    match o {
        OperandView::Path(p) => "'"@ + p + "'"@,
        OperandView::Literal(ValueView::Text(t)) => str_debug(t),
        OperandView::Literal(ValueView::Null) => "null"@,
        OperandView::Literal(ValueView::Bool(b)) => if b {
            "true"@
        } else {
            "false"@
        },
        OperandView::Literal(ValueView::Integer(i)) => int_text(i),
        OperandView::Literal(ValueView::Decimal(d)) => decimal_text(d),
        OperandView::Literal(ValueView::Binary(b)) => nat_text(b.len()) + " bytes"@,
    }
}

/// The message for two present values whose kinds do not compare.
pub open spec fn mismatch_message(
    left: OperandView,
    lv: ValueView,
    right: OperandView,
    rv: ValueView,
) -> Seq<char> {
    predicate_message(
        describe(left) + " is "@ + kind_name(lv) + " and "@ + describe(right) + " is "@ + kind_name(
            rv,
        ) + ": not comparable"@,
    )
}

/// The outcome of `left operator right` once both sides have values: with a
/// null on either side only `=` and `!=` can hold, and they say whether
/// both are null; otherwise the values' order decides, and two kinds that do
/// not compare are an error naming both.
pub open spec fn compare_spec(
    left: OperandView,
    lv: ValueView,
    operator: Operator,
    right: OperandView,
    rv: ValueView,
) -> Result<bool, Seq<char>> {
    if lv is Null || rv is Null {
        let both = lv is Null && rv is Null;
        Ok(
            match operator {
                Operator::Equal => both,
                Operator::NotEqual => !both,
                _ => false,
            },
        )
    } else {
        match value_order(lv, rv) {
            Some(o) => Ok(operator_holds(operator, o)),
            None => Err(mismatch_message(left, lv, right, rv)),
        }
    }
}

/// The value that a reader's answer gives a path: what it found, or null
/// when it found nothing.
pub open spec fn resolve_answer(a: Answer) -> Result<ValueView, Seq<char>> {
    match a {
        Ok(Some(v)) => Ok(v),
        Ok(None) => Ok(ValueView::Null),
        Err(m) => Err(m),
    }
}

/// The value of an operand, given the answers from the first on, and how
/// many answers it took: a path takes one, a literal none.
pub open spec fn resolve_seq(o: OperandView, t: Seq<Answer>) -> (Result<ValueView, Seq<char>>, nat) {
    match o {
        OperandView::Path(_) => (resolve_answer(t[0]), 1),
        OperandView::Literal(v) => (Ok(v), 0),
    }
}

/// The text at a path, for the function `function`: none when the reader
/// found nothing or null, the text when it found text, and an error for
/// any other kind.
pub open spec fn text_answer(path: Seq<char>, function: Seq<char>, a: Answer) -> Result<
    Option<Seq<char>>,
    Seq<char>,
> {
    match a {
        Err(m) => Err(m),
        Ok(None) => Ok(None),
        Ok(Some(ValueView::Null)) => Ok(None),
        Ok(Some(ValueView::Text(t))) => Ok(Some(t)),
        Ok(Some(other)) => Err(
            predicate_message(
                "'"@ + path + "' is "@ + kind_name(other) + "; "@ + function + "() needs Text"@,
            ),
        ),
    }
}

/// `text` is a prefix of `found`.
pub open spec fn text_starts_with(found: Seq<char>, text: Seq<char>) -> bool {
    text.len() <= found.len() && found.take(text.len() as int) == text
}

/// `text` occurs in `found`.
pub open spec fn text_contains(found: Seq<char>, text: Seq<char>) -> bool {
    exists|k: int|
        0 <= k && k + text.len() <= found.len() && #[trigger] found.subrange(k, k + text.len())
            == text
}

/// The outcome of `function('path', "text")` given the reader's answer.
pub open spec fn text_test(
    path: Seq<char>,
    function: Seq<char>,
    text: Seq<char>,
    contains: bool,
    a: Answer,
) -> Result<bool, Seq<char>> {
    match text_answer(path, function, a) {
        Err(m) => Err(m),
        Ok(None) => Ok(false),
        Ok(Some(found)) => Ok(
            if contains {
                text_contains(found, text)
            } else {
                text_starts_with(found, text)
            },
        ),
    }
}

/// The outcome of `e` when the reader answers its questions, in the order
/// they are asked, with the answers of `t`; and how many answers that took.
/// A comparison reads its left side before its right, and a failed read
/// stops it; `and` and `or` read their right side only when the left does
/// not decide.
pub open spec fn eval_seq(e: ExprView, t: Seq<Answer>) -> (Result<bool, Seq<char>>, nat)
    decreases e,
{
    match e {
        ExprView::Compare { left, operator, right } => {
            let (l, n1) = resolve_seq(left, t);
            match l {
                Err(m) => (Err(m), n1),
                Ok(lv) => {
                    let (r, n2) = resolve_seq(right, t.skip(n1 as int));
                    match r {
                        Err(m) => (Err(m), n1 + n2),
                        Ok(rv) => (compare_spec(left, lv, operator, right, rv), n1 + n2),
                    }
                },
            }
        },
        ExprView::Exists(_) => (
            match t[0] {
                Ok(found) => Ok(found is Some),
                Err(m) => Err(m),
            },
            1,
        ),
        ExprView::StartsWith { path, text } => (
            text_test(path, "starts-with"@, text, false, t[0]),
            1,
        ),
        ExprView::Contains { path, text } => (text_test(path, "contains"@, text, true, t[0]), 1),
        ExprView::And(a, b) => {
            let (ra, na) = eval_seq(*a, t);
            match ra {
                Err(m) => (Err(m), na),
                Ok(false) => (Ok(false), na),
                Ok(true) => {
                    let (rb, nb) = eval_seq(*b, t.skip(na as int));
                    (rb, na + nb)
                },
            }
        },
        ExprView::Or(a, b) => {
            let (ra, na) = eval_seq(*a, t);
            match ra {
                Err(m) => (Err(m), na),
                Ok(true) => (Ok(true), na),
                Ok(false) => {
                    let (rb, nb) = eval_seq(*b, t.skip(na as int));
                    (rb, na + nb)
                },
            }
        },
        ExprView::Not(a) => {
            let (ra, na) = eval_seq(*a, t);
            (
                match ra {
                    Ok(b) => Ok(!b),
                    Err(m) => Err(m),
                },
                na,
            )
        },
    }
}

/// The paths that `o` asks the reader for: its own, if it is a path.
pub open spec fn operand_paths(o: OperandView) -> Seq<Seq<char>> {
    match o {
        OperandView::Path(p) => seq![p],
        OperandView::Literal(_) => Seq::empty(),
    }
}

/// The paths that the evaluation of `e` asks the reader for, in the order
/// it asks, when the reader answers with `t`: the one answer of each read
/// in [`eval_seq`] is the answer to the path at the same place here.
pub open spec fn read_paths(e: ExprView, t: Seq<Answer>) -> Seq<Seq<char>>
    decreases e,
{
    match e {
        ExprView::Compare { left, operator, right } => {
            if resolve_seq(left, t).0 is Err {
                operand_paths(left)
            } else {
                operand_paths(left) + operand_paths(right)
            }
        },
        ExprView::Exists(p) => seq![p],
        ExprView::StartsWith { path, text } => seq![path],
        ExprView::Contains { path, text } => seq![path],
        ExprView::And(a, b) => {
            let (ra, na) = eval_seq(*a, t);
            if ra == Ok::<bool, Seq<char>>(true) {
                read_paths(*a, t) + read_paths(*b, t.skip(na as int))
            } else {
                read_paths(*a, t)
            }
        },
        ExprView::Or(a, b) => {
            let (ra, na) = eval_seq(*a, t);
            if ra == Ok::<bool, Seq<char>>(false) {
                read_paths(*a, t) + read_paths(*b, t.skip(na as int))
            } else {
                read_paths(*a, t)
            }
        },
        ExprView::Not(a) => read_paths(*a, t),
    }
}

/// `t` is what `reader` answered, in order, to an evaluation of `e` that
/// ended in `outcome`: the evaluation takes exactly the answers of `t`, and
/// each of them is one that the reader gives for the path it was asked.
pub open spec fn is_run<R: StructureReader>(
    reader: &R,
    e: ExprView,
    t: Seq<Answer>,
    outcome: Result<bool, Seq<char>>,
) -> bool {
    &&& eval_seq(e, t) == (outcome, t.len())
    &&& read_paths(e, t).len() == t.len()
    &&& forall|k: int| 0 <= k < t.len() ==> #[trigger] reader.answers(read_paths(e, t)[k], t[k])
}

/// The view of a truth or an error.
pub open spec fn truth_view(r: Result<bool, ContractError>) -> Result<bool, Seq<char>> {
    match r {
        Ok(b) => Ok(b),
        Err(e) => Err(e@),
    }
}

/// The view of a value or an error.
pub open spec fn value_result_view(r: Result<StructuredValue, ContractError>) -> Result<
    ValueView,
    Seq<char>,
> {
    match r {
        Ok(v) => Ok(v@),
        Err(e) => Err(e@),
    }
}

/// How `left` stands to `right`, as [`value_order`] says; `None` when
/// their kinds do not compare.
pub fn order(left: &StructuredValue, right: &StructuredValue) -> (r: Option<Order>)
    ensures
        r == value_order(left@, right@),
{
    match (left, right) {
        (StructuredValue::Integer(a), StructuredValue::Integer(b)) => Some(
            if *a < *b {
                Order::Less
            } else if *a == *b {
                Order::Equal
            } else {
                Order::Greater
            },
        ),
        (StructuredValue::Integer(a), StructuredValue::Decimal(b)) => Some(
            Decimal::from_integer(*a).compare(b),
        ),
        (StructuredValue::Decimal(a), StructuredValue::Integer(b)) => Some(
            a.compare(&Decimal::from_integer(*b)),
        ),
        (StructuredValue::Decimal(a), StructuredValue::Decimal(b)) => Some(a.compare(b)),
        (StructuredValue::Text(a), StructuredValue::Text(b)) => {
            let x = chars_of(a.as_str());
            let y = chars_of(b.as_str());
            Some(compare_chars(&x, &y))
        },
        (StructuredValue::Bool(a), StructuredValue::Bool(b)) => Some(
            if !*a && *b {
                Order::Less
            } else if *a == *b {
                Order::Equal
            } else {
                Order::Greater
            },
        ),
        (StructuredValue::Binary(a), StructuredValue::Binary(b)) => Some(compare_bytes(a, b)),
        _ => None,
    }
}

/// Appends to `s` how an error names `operand`.
fn push_describe(s: &mut String, operand: &Operand)
    ensures
        final(s)@ == old(s)@ + describe(operand@),
{
    let ghost before = s@;
    match operand {
        Operand::Path(path) => {
            push_str(s, "'");
            push_str(s, path.as_str());
            push_str(s, "'");
            proof {
                assert(s@ =~= before + describe(operand@));
            }
        },
        Operand::Literal(StructuredValue::Text(text)) => {
            let d = debug_str(text.as_str());
            push_str(s, d.as_str());
        },
        Operand::Literal(StructuredValue::Null) => push_str(s, "null"),
        Operand::Literal(StructuredValue::Bool(flag)) => {
            if *flag {
                push_str(s, "true");
            } else {
                push_str(s, "false");
            }
        },
        Operand::Literal(StructuredValue::Integer(integer)) => push_int(s, *integer),
        Operand::Literal(StructuredValue::Decimal(decimal)) => decimal.write_to(s, false),
        Operand::Literal(StructuredValue::Binary(bytes)) => {
            push_nat(s, bytes.len() as u128);
            push_str(s, " bytes");
            proof {
                assert(s@ =~= before + describe(operand@));
            }
        },
    }
}

/// The outcome of `left operator right` given the values of its sides, as
/// [`compare_spec`] says.
///
/// # Errors
/// Two present values whose kinds do not compare.
pub fn compare_values(
    left: &Operand,
    left_value: &StructuredValue,
    operator: Operator,
    right: &Operand,
    right_value: &StructuredValue,
) -> (r: Result<bool, ContractError>)
    ensures
        truth_view(r) == compare_spec(left@, left_value@, operator, right@, right_value@),
{
    let left_null = matches!(left_value, StructuredValue::Null);
    let right_null = matches!(right_value, StructuredValue::Null);
    if left_null || right_null {
        let both_null = left_null && right_null;
        return Ok(
            match operator {
                Operator::Equal => both_null,
                Operator::NotEqual => !both_null,
                _ => false,
            },
        );
    }
    let ordering = match order(left_value, right_value) {
        Some(o) => o,
        None => {
            let mut m = String::new();
            push_describe(&mut m, left);
            push_str(&mut m, " is ");
            push_str(&mut m, kind(left_value));
            push_str(&mut m, " and ");
            push_describe(&mut m, right);
            push_str(&mut m, " is ");
            push_str(&mut m, kind(right_value));
            push_str(&mut m, ": not comparable");
            proof {
                assert(m@ =~= describe(left@) + " is "@ + kind_name(left_value@) + " and "@
                    + describe(right@) + " is "@ + kind_name(right_value@) + ": not comparable"@);
            }
            return Err(error(m));
        },
    };
    Ok(
        match operator {
            Operator::Equal => ordering == Order::Equal,
            Operator::NotEqual => ordering != Order::Equal,
            Operator::Less => ordering == Order::Less,
            Operator::LessOrEqual => ordering != Order::Greater,
            Operator::Greater => ordering == Order::Greater,
            Operator::GreaterOrEqual => ordering != Order::Less,
        },
    )
}

/// The value that a reader's answer gives a path: what it found, or null
/// when it found nothing, as [`resolve_answer`] says.
///
/// # Errors
/// The reader's own failure.
pub fn value_of_answer(answer: Result<Option<StructuredValue>, ContractError>) -> (r: Result<
    StructuredValue,
    ContractError,
>)
    ensures
        value_result_view(r) == resolve_answer(answer_view(answer)),
{
    match answer {
        Ok(Some(value)) => Ok(value),
        Ok(None) => Ok(StructuredValue::Null),
        Err(e) => Err(e),
    }
}

/// The text that a reader's answer gives the path `path` for the function
/// `function`, as [`text_answer`] says.
///
/// # Errors
/// The reader's own failure, or a present value that is not text.
pub fn text_of_answer(
    path: &str,
    function: &str,
    answer: Result<Option<StructuredValue>, ContractError>,
) -> (r: Result<Option<String>, ContractError>)
    ensures
        match r {
            Ok(Some(t)) => text_answer(path@, function@, answer_view(answer)) == Ok::<
                Option<Seq<char>>,
                Seq<char>,
            >(Some(t@)),
            Ok(None) => text_answer(path@, function@, answer_view(answer)) == Ok::<
                Option<Seq<char>>,
                Seq<char>,
            >(None),
            Err(e) => text_answer(path@, function@, answer_view(answer)) == Err::<
                Option<Seq<char>>,
                Seq<char>,
            >(e@),
        },
{
    match answer {
        Err(e) => Err(e),
        Ok(None) => Ok(None),
        Ok(Some(StructuredValue::Null)) => Ok(None),
        Ok(Some(StructuredValue::Text(text))) => Ok(Some(text)),
        Ok(Some(other)) => {
            let mut m = String::new();
            push_str(&mut m, "'");
            push_str(&mut m, path);
            push_str(&mut m, "' is ");
            push_str(&mut m, kind(&other));
            push_str(&mut m, "; ");
            push_str(&mut m, function);
            push_str(&mut m, "() needs Text");
            proof {
                assert(m@ =~= "'"@ + path@ + "' is "@ + kind_name(other@) + "; "@ + function@
                    + "() needs Text"@);
            }
            Err(error(m))
        },
    }
}

/// Whether `text` is a prefix of `found`.
pub fn starts_with(found: &Vec<char>, text: &Vec<char>) -> (r: bool)
    ensures
        r == text_starts_with(found@, text@),
{
    if text.len() > found.len() {
        return false;
    }
    let mut k: usize = 0;
    while k < text.len()
        invariant
            0 <= k <= text.len(),
            text.len() <= found.len(),
            found@.take(k as int) == text@.take(k as int),
        decreases text.len() - k,
    {
        if found[k] != text[k] {
            proof {
                assert(found@.take(text.len() as int)[k as int] == found@[k as int]);
            }
            return false;
        }
        proof {
            assert(found@.take(k + 1) =~= found@.take(k as int).push(found@[k as int]));
            assert(text@.take(k + 1) =~= text@.take(k as int).push(text@[k as int]));
        }
        k = k + 1;
    }
    proof {
        assert(text@.take(k as int) =~= text@);
    }
    true
}

/// Whether `text` occurs in `found` at `at`.
fn occurs_at(found: &Vec<char>, text: &Vec<char>, at: usize) -> (r: bool)
    requires
        at + text.len() <= found.len(),
    ensures
        r == (found@.subrange(at as int, at + text.len()) == text@),
{
    let mut k: usize = 0;
    while k < text.len()
        invariant
            0 <= k <= text.len(),
            at + text.len() <= found.len(),
            found@.subrange(at as int, at + k) == text@.take(k as int),
        decreases text.len() - k,
    {
        if found[at + k] != text[k] {
            proof {
                assert(found@.subrange(at as int, at + text.len())[k as int] == found@[at + k]);
            }
            return false;
        }
        proof {
            assert(found@.subrange(at as int, at + k + 1) =~= found@.subrange(at as int, at + k).push(
                found@[at + k],
            ));
            assert(text@.take(k + 1) =~= text@.take(k as int).push(text@[k as int]));
        }
        k = k + 1;
    }
    proof {
        assert(text@.take(k as int) =~= text@);
    }
    true
}

/// Whether `text` occurs in `found`.
pub fn contains(found: &Vec<char>, text: &Vec<char>) -> (r: bool)
    ensures
        r == text_contains(found@, text@),
{
    if text.len() > found.len() {
        return false;
    }
    let last = found.len() - text.len();
    let mut at: usize = 0;
    while at < last
        invariant
            0 <= at <= last,
            last + text.len() == found.len(),
            forall|k: int|
                0 <= k < at ==> #[trigger] found@.subrange(k, k + text.len()) != text@,
        decreases last - at,
    {
        if occurs_at(found, text, at) {
            return true;
        }
        at = at + 1;
    }
    occurs_at(found, text, last)
}

/// An evaluation depends only on the answers it takes: two sequences that
/// agree on those give the same outcome and ask for the same paths.
pub proof fn lemma_eval_seq_agree(e: ExprView, t1: Seq<Answer>, t2: Seq<Answer>)
    requires
        eval_seq(e, t1).1 <= t1.len(),
        eval_seq(e, t1).1 <= t2.len(),
        t1.take(eval_seq(e, t1).1 as int) == t2.take(eval_seq(e, t1).1 as int),
    ensures
        eval_seq(e, t2) == eval_seq(e, t1),
        read_paths(e, t2) == read_paths(e, t1),
    decreases e,
{
    let n = eval_seq(e, t1).1 as int;
    assert forall|k: int| 0 <= k < n implies t1[k] == t2[k] by {
        assert(t1.take(n)[k] == t2.take(n)[k]);
    }
    match e {
        ExprView::Compare { left, operator, right } => {
            let (l, n1) = resolve_seq(left, t1);
            if l is Ok && right is Path {
                assert(t1.skip(n1 as int)[0] == t1[n1 as int]);
                assert(t2.skip(n1 as int)[0] == t2[n1 as int]);
            }
        },
        ExprView::And(a, b) => {
            let (ra, na) = eval_seq(*a, t1);
            assert(t1.take(na as int) =~= t2.take(na as int));
            lemma_eval_seq_agree(*a, t1, t2);
            if ra == Ok::<bool, Seq<char>>(true) {
                let nb = eval_seq(*b, t1.skip(na as int)).1;
                assert(t1.skip(na as int).take(nb as int) =~= t2.skip(na as int).take(nb as int));
                lemma_eval_seq_agree(*b, t1.skip(na as int), t2.skip(na as int));
            }
        },
        ExprView::Or(a, b) => {
            let (ra, na) = eval_seq(*a, t1);
            assert(t1.take(na as int) =~= t2.take(na as int));
            lemma_eval_seq_agree(*a, t1, t2);
            if ra == Ok::<bool, Seq<char>>(false) {
                let nb = eval_seq(*b, t1.skip(na as int)).1;
                assert(t1.skip(na as int).take(nb as int) =~= t2.skip(na as int).take(nb as int));
                lemma_eval_seq_agree(*b, t1.skip(na as int), t2.skip(na as int));
            }
        },
        ExprView::Not(a) => {
            lemma_eval_seq_agree(*a, t1, t2);
        },
        _ => {},
    }
}

/// An evaluation asks for exactly as many paths as it takes answers.
pub proof fn lemma_read_paths_len(e: ExprView, t: Seq<Answer>)
    ensures
        read_paths(e, t).len() == eval_seq(e, t).1,
    decreases e,
{
    match e {
        ExprView::And(a, b) => {
            lemma_read_paths_len(*a, t);
            lemma_read_paths_len(*b, t.skip(eval_seq(*a, t).1 as int));
        },
        ExprView::Or(a, b) => {
            lemma_read_paths_len(*a, t);
            lemma_read_paths_len(*b, t.skip(eval_seq(*a, t).1 as int));
        },
        ExprView::Not(a) => {
            lemma_read_paths_len(*a, t);
        },
        _ => {},
    }
}

/// A run of `a` that does not decide the connective, followed by a run of
/// `b`, is a run of the two joined: by `and` when `a` held, by `or` when it
/// did not.
proof fn lemma_join_runs<R: StructureReader>(
    reader: &R,
    a: ExprView,
    b: ExprView,
    ta: Seq<Answer>,
    tb: Seq<Answer>,
    ob: Result<bool, Seq<char>>,
    conjunction: bool,
)
    requires
        is_run(reader, a, ta, Ok(conjunction)),
        is_run(reader, b, tb, ob),
    ensures
        is_run(
            reader,
            if conjunction {
                ExprView::And(Box::new(a), Box::new(b))
            } else {
                ExprView::Or(Box::new(a), Box::new(b))
            },
            ta + tb,
            ob,
        ),
{
    let e = if conjunction {
        ExprView::And(Box::new(a), Box::new(b))
    } else {
        ExprView::Or(Box::new(a), Box::new(b))
    };
    let t = ta + tb;
    assert(t.take(ta.len() as int) =~= ta.take(ta.len() as int));
    lemma_eval_seq_agree(a, ta, t);
    assert(t.skip(ta.len() as int) =~= tb);
    let pa = read_paths(a, ta);
    let pb = read_paths(b, tb);
    assert(read_paths(e, t) == pa + pb);
    assert forall|k: int| 0 <= k < t.len() implies #[trigger] reader.answers(
        read_paths(e, t)[k],
        t[k],
    ) by {
        if k < ta.len() {
            assert(reader.answers(pa[k], ta[k]));
        } else {
            assert(reader.answers(pb[k - ta.len()], tb[k - ta.len()]));
        }
    }
}

/// The value of `operand`: a literal as it is, a path as the reader answers
/// it; and the answers that the reader gave on the way.
fn resolve<R: StructureReader>(operand: &Operand, reader: &R) -> (r: (
    Result<StructuredValue, ContractError>,
    Ghost<Seq<Answer>>,
))
    ensures
        resolve_seq(operand@, r.1@) == (value_result_view(r.0), r.1@.len()),
        operand_paths(operand@).len() == r.1@.len(),
        forall|k: int|
            0 <= k < r.1@.len() ==> #[trigger] reader.answers(operand_paths(operand@)[k], r.1@[k]),
{
    match operand {
        Operand::Path(path) => {
            let answer = reader.read(path.as_str());
            let ghost a = answer_view(answer);
            let value = value_of_answer(answer);
            let ghost t = Seq::empty().push(a);
            proof {
                assert(operand_paths(operand@)[0] == path@);
                assert(t[0] == a);
            }
            (value, Ghost(t))
        },
        Operand::Literal(value) => (Ok(value.clone()), Ghost(Seq::empty())),
    }
}

/// The outcome of a text function at `path` with `text`, asking the reader
/// once; and the answer it gave.
fn text_function<R: StructureReader>(
    path: &String,
    text: &String,
    contains_text: bool,
    reader: &R,
) -> (r: (Result<bool, ContractError>, Ghost<Answer>))
    ensures
        reader.answers(path@, r.1@),
        truth_view(r.0) == text_test(
            path@,
            if contains_text {
                "contains"@
            } else {
                "starts-with"@
            },
            text@,
            contains_text,
            r.1@,
        ),
{
    let answer = reader.read(path.as_str());
    let ghost a = answer_view(answer);
    let function = if contains_text {
        "contains"
    } else {
        "starts-with"
    };
    let r = match text_of_answer(path.as_str(), function, answer) {
        Err(e) => Err(e),
        Ok(None) => Ok(false),
        Ok(Some(found)) => {
            let f = chars_of(found.as_str());
            let t = chars_of(text.as_str());
            if contains_text {
                Ok(contains(&f, &t))
            } else {
                Ok(starts_with(&f, &t))
            }
        },
    };
    (r, Ghost(a))
}

/// The outcome of `expression`, and the reader's answers in the order
/// they were asked for.
fn evaluate_traced<R: StructureReader>(expression: &Expression, reader: &R) -> (r: (
    Result<bool, ContractError>,
    Ghost<Seq<Answer>>,
))
    ensures
        is_run(reader, expression@, r.1@, truth_view(r.0)),
    decreases expression,
{
    match expression {
        Expression::Compare { left, operator, right } => {
            let ghost e = expression@;
            let (lr, tl) = resolve(left, reader);
            let left_value = match lr {
                Ok(v) => v,
                Err(e) => {
                    proof {
                        assert(read_paths(expression@, tl@) == operand_paths(left@));
                    }
                    return (Err(e), tl);
                },
            };
            let (rr, tr) = resolve(right, reader);
            let ghost t = tl@ + tr@;
            proof {
                if tl@.len() > 0 {
                    assert(t[0] == tl@[0]);
                }
                assert(t.skip(tl@.len() as int) =~= tr@);
                let pl = operand_paths(left@);
                let pr = operand_paths(right@);
                assert(read_paths(e, t) == pl + pr);
                assert forall|k: int| 0 <= k < t.len() implies #[trigger] reader.answers(
                    read_paths(e, t)[k],
                    t[k],
                ) by {
                    if k < tl@.len() {
                        assert(reader.answers(pl[k], tl@[k]));
                    } else {
                        assert(reader.answers(pr[k - tl@.len()], tr@[k - tl@.len()]));
                    }
                }
            }
            match rr {
                Err(e) => (Err(e), Ghost(t)),
                Ok(right_value) => (
                    compare_values(left, &left_value, *operator, right, &right_value),
                    Ghost(t),
                ),
            }
        },
        Expression::Exists(path) => {
            let answer = reader.read(path.as_str());
            let ghost a = answer_view(answer);
            let r = match answer {
                Ok(found) => Ok(found.is_some()),
                Err(e) => Err(e),
            };
            let ghost t = Seq::empty().push(a);
            proof {
                assert(read_paths(expression@, t)[0] == path@);
                assert(t[0] == a);
            }
            (r, Ghost(t))
        },
        Expression::StartsWith { path, text } => {
            let (r, a) = text_function(path, text, false, reader);
            let ghost t = Seq::empty().push(a@);
            proof {
                assert(read_paths(expression@, t)[0] == path@);
                assert(t[0] == a@);
            }
            (r, Ghost(t))
        },
        Expression::Contains { path, text } => {
            let (r, a) = text_function(path, text, true, reader);
            let ghost t = Seq::empty().push(a@);
            proof {
                assert(read_paths(expression@, t)[0] == path@);
                assert(t[0] == a@);
            }
            (r, Ghost(t))
        },
        Expression::And(a, b) => {
            let (ra, ta) = evaluate_traced(&**a, reader);
            match ra {
                Err(e) => (Err(e), ta),
                Ok(false) => (Ok(false), ta),
                Ok(true) => {
                    let (rb, tb) = evaluate_traced(&**b, reader);
                    proof {
                        lemma_join_runs(reader, (**a)@, (**b)@, ta@, tb@, truth_view(rb), true);
                    }
                    (rb, Ghost(ta@ + tb@))
                },
            }
        },
        Expression::Or(a, b) => {
            let (ra, ta) = evaluate_traced(&**a, reader);
            match ra {
                Err(e) => (Err(e), ta),
                Ok(true) => (Ok(true), ta),
                Ok(false) => {
                    let (rb, tb) = evaluate_traced(&**b, reader);
                    proof {
                        lemma_join_runs(reader, (**a)@, (**b)@, ta@, tb@, truth_view(rb), false);
                    }
                    (rb, Ghost(ta@ + tb@))
                },
            }
        },
        Expression::Not(inner) => {
            let (r, t) = evaluate_traced(&**inner, reader);
            let r = match r {
                Ok(b) => Ok(!b),
                Err(e) => Err(e),
            };
            (r, t)
        },
    }
}

/// Evaluate `expression` by reading its paths through `reader`.
///
/// The outcome is what [`eval_seq`] gives for some sequence of answers, of
/// which the evaluation takes every one; each of them is an answer that
/// `reader`, by its own [`StructureReader::answers`], may give for the path
/// that [`read_paths`] names at the same place. The contract speaks of the
/// answers the outcome rests on, one per path read, in the order they are
/// taken; it does not count calls.
///
/// # Errors
/// The reader fails a read; two present values are of kinds that do not
/// compare; `starts-with` or `contains` finds something other than text.
pub fn evaluate<R: StructureReader>(expression: &Expression, reader: &R) -> (r: Result<
    bool,
    ContractError,
>)
    ensures
        exists|t: Seq<Answer>| #[trigger] is_run(reader, expression@, t, truth_view(r)),
{
    let (r, t) = evaluate_traced(expression, reader);
    proof {
        assert(is_run(reader, expression@, t@, truth_view(r)));
    }
    r
}

} // verus!
