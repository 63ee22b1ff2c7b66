//! The shape of a predicate and the parser that builds it.
//!
//! Precedence is the usual one: `not` binds tightest, then `and`, then `or`,
//! and parentheses override. So `a or b and c` is `a or (b and c)`, as in
//! every language a route author will have written before this one.

use vstd::prelude::*;

use crate::lexer::{
    lex, option_token_debug, push_option_token_debug, push_token_debug, token_debug, tokenize,
    tokens_view, Token, TokenView,
};
use crate::text::{chars_of, push_str};
use crate::value::{error, predicate_message, ContractError, StructuredValue, ValueView};

verus! {

/// One side of a comparison.
#[derive(Debug, PartialEq)]
pub enum Operand {
    /// A path the reader answers, `'...'`.
    Path(String),
    /// A literal: `"text"`, an integer, a decimal, `true`, `false` or `null`.
    Literal(StructuredValue),
}

/// The mathematical content of an [`Operand`].
pub enum OperandView {
    Path(Seq<char>),
    Literal(ValueView),
}

impl View for Operand {
    type V = OperandView;

    open spec fn view(&self) -> OperandView {
        match self {
            Operand::Path(p) => OperandView::Path(p@),
            Operand::Literal(v) => OperandView::Literal(v@),
        }
    }
}

impl Clone for Operand {
    fn clone(&self) -> (r: Operand)
        ensures
            r@ == self@,
    {
        match self {
            Operand::Path(p) => Operand::Path(p.clone()),
            Operand::Literal(v) => Operand::Literal(v.clone()),
        }
    }
}

/// The six comparisons.
#[derive(Clone, Copy, Debug, Eq, PartialEq, Structural)]
pub enum Operator {
    /// `=`
    Equal,
    /// `!=`
    NotEqual,
    /// `<`
    Less,
    /// `<=`
    LessOrEqual,
    /// `>`
    Greater,
    /// `>=`
    GreaterOrEqual,
}

/// A parsed predicate.
#[derive(Debug, PartialEq)]
pub enum Expression {
    /// `left <operator> right`
    Compare {
        /// The left side.
        left: Operand,
        /// The comparison.
        operator: Operator,
        /// The right side.
        right: Operand,
    },
    /// `exists('path')`: the reader has a value there, a null as much as any.
    Exists(String),
    /// `starts-with('path', "text")`
    StartsWith {
        /// The path whose text is examined.
        path: String,
        /// The prefix looked for.
        text: String,
    },
    /// `contains('path', "text")`
    Contains {
        /// The path whose text is examined.
        path: String,
        /// The substring looked for.
        text: String,
    },
    /// `a and b`
    And(Box<Expression>, Box<Expression>),
    /// `a or b`
    Or(Box<Expression>, Box<Expression>),
    /// `not a`
    Not(Box<Expression>),
}

/// The mathematical content of an [`Expression`].
pub enum ExprView {
    Compare { left: OperandView, operator: Operator, right: OperandView },
    Exists(Seq<char>),
    StartsWith { path: Seq<char>, text: Seq<char> },
    Contains { path: Seq<char>, text: Seq<char> },
    And(Box<ExprView>, Box<ExprView>),
    Or(Box<ExprView>, Box<ExprView>),
    Not(Box<ExprView>),
}

/// The mathematical content of the expression `e`.
pub open spec fn expr_view(e: Expression) -> ExprView
    decreases e,
{
    match e {
        Expression::Compare { left, operator, right } => ExprView::Compare {
            left: left@,
            operator: operator,
            right: right@,
        },
        Expression::Exists(p) => ExprView::Exists(p@),
        Expression::StartsWith { path, text } => ExprView::StartsWith { path: path@, text: text@ },
        Expression::Contains { path, text } => ExprView::Contains { path: path@, text: text@ },
        Expression::And(a, b) => ExprView::And(Box::new(expr_view(*a)), Box::new(expr_view(*b))),
        Expression::Or(a, b) => ExprView::Or(Box::new(expr_view(*a)), Box::new(expr_view(*b))),
        Expression::Not(a) => ExprView::Not(Box::new(expr_view(*a))),
    }
}

impl View for Expression {
    type V = ExprView;

    open spec fn view(&self) -> ExprView {
        expr_view(*self)
    }
}

/// A copy of `e`.
fn copy_expression(e: &Expression) -> (r: Expression)
    ensures
        r@ == e@,
    decreases e,
{
    match e {
        Expression::Compare { left, operator, right } => Expression::Compare {
            left: left.clone(),
            operator: *operator,
            right: right.clone(),
        },
        Expression::Exists(p) => Expression::Exists(p.clone()),
        Expression::StartsWith { path, text } => Expression::StartsWith {
            path: path.clone(),
            text: text.clone(),
        },
        Expression::Contains { path, text } => Expression::Contains {
            path: path.clone(),
            text: text.clone(),
        },
        Expression::And(a, b) => Expression::And(
            Box::new(copy_expression(&**a)),
            Box::new(copy_expression(&**b)),
        ),
        Expression::Or(a, b) => Expression::Or(
            Box::new(copy_expression(&**a)),
            Box::new(copy_expression(&**b)),
        ),
        Expression::Not(a) => Expression::Not(Box::new(copy_expression(&**a))),
    }
}

impl Clone for Expression {
    fn clone(&self) -> (r: Expression)
        ensures
            r@ == self@,
    {
        copy_expression(self)
    }
}

// ---------------------------------------------------------------------------
// The grammar, over the tokens' views.

/// The token at `at`, if there is one.
pub open spec fn token_at(ts: Seq<TokenView>, at: int) -> Option<TokenView> {
    if 0 <= at < ts.len() {
        Some(ts[at])
    } else {
        None
    }
}

/// The word `w` stands at `at`.
pub open spec fn is_word_at(ts: Seq<TokenView>, at: int, w: Seq<char>) -> bool {
    0 <= at < ts.len() && ts[at] == TokenView::Word(w)
}

/// How many tokens are left from `at` on.
pub open spec fn remaining(ts: Seq<TokenView>, at: int) -> nat {
    if 0 <= at <= ts.len() {
        (ts.len() - at) as nat
    } else {
        0
    }
}

/// The message for a token other than the one expected.
pub open spec fn expected_message(expected: TokenView, found: Option<TokenView>) -> Seq<char> {
    predicate_message("expected "@ + token_debug(expected) + ", found "@ + option_token_debug(found))
}

/// The message for a missing path.
pub open spec fn path_message(found: Option<TokenView>) -> Seq<char> {
    predicate_message("expected a 'path', found "@ + option_token_debug(found))
}

/// A parse of one thing: its value and the index just past it, or the
/// message of the failure.
pub type Parse<T> = Result<(T, int), Seq<char>>;

/// The comparison operator that a token is, if it is one.
pub open spec fn operator_of(t: Option<TokenView>) -> Option<Operator> {
    match t {
        Some(TokenView::Equal) => Some(Operator::Equal),
        Some(TokenView::NotEqual) => Some(Operator::NotEqual),
        Some(TokenView::Less) => Some(Operator::Less),
        Some(TokenView::LessOrEqual) => Some(Operator::LessOrEqual),
        Some(TokenView::Greater) => Some(Operator::Greater),
        Some(TokenView::GreaterOrEqual) => Some(Operator::GreaterOrEqual),
        _ => None,
    }
}

/// An operand: a path, or a literal text, integer, decimal, `true`,
/// `false` or `null`.
pub open spec fn parse_operand(ts: Seq<TokenView>, at: int) -> Parse<OperandView> {
    match token_at(ts, at) {
        Some(TokenView::Path(p)) => Ok((OperandView::Path(p), at + 1)),
        Some(TokenView::Text(t)) => Ok((OperandView::Literal(ValueView::Text(t)), at + 1)),
        Some(TokenView::Integer(n)) => Ok((OperandView::Literal(ValueView::Integer(n)), at + 1)),
        Some(TokenView::Decimal(d)) => Ok((OperandView::Literal(ValueView::Decimal(d)), at + 1)),
        Some(TokenView::Word(w)) if w == "true"@ => Ok(
            (OperandView::Literal(ValueView::Bool(true)), at + 1),
        ),
        Some(TokenView::Word(w)) if w == "false"@ => Ok(
            (OperandView::Literal(ValueView::Bool(false)), at + 1),
        ),
        Some(TokenView::Word(w)) if w == "null"@ => Ok(
            (OperandView::Literal(ValueView::Null), at + 1),
        ),
        other => Err(
            predicate_message(
                "expected a 'path' or a literal, found "@ + option_token_debug(other),
            ),
        ),
    }
}

/// `operand operator operand`.
pub open spec fn parse_comparison(ts: Seq<TokenView>, at: int) -> Parse<ExprView> {
    match parse_operand(ts, at) {
        Err(m) => Err(m),
        Ok((left, p)) => match operator_of(token_at(ts, p)) {
            None => Err(
                predicate_message(
                    "expected a comparison, found "@ + option_token_debug(token_at(ts, p)),
                ),
            ),
            Some(operator) => match parse_operand(ts, p + 1) {
                Err(m) => Err(m),
                Ok((right, q)) => Ok((ExprView::Compare { left, operator, right }, q)),
            },
        },
    }
}

/// The arguments of the function `name`, whose opening parenthesis stands
/// just before `at`: `exists('path')`, `starts-with('path', "text")` or
/// `contains('path', "text")`. The closing parenthesis is not read.
pub open spec fn parse_call(ts: Seq<TokenView>, at: int, name: Seq<char>) -> Parse<ExprView> {
    if name == "exists"@ {
        match token_at(ts, at) {
            Some(TokenView::Path(p)) => Ok((ExprView::Exists(p), at + 1)),
            other => Err(path_message(other)),
        }
    } else if name == "starts-with"@ || name == "contains"@ {
        match token_at(ts, at) {
            Some(TokenView::Path(p)) => if token_at(ts, at + 1) == Some(TokenView::Comma) {
                match token_at(ts, at + 2) {
                    Some(TokenView::Text(t)) => Ok(
                        (
                            if name == "contains"@ {
                                ExprView::Contains { path: p, text: t }
                            } else {
                                ExprView::StartsWith { path: p, text: t }
                            },
                            at + 3,
                        ),
                    ),
                    other => Err(
                        predicate_message(
                            name + "() needs a \"text\", found "@ + option_token_debug(other),
                        ),
                    ),
                }
            } else {
                Err(expected_message(TokenView::Comma, token_at(ts, at + 1)))
            },
            other => Err(path_message(other)),
        }
    } else {
        Err(predicate_message(name + "() is not a function a predicate has"@))
    }
}

/// `inner` followed by a closing parenthesis at `p`.
pub open spec fn close_paren(ts: Seq<TokenView>, inner: ExprView, p: int) -> Parse<ExprView> {
    if token_at(ts, p) == Some(TokenView::CloseParen) {
        Ok((inner, p + 1))
    } else {
        Err(expected_message(TokenView::CloseParen, token_at(ts, p)))
    }
}

/// A parenthesised predicate, a function call, or a comparison.
pub open spec fn parse_primary(ts: Seq<TokenView>, at: int) -> Parse<ExprView>
    decreases remaining(ts, at), 0nat,
{
    match token_at(ts, at) {
        Some(TokenView::OpenParen) => match parse_disjunction(ts, at + 1) {
            Ok((inner, p)) => close_paren(ts, inner, p),
            Err(m) => Err(m),
        },
        Some(TokenView::Word(name)) if token_at(ts, at + 1) == Some(TokenView::OpenParen) => match parse_call(
            ts,
            at + 2,
            name,
        ) {
            Ok((call, p)) => close_paren(ts, call, p),
            Err(m) => Err(m),
        },
        _ => parse_comparison(ts, at),
    }
}

/// Any number of `not`s before a primary.
pub open spec fn parse_negation(ts: Seq<TokenView>, at: int) -> Parse<ExprView>
    decreases remaining(ts, at), 1nat,
{
    if is_word_at(ts, at, "not"@) {
        match parse_negation(ts, at + 1) {
            Ok((inner, p)) => Ok((ExprView::Not(Box::new(inner)), p)),
            Err(m) => Err(m),
        }
    } else {
        parse_primary(ts, at)
    }
}

/// Negations joined by `and`, grouped from the left; `left` is what stands
/// before `p`.
pub open spec fn conjunction_rest(ts: Seq<TokenView>, left: ExprView, p: int) -> Parse<ExprView>
    decreases remaining(ts, p), 0nat,
{
    if is_word_at(ts, p, "and"@) {
        match parse_negation(ts, p + 1) {
            Ok((right, q)) => if p < q <= ts.len() {
                conjunction_rest(ts, ExprView::And(Box::new(left), Box::new(right)), q)
            } else {
                // never taken: a parse that succeeds moves on
                Ok((ExprView::And(Box::new(left), Box::new(right)), q))
            },
            Err(m) => Err(m),
        }
    } else {
        Ok((left, p))
    }
}

/// Negations joined by `and`.
pub open spec fn parse_conjunction(ts: Seq<TokenView>, at: int) -> Parse<ExprView>
    decreases remaining(ts, at), 2nat,
{
    match parse_negation(ts, at) {
        Ok((left, p)) => if 0 <= at < p <= ts.len() {
            conjunction_rest(ts, left, p)
        } else {
            // never taken: a parse that succeeds moves on
            Ok((left, p))
        },
        Err(m) => Err(m),
    }
}

/// Conjunctions joined by `or`, grouped from the left; `left` is what
/// stands before `p`.
pub open spec fn disjunction_rest(ts: Seq<TokenView>, left: ExprView, p: int) -> Parse<ExprView>
    decreases remaining(ts, p), 0nat,
{
    if is_word_at(ts, p, "or"@) {
        match parse_conjunction(ts, p + 1) {
            Ok((right, q)) => if p < q <= ts.len() {
                disjunction_rest(ts, ExprView::Or(Box::new(left), Box::new(right)), q)
            } else {
                // never taken: a parse that succeeds moves on
                Ok((ExprView::Or(Box::new(left), Box::new(right)), q))
            },
            Err(m) => Err(m),
        }
    } else {
        Ok((left, p))
    }
}

/// Conjunctions joined by `or`: a whole predicate.
pub open spec fn parse_disjunction(ts: Seq<TokenView>, at: int) -> Parse<ExprView>
    decreases remaining(ts, at), 3nat,
{
    match parse_conjunction(ts, at) {
        Ok((left, p)) => if 0 <= at < p <= ts.len() {
            disjunction_rest(ts, left, p)
        } else {
            // never taken: a parse that succeeds moves on
            Ok((left, p))
        },
        Err(m) => Err(m),
    }
}

/// The predicate that the tokens `ts` make, all of them.
pub open spec fn parse_tokens(ts: Seq<TokenView>) -> Result<ExprView, Seq<char>> {
    match parse_disjunction(ts, 0) {
        Ok((e, p)) => if 0 <= p < ts.len() {
            Err(predicate_message("unexpected "@ + token_debug(ts[p]) + " after the predicate"@))
        } else {
            Ok(e)
        },
        Err(m) => Err(m),
    }
}

/// The predicate that the text `s` writes, or the message of the first
/// failure to lex or parse it.
pub open spec fn parse_predicate(s: Seq<char>) -> Result<ExprView, Seq<char>> {
    match lex(s) {
        Ok(ts) => parse_tokens(ts),
        Err(m) => Err(m),
    }
}

// ---------------------------------------------------------------------------
// The parser.

/// Whether `a` holds the text `b`.
fn same_text(a: &String, b: &str) -> (r: bool)
    ensures
        r == (a@ == b@),
{
    let x = chars_of(a.as_str());
    let y = chars_of(b);
    if x.len() != y.len() {
        proof {
            assert(x@.len() != y@.len());
        }
        return false;
    }
    let mut k: usize = 0;
    while k < x.len()
        invariant
            0 <= k <= x.len(),
            x.len() == y.len(),
            x@ == a@,
            y@ == b@,
            x@.take(k as int) == y@.take(k as int),
        decreases x.len() - k,
    {
        if x[k] != y[k] {
            proof {
                assert(x@[k as int] != y@[k as int]);
            }
            return false;
        }
        proof {
            assert(x@.take(k + 1) =~= x@.take(k as int).push(x@[k as int]));
            assert(y@.take(k + 1) =~= y@.take(k as int).push(y@[k as int]));
        }
        k = k + 1;
    }
    proof {
        assert(x@ =~= x@.take(k as int));
        assert(y@ =~= y@.take(k as int));
    }
    true
}

/// How an exec parse reads as a [`Parse`].
pub open spec fn parse_view<T: View>(r: Result<(T, usize), ContractError>) -> Parse<T::V> {
    match r {
        Ok((t, p)) => Ok((t@, p as int)),
        Err(e) => Err(e@),
    }
}

/// A parse that, when it succeeds, moved on from `at` and stayed within
/// `len` tokens.
pub open spec fn moved_on<T>(r: Result<(T, usize), ContractError>, at: int, len: int) -> bool {
    r matches Ok((_, p)) ==> at < p <= len
}

struct Parser<'a> {
    tokens: &'a Vec<Token>,
}

impl<'a> Parser<'a> {
    spec fn ts(&self) -> Seq<TokenView> {
        tokens_view(self.tokens@)
    }

    fn peek(&self, at: usize) -> (r: Option<&'a Token>)
        ensures
            r is Some <==> at < self.tokens@.len(),
            self.ts().len() == self.tokens@.len(),
            self.tokens@.len() <= usize::MAX,
            match r {
                Some(t) => token_at(self.ts(), at as int) == Some(t@),
                None => token_at(self.ts(), at as int) is None,
            },
    {
        if at < self.tokens.len() {
            Some(&self.tokens[at])
        } else {
            None
        }
    }

    fn word_is(&self, at: usize, word: &str) -> (r: bool)
        ensures
            r == is_word_at(self.ts(), at as int, word@),
            r ==> at < self.tokens@.len(),
            self.tokens@.len() <= usize::MAX,
    {
        match self.peek(at) {
            Some(Token::Word(found)) => same_text(found, word),
            _ => false,
        }
    }

    /// The error that names what was found at `at` after `what`.
    fn found_error(&self, what: &str, at: usize) -> (r: ContractError)
        ensures
            r@ == predicate_message(what@ + option_token_debug(token_at(self.ts(), at as int))),
    {
        let mut m = String::new();
        push_str(&mut m, what);
        push_option_token_debug(&mut m, self.peek(at));
        error(m)
    }

    fn operand(&self, at: usize) -> (r: Result<(Operand, usize), ContractError>)
        requires
            at <= self.tokens@.len(),
        ensures
            parse_view(r) == parse_operand(self.ts(), at as int),
            moved_on(r, at as int, self.tokens@.len() as int),
    {
        let literal = match self.peek(at) {
            Some(Token::Path(path)) => return Ok((Operand::Path(path.clone()), at + 1)),
            Some(Token::Text(text)) => StructuredValue::Text(text.clone()),
            Some(Token::Integer(integer)) => StructuredValue::Integer(*integer),
            Some(Token::Decimal(decimal)) => StructuredValue::Decimal(decimal.clone()),
            Some(Token::Word(word)) if same_text(word, "true") => StructuredValue::Bool(true),
            Some(Token::Word(word)) if same_text(word, "false") => StructuredValue::Bool(false),
            Some(Token::Word(word)) if same_text(word, "null") => StructuredValue::Null,
            _ => {
                return Err(self.found_error("expected a 'path' or a literal, found ", at));
            },
        };
        Ok((Operand::Literal(literal), at + 1))
    }

    fn comparison(&self, at: usize) -> (r: Result<(Expression, usize), ContractError>)
        requires
            at <= self.tokens@.len(),
        ensures
            parse_view(r) == parse_comparison(self.ts(), at as int),
            moved_on(r, at as int, self.tokens@.len() as int),
    {
        let (left, p) = match self.operand(at) {
            Ok(x) => x,
            Err(e) => return Err(e),
        };
        let operator = match self.peek(p) {
            Some(Token::Equal) => Operator::Equal,
            Some(Token::NotEqual) => Operator::NotEqual,
            Some(Token::Less) => Operator::Less,
            Some(Token::LessOrEqual) => Operator::LessOrEqual,
            Some(Token::Greater) => Operator::Greater,
            Some(Token::GreaterOrEqual) => Operator::GreaterOrEqual,
            _ => return Err(self.found_error("expected a comparison, found ", p)),
        };
        if p >= self.tokens.len() {
            // unreachable: an operator was found at `p`
            return Err(self.found_error("expected a comparison, found ", p));
        }
        let (right, q) = match self.operand(p + 1) {
            Ok(x) => x,
            Err(e) => return Err(e),
        };
        Ok((Expression::Compare { left, operator, right }, q))
    }

    /// The error that expects `expected` at `at`.
    fn expected_error(&self, expected: &Token, at: usize) -> (r: ContractError)
        ensures
            r@ == expected_message(expected@, token_at(self.ts(), at as int)),
    {
        let mut m = String::new();
        push_str(&mut m, "expected ");
        push_token_debug(&mut m, expected);
        push_str(&mut m, ", found ");
        push_option_token_debug(&mut m, self.peek(at));
        proof {
            assert(m@ =~= "expected "@ + token_debug(expected@) + ", found "@ + option_token_debug(
                token_at(self.ts(), at as int),
            ));
        }
        error(m)
    }

    fn path(&self, at: usize) -> (r: Result<String, ContractError>)
        ensures
            r is Ok ==> at < self.tokens@.len(),
            self.tokens@.len() <= usize::MAX,
            match r {
                Ok(p) => token_at(self.ts(), at as int) == Some(TokenView::Path(p@)),
                Err(e) => e@ == path_message(token_at(self.ts(), at as int)) && !(token_at(
                    self.ts(),
                    at as int,
                ) matches Some(TokenView::Path(_))),
            },
    {
        match self.peek(at) {
            Some(Token::Path(path)) => Ok(path.clone()),
            _ => Err(self.found_error("expected a 'path', found ", at)),
        }
    }

    fn call(&self, at: usize, name: &String) -> (r: Result<(Expression, usize), ContractError>)
        requires
            at <= self.tokens@.len(),
        ensures
            parse_view(r) == parse_call(self.ts(), at as int, name@),
            moved_on(r, at as int, self.tokens@.len() as int),
    {
        if same_text(name, "exists") {
            match self.path(at) {
                Ok(p) => Ok((Expression::Exists(p), at + 1)),
                Err(e) => Err(e),
            }
        } else if same_text(name, "starts-with") || same_text(name, "contains") {
            let path = match self.path(at) {
                Ok(p) => p,
                Err(e) => return Err(e),
            };
            match self.peek(at + 1) {
                Some(Token::Comma) => {},
                _ => return Err(self.expected_error(&Token::Comma, at + 1)),
            }
            let text = match self.peek(at + 2) {
                Some(Token::Text(text)) => text.clone(),
                _ => {
                    let mut m = String::new();
                    push_str(&mut m, name.as_str());
                    push_str(&mut m, "() needs a \"text\", found ");
                    push_option_token_debug(&mut m, self.peek(at + 2));
                    proof {
                        assert(m@ =~= name@ + "() needs a \"text\", found "@ + option_token_debug(
                            token_at(self.ts(), at + 2),
                        ));
                    }
                    return Err(error(m));
                },
            };
            let call = if same_text(name, "contains") {
                Expression::Contains { path, text }
            } else {
                Expression::StartsWith { path, text }
            };
            Ok((call, at + 3))
        } else {
            let mut m = String::new();
            push_str(&mut m, name.as_str());
            push_str(&mut m, "() is not a function a predicate has");
            Err(error(m))
        }
    }

    fn close_paren(&self, inner: Expression, p: usize) -> (r: Result<(Expression, usize), ContractError>)
        requires
            p <= self.tokens@.len(),
        ensures
            parse_view(r) == close_paren(self.ts(), inner@, p as int),
            r matches Ok((_, q)) ==> q == p + 1 && q <= self.tokens@.len(),
    {
        match self.peek(p) {
            Some(Token::CloseParen) => Ok((inner, p + 1)),
            _ => Err(self.expected_error(&Token::CloseParen, p)),
        }
    }

    fn primary(&self, at: usize) -> (r: Result<(Expression, usize), ContractError>)
        requires
            at <= self.tokens@.len(),
        ensures
            parse_view(r) == parse_primary(self.ts(), at as int),
            moved_on(r, at as int, self.tokens@.len() as int),
        decreases self.tokens@.len() - at, 0nat,
    {
        match self.peek(at) {
            Some(Token::OpenParen) => {
                let (inner, p) = match self.disjunction(at + 1) {
                    Ok(x) => x,
                    Err(e) => return Err(e),
                };
                self.close_paren(inner, p)
            },
            Some(Token::Word(name)) if matches!(self.peek(at + 1), Some(Token::OpenParen)) => {
                let (call, p) = match self.call(at + 2, name) {
                    Ok(x) => x,
                    Err(e) => return Err(e),
                };
                self.close_paren(call, p)
            },
            _ => self.comparison(at),
        }
    }

    fn negation(&self, at: usize) -> (r: Result<(Expression, usize), ContractError>)
        requires
            at <= self.tokens@.len(),
        ensures
            parse_view(r) == parse_negation(self.ts(), at as int),
            moved_on(r, at as int, self.tokens@.len() as int),
        decreases self.tokens@.len() - at, 1nat,
    {
        if self.word_is(at, "not") {
            let (inner, p) = match self.negation(at + 1) {
                Ok(x) => x,
                Err(e) => return Err(e),
            };
            return Ok((Expression::Not(Box::new(inner)), p));
        }
        self.primary(at)
    }

    fn conjunction(&self, at: usize) -> (r: Result<(Expression, usize), ContractError>)
        requires
            at <= self.tokens@.len(),
        ensures
            parse_view(r) == parse_conjunction(self.ts(), at as int),
            moved_on(r, at as int, self.tokens@.len() as int),
        decreases self.tokens@.len() - at, 2nat,
    {
        let (mut left, mut p) = match self.negation(at) {
            Ok(x) => x,
            Err(e) => return Err(e),
        };
        while self.word_is(p, "and")
            invariant
                at < p <= self.tokens@.len(),
                parse_conjunction(self.ts(), at as int) == conjunction_rest(
                    self.ts(),
                    left@,
                    p as int,
                ),
            decreases self.tokens@.len() - p,
        {
            let (right, q) = match self.negation(p + 1) {
                Ok(x) => x,
                Err(e) => return Err(e),
            };
            left = Expression::And(Box::new(left), Box::new(right));
            p = q;
        }
        Ok((left, p))
    }

    fn disjunction(&self, at: usize) -> (r: Result<(Expression, usize), ContractError>)
        requires
            at <= self.tokens@.len(),
        ensures
            parse_view(r) == parse_disjunction(self.ts(), at as int),
            moved_on(r, at as int, self.tokens@.len() as int),
        decreases self.tokens@.len() - at, 3nat,
    {
        let (mut left, mut p) = match self.conjunction(at) {
            Ok(x) => x,
            Err(e) => return Err(e),
        };
        while self.word_is(p, "or")
            invariant
                at < p <= self.tokens@.len(),
                parse_disjunction(self.ts(), at as int) == disjunction_rest(
                    self.ts(),
                    left@,
                    p as int,
                ),
            decreases self.tokens@.len() - p,
        {
            let (right, q) = match self.conjunction(p + 1) {
                Ok(x) => x,
                Err(e) => return Err(e),
            };
            left = Expression::Or(Box::new(left), Box::new(right));
            p = q;
        }
        Ok((left, p))
    }
}

impl Expression {
    /// Parse `text`.
    ///
    /// # Errors
    /// The text does not lex, or is not a predicate of comparisons, functions,
    /// `and`, `or`, `not` and parentheses.
    pub fn parse(text: &str) -> (r: Result<Self, ContractError>)
        ensures
            match r {
                Ok(e) => parse_predicate(text@) == Ok::<ExprView, Seq<char>>(e@),
                Err(err) => parse_predicate(text@) == Err::<ExprView, Seq<char>>(err@),
            },
    {
        let tokens = match tokenize(text) {
            Ok(tokens) => tokens,
            Err(e) => return Err(e),
        };
        let parser = Parser { tokens: &tokens };
        let (expression, at) = match parser.disjunction(0) {
            Ok(x) => x,
            Err(e) => return Err(e),
        };
        if at < tokens.len() {
            let mut m = String::new();
            push_str(&mut m, "unexpected ");
            push_token_debug(&mut m, &tokens[at]);
            push_str(&mut m, " after the predicate");
            proof {
                assert(parser.ts()[at as int] == tokens@[at as int]@);
                assert(m@ =~= "unexpected "@ + token_debug(parser.ts()[at as int])
                    + " after the predicate"@);
            }
            return Err(error(m));
        }
        Ok(expression)
    }
}


// ---------------------------------------------------------------------------
// What a parse depends on.

/// `us` holds the tokens of `ts` from `from` on, `d` places further on.
pub open spec fn holds_from(ts: Seq<TokenView>, from: int, us: Seq<TokenView>, d: int) -> bool {
    forall|i: int| from <= i < ts.len() ==> token_at(us, i + d) == #[trigger] token_at(ts, i)
}

/// The same parse, `d` places further on.
pub open spec fn shifted<T>(r: Parse<T>, d: int) -> Parse<T> {
    match r {
        Ok((v, q)) => Ok((v, q + d)),
        Err(m) => Err(m),
    }
}

proof fn lemma_frame_operand(ts: Seq<TokenView>, at: int, us: Seq<TokenView>, d: int)
    requires
        0 <= at,
        0 <= at + d,
        holds_from(ts, at, us, d),
        parse_operand(ts, at) is Ok,
    ensures
        parse_operand(ts, at)->Ok_0.1 == at + 1 <= ts.len(),
        parse_operand(us, at + d) == shifted(parse_operand(ts, at), d),
{
    assert(at < ts.len());
    assert(token_at(us, at + d) == token_at(ts, at));
}

proof fn lemma_frame_comparison(ts: Seq<TokenView>, at: int, us: Seq<TokenView>, d: int)
    requires
        0 <= at,
        0 <= at + d,
        holds_from(ts, at, us, d),
        parse_comparison(ts, at) is Ok,
    ensures
        parse_comparison(ts, at)->Ok_0.1 == at + 3 <= ts.len(),
        parse_comparison(us, at + d) == shifted(parse_comparison(ts, at), d),
{
    lemma_frame_operand(ts, at, us, d);
    assert(at + 1 < ts.len());
    assert(token_at(us, at + 1 + d) == token_at(ts, at + 1));
    lemma_frame_operand(ts, at + 2, us, d);
}

proof fn lemma_frame_call(ts: Seq<TokenView>, at: int, name: Seq<char>, us: Seq<TokenView>, d: int)
    requires
        0 <= at,
        0 <= at + d,
        holds_from(ts, at, us, d),
        parse_call(ts, at, name) is Ok,
    ensures
        at < parse_call(ts, at, name)->Ok_0.1 <= ts.len(),
        parse_call(us, at + d, name) == shifted(parse_call(ts, at, name), d),
{
    assert(at < ts.len());
    assert(token_at(us, at + d) == token_at(ts, at));
    if at + 1 < ts.len() {
        assert(token_at(us, at + 1 + d) == token_at(ts, at + 1));
    }
    if at + 2 < ts.len() {
        assert(token_at(us, at + 2 + d) == token_at(ts, at + 2));
    }
}

/// A primary that parses in `ts` parses alike wherever its tokens stand.
pub proof fn lemma_frame_primary(ts: Seq<TokenView>, at: int, us: Seq<TokenView>, d: int)
    requires
        0 <= at,
        0 <= at + d,
        holds_from(ts, at, us, d),
        parse_primary(ts, at) is Ok,
    ensures
        at < parse_primary(ts, at)->Ok_0.1 <= ts.len(),
        parse_primary(us, at + d) == shifted(parse_primary(ts, at), d),
    decreases remaining(ts, at), 0nat,
{
    let t = token_at(ts, at);
    if t == Some(TokenView::OpenParen) {
        assert(token_at(us, at + d) == token_at(ts, at));
        let inner = parse_disjunction(ts, at + 1);
        lemma_frame_disjunction(ts, at + 1, us, d);
        let p = inner->Ok_0.1;
        assert(token_at(us, p + d) == token_at(ts, p));
    } else if t matches Some(TokenView::Word(name)) && token_at(ts, at + 1) == Some(
        TokenView::OpenParen,
    ) {
        assert(token_at(us, at + d) == token_at(ts, at));
        assert(token_at(us, at + 1 + d) == token_at(ts, at + 1));
        let name = t->Some_0->Word_0;
        lemma_frame_call(ts, at + 2, name, us, d);
        let p = parse_call(ts, at + 2, name)->Ok_0.1;
        assert(token_at(us, p + d) == token_at(ts, p));
    } else {
        assert(parse_primary(ts, at) == parse_comparison(ts, at));
        lemma_frame_comparison(ts, at, us, d);
        assert(token_at(us, at + d) == token_at(ts, at));
        assert(token_at(us, at + 1 + d) == token_at(ts, at + 1));
    }
}

/// A negation that parses in `ts` parses alike wherever its tokens stand.
pub proof fn lemma_frame_negation(ts: Seq<TokenView>, at: int, us: Seq<TokenView>, d: int)
    requires
        0 <= at,
        0 <= at + d,
        holds_from(ts, at, us, d),
        parse_negation(ts, at) is Ok,
    ensures
        at < parse_negation(ts, at)->Ok_0.1 <= ts.len(),
        parse_negation(us, at + d) == shifted(parse_negation(ts, at), d),
    decreases remaining(ts, at), 1nat,
{
    if is_word_at(ts, at, "not"@) {
        assert(token_at(us, at + d) == token_at(ts, at));
        lemma_frame_negation(ts, at + 1, us, d);
    } else {
        lemma_frame_primary(ts, at, us, d);
        assert(token_at(us, at + d) == token_at(ts, at));
    }
}

/// Negations joined by `and` from `p` on parse alike wherever their tokens
/// stand, when what follows them is not `and`.
pub proof fn lemma_frame_conjunction_rest(
    ts: Seq<TokenView>,
    left: ExprView,
    p: int,
    us: Seq<TokenView>,
    d: int,
)
    requires
        0 <= p <= ts.len(),
        0 <= p + d,
        holds_from(ts, p, us, d),
        conjunction_rest(ts, left, p) is Ok,
        conjunction_rest(ts, left, p)->Ok_0.1 == ts.len() ==> !is_word_at(
            us,
            ts.len() + d,
            "and"@,
        ),
    ensures
        p <= conjunction_rest(ts, left, p)->Ok_0.1 <= ts.len(),
        conjunction_rest(us, left, p + d) == shifted(conjunction_rest(ts, left, p), d),
    decreases remaining(ts, p), 0nat,
{
    if is_word_at(ts, p, "and"@) {
        assert(token_at(us, p + d) == token_at(ts, p));
        lemma_frame_negation(ts, p + 1, us, d);
        let (right, q) = parse_negation(ts, p + 1)->Ok_0;
        assert(token_at(us, q - 1 + d) == token_at(ts, q - 1));
        lemma_frame_conjunction_rest(ts, ExprView::And(Box::new(left), Box::new(right)), q, us, d);
    } else if p < ts.len() {
        assert(token_at(us, p + d) == token_at(ts, p));
    }
}

/// A conjunction that parses in `ts` parses alike wherever its tokens
/// stand, when what follows it is not `and`.
pub proof fn lemma_frame_conjunction(ts: Seq<TokenView>, at: int, us: Seq<TokenView>, d: int)
    requires
        0 <= at,
        0 <= at + d,
        holds_from(ts, at, us, d),
        parse_conjunction(ts, at) is Ok,
        parse_conjunction(ts, at)->Ok_0.1 == ts.len() ==> !is_word_at(us, ts.len() + d, "and"@),
    ensures
        at < parse_conjunction(ts, at)->Ok_0.1 <= ts.len(),
        parse_conjunction(us, at + d) == shifted(parse_conjunction(ts, at), d),
    decreases remaining(ts, at), 2nat,
{
    lemma_frame_negation(ts, at, us, d);
    let (left, p) = parse_negation(ts, at)->Ok_0;
    assert(token_at(us, p - 1 + d) == token_at(ts, p - 1));
    lemma_frame_conjunction_rest(ts, left, p, us, d);
}

/// Conjunctions joined by `or` from `p` on parse alike wherever their
/// tokens stand, when what follows them is neither `and` nor `or`.
pub proof fn lemma_frame_disjunction_rest(
    ts: Seq<TokenView>,
    left: ExprView,
    p: int,
    us: Seq<TokenView>,
    d: int,
)
    requires
        0 <= p <= ts.len(),
        0 <= p + d,
        holds_from(ts, p, us, d),
        disjunction_rest(ts, left, p) is Ok,
        disjunction_rest(ts, left, p)->Ok_0.1 == ts.len() ==> !is_word_at(
            us,
            ts.len() + d,
            "and"@,
        ) && !is_word_at(us, ts.len() + d, "or"@),
    ensures
        p <= disjunction_rest(ts, left, p)->Ok_0.1 <= ts.len(),
        disjunction_rest(us, left, p + d) == shifted(disjunction_rest(ts, left, p), d),
    decreases remaining(ts, p), 0nat,
{
    if is_word_at(ts, p, "or"@) {
        assert(token_at(us, p + d) == token_at(ts, p));
        let c = parse_conjunction(ts, p + 1);
        if c is Ok && c->Ok_0.1 == ts.len() {
            let joined = ExprView::Or(Box::new(left), Box::new(c->Ok_0.0));
            assert(!is_word_at(ts, ts.len() as int, "or"@));
            assert(disjunction_rest(ts, joined, ts.len() as int) == Ok::<(ExprView, int), Seq<char>>(
                (joined, ts.len() as int),
            ));
            assert(disjunction_rest(ts, left, p)->Ok_0.1 == ts.len());
        }
        lemma_frame_conjunction(ts, p + 1, us, d);
        let (right, q) = c->Ok_0;
        assert(token_at(us, q - 1 + d) == token_at(ts, q - 1));
        lemma_frame_disjunction_rest(ts, ExprView::Or(Box::new(left), Box::new(right)), q, us, d);
    } else if p < ts.len() {
        assert(token_at(us, p + d) == token_at(ts, p));
    }
}

/// A disjunction that parses in `ts` parses alike wherever its tokens
/// stand, when what follows it is neither `and` nor `or`.
pub proof fn lemma_frame_disjunction(ts: Seq<TokenView>, at: int, us: Seq<TokenView>, d: int)
    requires
        0 <= at,
        0 <= at + d,
        holds_from(ts, at, us, d),
        parse_disjunction(ts, at) is Ok,
        parse_disjunction(ts, at)->Ok_0.1 == ts.len() ==> !is_word_at(us, ts.len() + d, "and"@)
            && !is_word_at(us, ts.len() + d, "or"@),
    ensures
        at < parse_disjunction(ts, at)->Ok_0.1 <= ts.len(),
        parse_disjunction(us, at + d) == shifted(parse_disjunction(ts, at), d),
    decreases remaining(ts, at), 3nat,
{
    let c = parse_conjunction(ts, at);
    if c is Ok && c->Ok_0.1 == ts.len() {
        assert(!is_word_at(ts, ts.len() as int, "or"@));
    }
    lemma_frame_conjunction(ts, at, us, d);
    let (left, p) = c->Ok_0;
    assert(token_at(us, p - 1 + d) == token_at(ts, p - 1));
    lemma_frame_disjunction_rest(ts, left, p, us, d);
}

} // verus!
