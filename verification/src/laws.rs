//! What holds of the language as a whole: how its text splits into tokens,
//! how tightly its connectives bind, what its comparisons say, what an
//! evaluation asks of its reader, and how it fails.

use vstd::prelude::*;

use crate::decimal::{decimal_order, integer_decimal, lemma_decimal_order_reverses, lemma_integer_decimal_value, pow10};
use crate::eval::{
    compare_spec, eval_seq, is_run, lemma_eval_seq_agree, lemma_read_paths_len, mismatch_message,
    read_paths, resolve_answer, resolve_seq, text_answer, value_order,
};
use crate::expression::{
    close_paren, conjunction_rest, disjunction_rest, expected_message, is_word_at, parse_call,
    parse_comparison, parse_conjunction, parse_disjunction, parse_negation, parse_operand,
    parse_predicate, parse_primary, parse_tokens, path_message, remaining, token_at, ExprView,
    OperandView, Operator, lemma_frame_disjunction, lemma_frame_negation,
};
use crate::lexer::{
    ends_tokens, lemma_lex_shift, lemma_step_advances, lemma_step_prefix, lex, lex_from, lex_step, not_a_number_message, number_end, option_token_debug, quoted_scan,
    token_debug, trim_points, unexpected_message, unterminated_message, word_end, LexStep,
    TokenView,
};
use crate::order::{
    byte_seq_order, char_seq_order, int_order, lemma_byte_seq_order_reverses,
    lemma_char_seq_order_reverses, reversed, Order,
};
use crate::text::{
    char_debug, alphabetic, alphanumeric, is_digit_char, is_whitespace_char, nat_text, str_debug,
    utf8_length,
};
use crate::value::{kind_name, predicate_message, Answer, StructureReader, ValueView};

verus! {

// ---------------------------------------------------------------------------
// Tokens.

/// Any Unicode whitespace separates tokens: a whitespace character is
/// skipped, and lexing goes on after it.
pub proof fn law_whitespace_separates_tokens(s: Seq<char>, i: int)
    requires
        0 <= i < s.len(),
        is_whitespace_char(s[i]),
    ensures
        lex_from(s, i) == lex_from(s, i + 1),
{
}

/// Paths and texts are kept apart: a single-quoted string is a path, a
/// double-quoted one a text, whatever the quotes hold.
pub proof fn law_quotes_keep_paths_and_texts_apart(s: Seq<char>, i: int)
    requires
        0 <= i < s.len(),
        quoted_scan(s, i + 1, s[i]) is Some,
    ensures
        s[i] == '\'' ==> lex_step(s, i) matches LexStep::Emit(TokenView::Path(_), _),
        s[i] == '"' ==> lex_step(s, i) matches LexStep::Emit(TokenView::Text(_), _),
{
}

/// The characters that begin a token of their own before anything else:
/// brackets, comma, comparison signs, quotes, digits and the minus sign.
pub open spec fn is_symbol_or_digit(c: char) -> bool {
    c == '(' || c == ')' || c == ',' || c == '=' || c == '!' || c == '<' || c == '>' || c == '\''
        || c == '"' || c == '-' || ('0' <= c && c <= '9')
}

/// A word may hold any letter: a letter begins a word, which runs on over
/// letters, digits, `-` and `_`.
pub proof fn law_a_letter_begins_a_word(s: Seq<char>, i: int)
    requires
        0 <= i < s.len(),
        !is_whitespace_char(s[i]),
        !is_symbol_or_digit(s[i]),
        alphabetic(s[i]),
    ensures
        lex_step(s, i) == LexStep::Emit(
            TokenView::Word(s.subrange(i, word_end(s, i + 1))),
            (word_end(s, i + 1) - i) as nat,
        ),
{
}

/// Whether `c` begins a token.
pub open spec fn begins_token(s: Seq<char>, i: int) -> bool {
    let c = s[i];
    ||| is_whitespace_char(c)
    ||| c == '(' || c == ')' || c == ',' || c == '=' || c == '<' || c == '>'
    ||| c == '!' && i + 1 < s.len() && s[i + 1] == '='
    ||| c == '\'' || c == '"'
    ||| '0' <= c && c <= '9'
    ||| c == '-' && i + 1 < s.len() && '0' <= s[i + 1] && s[i + 1] <= '9'
    ||| alphabetic(c)
}

/// A character that begins no token is refused by its offset, never a
/// panic: lexing stops there with the message that names the character, its
/// byte offset and the predicate.
pub proof fn law_a_stray_character_is_refused(s: Seq<char>, i: int)
    requires
        0 <= i < s.len(),
        !begins_token(s, i),
    ensures
        lex_from(s, i) == Err::<Seq<TokenView>, Seq<char>>(unexpected_message(s, i)),
{
}

proof fn lemma_concat_at(a: Seq<char>, r: Seq<char>, i: int)
    requires
        0 <= i <= a.len(),
        lex_from(a, i) is Ok,
        lex(r) is Ok,
        r.len() > 0,
        ends_tokens(r[0]),
    ensures
        lex_from(a + r, i) == Ok::<Seq<TokenView>, Seq<char>>(
            lex_from(a, i)->Ok_0 + lex(r)->Ok_0,
        ),
    decreases a.len() - i,
{
    let tr = lex(r)->Ok_0;
    if i == a.len() {
        lemma_lex_shift(a, r, 0);
        assert(Seq::<TokenView>::empty() + tr =~= tr);
    } else {
        lemma_step_advances(a, i);
        lemma_step_prefix(a, r, i);
        match lex_step(a, i) {
            LexStep::Skip(n) => {
                lemma_concat_at(a, r, i + n);
            },
            LexStep::Emit(t, n) => {
                lemma_concat_at(a, r, i + n);
                let rest = lex_from(a, i + n)->Ok_0;
                assert(seq![t] + (rest + tr) =~= (seq![t] + rest) + tr);
            },
            LexStep::Fail(_) => {},
        }
    }
}

/// Text that lexes, followed by text that lexes and begins with a character
/// that ends every token, lexes to the tokens of the one and then those of
/// the other.
pub proof fn law_texts_lex_one_after_the_other(a: Seq<char>, r: Seq<char>)
    requires
        lex(a) is Ok,
        lex(r) is Ok,
        r.len() > 0,
        ends_tokens(r[0]),
    ensures
        lex(a + r) == Ok::<Seq<TokenView>, Seq<char>>(lex(a)->Ok_0 + lex(r)->Ok_0),
{
    lemma_concat_at(a, r, 0);
}

/// White space only separates: two texts that lex, joined by one
/// white-space character, lex to the tokens of the first followed by those
/// of the second. (No white-space character is alphanumeric; of the ASCII
/// ones [`alphanumeric`] says so itself, of the others the library knows
/// `char::is_alphanumeric` only by its name, so that is stated.)
pub proof fn law_white_space_only_separates(a: Seq<char>, c: char, b: Seq<char>)
    requires
        lex(a) is Ok,
        lex(b) is Ok,
        is_whitespace_char(c),
        !alphanumeric(c),
    ensures
        lex(a + seq![c] + b) == Ok::<Seq<TokenView>, Seq<char>>(lex(a)->Ok_0 + lex(b)->Ok_0),
{
    let r = seq![c] + b;
    assert(r[0] == c);
    assert(r =~= seq![c] + b);
    assert(lex_step(r, 0) == LexStep::Skip(1));
    lemma_lex_shift(seq![c], b, 0);
    assert(lex(r) == lex(b));
    lemma_concat_at(a, r, 0);
    assert(a + seq![c] + b =~= a + r);
}

/// The lexer, stepping from `j`, skips and emits its way to `i` without
/// failing.
pub open spec fn steps_to(s: Seq<char>, j: int, i: int) -> bool
    decreases i - j,
{
    if j == i {
        true
    } else if j < 0 || j > i || j >= s.len() {
        false
    } else {
        match lex_step(s, j) {
            LexStep::Skip(n) => 0 < n && j + n <= i && steps_to(s, j + n, i),
            LexStep::Emit(_, n) => 0 < n && j + n <= i && steps_to(s, j + n, i),
            LexStep::Fail(_) => false,
        }
    }
}

proof fn lemma_failure_carries_back(s: Seq<char>, j: int, i: int)
    requires
        steps_to(s, j, i),
        i < s.len(),
        lex_from(s, i) is Err,
    ensures
        lex_from(s, j) == lex_from(s, i),
    decreases i - j,
{
    if j != i {
        match lex_step(s, j) {
            LexStep::Skip(n) => lemma_failure_carries_back(s, j + n, i),
            LexStep::Emit(_, n) => lemma_failure_carries_back(s, j + n, i),
            LexStep::Fail(_) => {},
        }
    }
}

/// A character that begins no token fails the whole predicate, named by its
/// offset, once the lexer arrives at it without failing before.
pub proof fn law_a_stray_character_fails_the_predicate(s: Seq<char>, i: int)
    requires
        0 <= i < s.len(),
        steps_to(s, 0, i),
        !begins_token(s, i),
    ensures
        lex(s) == Err::<Seq<TokenView>, Seq<char>>(unexpected_message(s, i)),
{
    law_a_stray_character_is_refused(s, i);
    lemma_failure_carries_back(s, 0, i);
}

/// `t` as it is written between quotes `q`: each backslash and each `q` in
/// it with a backslash before it.
pub open spec fn escaped(t: Seq<char>, q: char) -> Seq<char>
    decreases t.len(),
{
    if t.len() == 0 {
        Seq::empty()
    } else {
        (if t[0] == '\\' || t[0] == q {
            seq!['\\', t[0]]
        } else {
            seq![t[0]]
        }) + escaped(t.drop_first(), q)
    }
}

proof fn lemma_scan_escaped(s: Seq<char>, j: int, t: Seq<char>, q: char)
    requires
        q == '\'' || q == '"',
        0 <= j,
        j + escaped(t, q).len() < s.len(),
        s.subrange(j, j + escaped(t, q).len()) == escaped(t, q),
        s[j + escaped(t, q).len()] == q,
    ensures
        quoted_scan(s, j, q) == Some((t, j + escaped(t, q).len() + 1)),
    decreases t.len(),
{
    let et = escaped(t, q);
    if t.len() > 0 {
        let rest = escaped(t.drop_first(), q);
        let w: int = if t[0] == '\\' || t[0] == q {
            2
        } else {
            1
        };
        assert(et.len() == w + rest.len());
        assert(s[j] == et[0]);
        if w == 2 {
            assert(s[j + 1] == et[1]);
        }
        assert(s.subrange(j + w, j + w + rest.len()) =~= rest) by {
            assert forall|k: int| 0 <= k < rest.len() implies s.subrange(
                j + w,
                j + w + rest.len(),
            )[k] == rest[k] by {
                assert(s[j + w + k] == et[w + k]);
            }
        }
        lemma_scan_escaped(s, j + w, t.drop_first(), q);
        assert(seq![t[0]] + t.drop_first() =~= t);
    } else {
        assert(s[j] == q);
    }
}

/// Quoting undoes escaping: a path or a text written between its quotes,
/// each backslash and each quote of its kind escaped, lexes back to
/// exactly what was written, whatever it holds.
pub proof fn law_quoting_round_trip(t: Seq<char>)
    ensures
        lex(seq!['\''] + escaped(t, '\'') + seq!['\'']) == Ok::<Seq<TokenView>, Seq<char>>(
            seq![TokenView::Path(t)],
        ),
        lex(seq!['"'] + escaped(t, '"') + seq!['"']) == Ok::<Seq<TokenView>, Seq<char>>(
            seq![TokenView::Text(t)],
        ),
{
    let sp = seq!['\''] + escaped(t, '\'') + seq!['\''];
    let lp = escaped(t, '\'').len() as int;
    assert(sp.subrange(1, 1 + lp) =~= escaped(t, '\''));
    lemma_scan_escaped(sp, 1, t, '\'');
    assert(lex_step(sp, 0) == LexStep::Emit(TokenView::Path(t), (lp + 2) as nat));
    assert(lex_from(sp, lp + 2) == Ok::<Seq<TokenView>, Seq<char>>(Seq::empty()));
    assert(seq![TokenView::Path(t)] + Seq::<TokenView>::empty() =~= seq![TokenView::Path(t)]);
    let st = seq!['"'] + escaped(t, '"') + seq!['"'];
    let lt = escaped(t, '"').len() as int;
    assert(st.subrange(1, 1 + lt) =~= escaped(t, '"'));
    lemma_scan_escaped(st, 1, t, '"');
    assert(lex_step(st, 0) == LexStep::Emit(TokenView::Text(t), (lt + 2) as nat));
    assert(lex_from(st, lt + 2) == Ok::<Seq<TokenView>, Seq<char>>(Seq::empty()));
    assert(seq![TokenView::Text(t)] + Seq::<TokenView>::empty() =~= seq![TokenView::Text(t)]);
}

// ---------------------------------------------------------------------------
// Precedence.

/// `x` is one operand of a connective, and parses as `e`: all of its tokens
/// make one negation, that is a comparison, a function call or a
/// parenthesised predicate with any number of `not`s before it.
pub open spec fn parses_as_operand(x: Seq<TokenView>, e: ExprView) -> bool {
    parse_negation(x, 0) == Ok::<(ExprView, int), Seq<char>>((e, x.len() as int))
}

/// `a w b`: the tokens of `a`, the word `w`, the tokens of `b`.
pub open spec fn joined(a: Seq<TokenView>, w: Seq<char>, b: Seq<TokenView>) -> Seq<TokenView> {
    a + seq![TokenView::Word(w)] + b
}

/// `( t )`.
pub open spec fn grouped(t: Seq<TokenView>) -> Seq<TokenView> {
    seq![TokenView::OpenParen] + t + seq![TokenView::CloseParen]
}

/// `not x`.
pub open spec fn negated_tokens(x: Seq<TokenView>) -> Seq<TokenView> {
    seq![TokenView::Word("not"@)] + x
}

proof fn lemma_words_differ()
    ensures
        "or"@ != "and"@,
        "or"@ != "not"@,
        "and"@ != "not"@,
{
    reveal_strlit("or");
    reveal_strlit("and");
    reveal_strlit("not");
    assert("or"@[0] != "and"@[0]);
    assert("or"@[0] != "not"@[0]);
    assert("and"@[0] != "not"@[0]);
}

/// An operand parses as itself wherever its tokens stand.
proof fn lemma_operand_at(x: Seq<TokenView>, e: ExprView, ts: Seq<TokenView>, at: int)
    requires
        parses_as_operand(x, e),
        0 <= at,
        at + x.len() <= ts.len(),
        ts.subrange(at, at + x.len()) == x,
    ensures
        0 < x.len(),
        parse_negation(ts, at) == Ok::<(ExprView, int), Seq<char>>((e, at + x.len())),
{
    assert forall|i: int| 0 <= i < x.len() implies token_at(ts, i + at) == #[trigger] token_at(
        x,
        i,
    ) by {
        assert(ts.subrange(at, at + x.len())[i] == ts[at + i]);
    }
    lemma_frame_negation(x, 0, ts, at);
}

/// Where the tokens run out, the rest of a conjunction or a disjunction is
/// empty: it ends with what stands before.
proof fn lemma_stops_at_end(ts: Seq<TokenView>, e: ExprView)
    ensures
        conjunction_rest(ts, e, ts.len() as int) == Ok::<(ExprView, int), Seq<char>>(
            (e, ts.len() as int),
        ),
        disjunction_rest(ts, e, ts.len() as int) == Ok::<(ExprView, int), Seq<char>>(
            (e, ts.len() as int),
        ),
{
}

/// An operand alone is a whole predicate, the one it parses as.
pub proof fn law_an_operand_parses_alone(x: Seq<TokenView>, e: ExprView)
    requires
        parses_as_operand(x, e),
    ensures
        parse_tokens(x) == Ok::<ExprView, Seq<char>>(e),
{
    assert(x.subrange(0, x.len() as int) =~= x);
    lemma_operand_at(x, e, x, 0);
    lemma_stops_at_end(x, e);
    assert(parse_conjunction(x, 0) == Ok::<(ExprView, int), Seq<char>>((e, x.len() as int)));
    assert(parse_disjunction(x, 0) == Ok::<(ExprView, int), Seq<char>>((e, x.len() as int)));
}

/// `or` binds looser than `and`: `a or b and c` is `a or (b and c)`, for any
/// operands `a`, `b`, `c`.
#[verifier::spinoff_prover]
#[verifier::rlimit(30)]
pub proof fn law_or_binds_looser_than_and(
    a: Seq<TokenView>,
    ea: ExprView,
    b: Seq<TokenView>,
    eb: ExprView,
    c: Seq<TokenView>,
    ec: ExprView,
)
    requires
        parses_as_operand(a, ea),
        parses_as_operand(b, eb),
        parses_as_operand(c, ec),
    ensures
        parse_tokens(joined(joined(a, "or"@, b), "and"@, c)) == Ok::<ExprView, Seq<char>>(
            ExprView::Or(Box::new(ea), Box::new(ExprView::And(Box::new(eb), Box::new(ec)))),
        ),
{
    let ts = joined(joined(a, "or"@, b), "and"@, c);
    let (la, lb, lc) = (a.len() as int, b.len() as int, c.len() as int);
    let n = ts.len() as int;
    lemma_words_differ();
    assert(ts.subrange(0, la) =~= a);
    assert(ts.subrange(la + 1, la + 1 + lb) =~= b);
    assert(ts.subrange(la + 2 + lb, n) =~= c);
    assert(ts[la] == TokenView::Word("or"@));
    assert(ts[la + 1 + lb] == TokenView::Word("and"@));
    lemma_operand_at(a, ea, ts, 0);
    lemma_operand_at(b, eb, ts, la + 1);
    lemma_operand_at(c, ec, ts, la + 2 + lb);
    let bc = ExprView::And(Box::new(eb), Box::new(ec));
    let whole = ExprView::Or(Box::new(ea), Box::new(bc));
    lemma_stops_at_end(ts, bc);
    lemma_stops_at_end(ts, whole);
    assert(!is_word_at(ts, la, "and"@));
    assert(parse_conjunction(ts, 0) == Ok::<(ExprView, int), Seq<char>>((ea, la)));
    assert(conjunction_rest(ts, eb, la + 1 + lb) == Ok::<(ExprView, int), Seq<char>>((bc, n)));
    assert(parse_conjunction(ts, la + 1) == Ok::<(ExprView, int), Seq<char>>((bc, n)));
    assert(disjunction_rest(ts, ea, la) == Ok::<(ExprView, int), Seq<char>>((whole, n)));
    assert(parse_disjunction(ts, 0) == Ok::<(ExprView, int), Seq<char>>((whole, n)));
}

/// `and` binds tighter than `or`: `a and b or c` is `(a and b) or c`, for any
/// operands `a`, `b`, `c`.
#[verifier::spinoff_prover]
#[verifier::rlimit(30)]
pub proof fn law_and_binds_tighter_than_or(
    a: Seq<TokenView>,
    ea: ExprView,
    b: Seq<TokenView>,
    eb: ExprView,
    c: Seq<TokenView>,
    ec: ExprView,
)
    requires
        parses_as_operand(a, ea),
        parses_as_operand(b, eb),
        parses_as_operand(c, ec),
    ensures
        parse_tokens(joined(joined(a, "and"@, b), "or"@, c)) == Ok::<ExprView, Seq<char>>(
            ExprView::Or(Box::new(ExprView::And(Box::new(ea), Box::new(eb))), Box::new(ec)),
        ),
{
    let ts = joined(joined(a, "and"@, b), "or"@, c);
    let (la, lb, lc) = (a.len() as int, b.len() as int, c.len() as int);
    let n = ts.len() as int;
    lemma_words_differ();
    assert(ts.subrange(0, la) =~= a);
    assert(ts.subrange(la + 1, la + 1 + lb) =~= b);
    assert(ts.subrange(la + 2 + lb, n) =~= c);
    assert(ts[la] == TokenView::Word("and"@));
    assert(ts[la + 1 + lb] == TokenView::Word("or"@));
    lemma_operand_at(a, ea, ts, 0);
    lemma_operand_at(b, eb, ts, la + 1);
    lemma_operand_at(c, ec, ts, la + 2 + lb);
    let ab = ExprView::And(Box::new(ea), Box::new(eb));
    let whole = ExprView::Or(Box::new(ab), Box::new(ec));
    lemma_stops_at_end(ts, ec);
    lemma_stops_at_end(ts, whole);
    assert(!is_word_at(ts, la + 1 + lb, "and"@));
    assert(conjunction_rest(ts, ab, la + 1 + lb) == Ok::<(ExprView, int), Seq<char>>(
        (ab, la + 1 + lb),
    ));
    assert(parse_conjunction(ts, 0) == Ok::<(ExprView, int), Seq<char>>((ab, la + 1 + lb)));
    assert(parse_conjunction(ts, la + 2 + lb) == Ok::<(ExprView, int), Seq<char>>((ec, n)));
    assert(disjunction_rest(ts, ab, la + 1 + lb) == Ok::<(ExprView, int), Seq<char>>((whole, n)));
    assert(parse_disjunction(ts, 0) == Ok::<(ExprView, int), Seq<char>>((whole, n)));
}

/// `and` groups from the left: `a and b and c` is `(a and b) and c`.
#[verifier::spinoff_prover]
#[verifier::rlimit(30)]
pub proof fn law_and_groups_from_the_left(
    a: Seq<TokenView>,
    ea: ExprView,
    b: Seq<TokenView>,
    eb: ExprView,
    c: Seq<TokenView>,
    ec: ExprView,
)
    requires
        parses_as_operand(a, ea),
        parses_as_operand(b, eb),
        parses_as_operand(c, ec),
    ensures
        parse_tokens(joined(joined(a, "and"@, b), "and"@, c)) == Ok::<ExprView, Seq<char>>(
            ExprView::And(Box::new(ExprView::And(Box::new(ea), Box::new(eb))), Box::new(ec)),
        ),
{
    let ts = joined(joined(a, "and"@, b), "and"@, c);
    let (la, lb, lc) = (a.len() as int, b.len() as int, c.len() as int);
    let n = ts.len() as int;
    lemma_words_differ();
    assert(ts.subrange(0, la) =~= a);
    assert(ts.subrange(la + 1, la + 1 + lb) =~= b);
    assert(ts.subrange(la + 2 + lb, n) =~= c);
    assert(ts[la] == TokenView::Word("and"@));
    assert(ts[la + 1 + lb] == TokenView::Word("and"@));
    lemma_operand_at(a, ea, ts, 0);
    lemma_operand_at(b, eb, ts, la + 1);
    lemma_operand_at(c, ec, ts, la + 2 + lb);
    let ab = ExprView::And(Box::new(ea), Box::new(eb));
    let whole = ExprView::And(Box::new(ab), Box::new(ec));
    lemma_stops_at_end(ts, whole);
    assert(conjunction_rest(ts, ab, la + 1 + lb) == Ok::<(ExprView, int), Seq<char>>((whole, n)));
    assert(conjunction_rest(ts, ea, la) == Ok::<(ExprView, int), Seq<char>>((whole, n)));
    assert(parse_conjunction(ts, 0) == Ok::<(ExprView, int), Seq<char>>((whole, n)));
    assert(parse_disjunction(ts, 0) == Ok::<(ExprView, int), Seq<char>>((whole, n)));
}

/// `or` groups from the left: `a or b or c` is `(a or b) or c`.
#[verifier::spinoff_prover]
#[verifier::rlimit(30)]
pub proof fn law_or_groups_from_the_left(
    a: Seq<TokenView>,
    ea: ExprView,
    b: Seq<TokenView>,
    eb: ExprView,
    c: Seq<TokenView>,
    ec: ExprView,
)
    requires
        parses_as_operand(a, ea),
        parses_as_operand(b, eb),
        parses_as_operand(c, ec),
    ensures
        parse_tokens(joined(joined(a, "or"@, b), "or"@, c)) == Ok::<ExprView, Seq<char>>(
            ExprView::Or(Box::new(ExprView::Or(Box::new(ea), Box::new(eb))), Box::new(ec)),
        ),
{
    let ts = joined(joined(a, "or"@, b), "or"@, c);
    let (la, lb, lc) = (a.len() as int, b.len() as int, c.len() as int);
    let n = ts.len() as int;
    lemma_words_differ();
    assert(ts.subrange(0, la) =~= a);
    assert(ts.subrange(la + 1, la + 1 + lb) =~= b);
    assert(ts.subrange(la + 2 + lb, n) =~= c);
    assert(ts[la] == TokenView::Word("or"@));
    assert(ts[la + 1 + lb] == TokenView::Word("or"@));
    lemma_operand_at(a, ea, ts, 0);
    lemma_operand_at(b, eb, ts, la + 1);
    lemma_operand_at(c, ec, ts, la + 2 + lb);
    let ab = ExprView::Or(Box::new(ea), Box::new(eb));
    let whole = ExprView::Or(Box::new(ab), Box::new(ec));
    lemma_stops_at_end(ts, ec);
    lemma_stops_at_end(ts, whole);
    assert(!is_word_at(ts, la, "and"@));
    assert(!is_word_at(ts, la + 1 + lb, "and"@));
    assert(parse_conjunction(ts, 0) == Ok::<(ExprView, int), Seq<char>>((ea, la)));
    assert(parse_conjunction(ts, la + 1) == Ok::<(ExprView, int), Seq<char>>((eb, la + 1 + lb)));
    assert(parse_conjunction(ts, la + 2 + lb) == Ok::<(ExprView, int), Seq<char>>((ec, n)));
    assert(disjunction_rest(ts, ab, la + 1 + lb) == Ok::<(ExprView, int), Seq<char>>((whole, n)));
    assert(disjunction_rest(ts, ea, la) == Ok::<(ExprView, int), Seq<char>>((whole, n)));
    assert(parse_disjunction(ts, 0) == Ok::<(ExprView, int), Seq<char>>((whole, n)));
}

/// `not` binds tighter than `and`: `not a and b` is `(not a) and b`, for any
/// operands `a`, `b`; and `not a` is itself an operand.
pub proof fn law_not_binds_tighter_than_and(
    a: Seq<TokenView>,
    ea: ExprView,
    b: Seq<TokenView>,
    eb: ExprView,
)
    requires
        parses_as_operand(a, ea),
        parses_as_operand(b, eb),
    ensures
        parses_as_operand(negated_tokens(a), ExprView::Not(Box::new(ea))),
        parse_tokens(joined(negated_tokens(a), "and"@, b)) == Ok::<ExprView, Seq<char>>(
            ExprView::And(Box::new(ExprView::Not(Box::new(ea))), Box::new(eb)),
        ),
{
    let na = negated_tokens(a);
    let ena = ExprView::Not(Box::new(ea));
    let la = a.len() as int;
    assert(na.subrange(1, la + 1) =~= a);
    lemma_operand_at(a, ea, na, 1);
    assert(parse_negation(na, 0) == Ok::<(ExprView, int), Seq<char>>((ena, la + 1)));
    lemma_and_pair(na, ena, b, eb);
}

/// `a and b`, for any operands `a` and `b`.
#[verifier::spinoff_prover]
#[verifier::rlimit(30)]
proof fn lemma_and_pair(a: Seq<TokenView>, ea: ExprView, b: Seq<TokenView>, eb: ExprView)
    requires
        parses_as_operand(a, ea),
        parses_as_operand(b, eb),
    ensures
        parse_tokens(joined(a, "and"@, b)) == Ok::<ExprView, Seq<char>>(
            ExprView::And(Box::new(ea), Box::new(eb)),
        ),
{
    let ts = joined(a, "and"@, b);
    let (la, lb) = (a.len() as int, b.len() as int);
    let n = ts.len() as int;
    lemma_words_differ();
    assert(ts.subrange(0, la) =~= a);
    assert(ts.subrange(la + 1, n) =~= b);
    assert(ts[la] == TokenView::Word("and"@));
    lemma_operand_at(a, ea, ts, 0);
    lemma_operand_at(b, eb, ts, la + 1);
    let whole = ExprView::And(Box::new(ea), Box::new(eb));
    lemma_stops_at_end(ts, whole);
    assert(conjunction_rest(ts, ea, la) == Ok::<(ExprView, int), Seq<char>>((whole, n)));
    assert(parse_conjunction(ts, 0) == Ok::<(ExprView, int), Seq<char>>((whole, n)));
    assert(parse_disjunction(ts, 0) == Ok::<(ExprView, int), Seq<char>>((whole, n)));
}

/// `a or b`, for any operands `a` and `b`.
#[verifier::spinoff_prover]
#[verifier::rlimit(30)]
proof fn lemma_or_pair(a: Seq<TokenView>, ea: ExprView, b: Seq<TokenView>, eb: ExprView)
    requires
        parses_as_operand(a, ea),
        parses_as_operand(b, eb),
    ensures
        parse_tokens(joined(a, "or"@, b)) == Ok::<ExprView, Seq<char>>(
            ExprView::Or(Box::new(ea), Box::new(eb)),
        ),
{
    let ts = joined(a, "or"@, b);
    let (la, lb) = (a.len() as int, b.len() as int);
    let n = ts.len() as int;
    lemma_words_differ();
    assert(ts.subrange(0, la) =~= a);
    assert(ts.subrange(la + 1, n) =~= b);
    assert(ts[la] == TokenView::Word("or"@));
    lemma_operand_at(a, ea, ts, 0);
    lemma_operand_at(b, eb, ts, la + 1);
    let whole = ExprView::Or(Box::new(ea), Box::new(eb));
    lemma_stops_at_end(ts, eb);
    lemma_stops_at_end(ts, whole);
    assert(!is_word_at(ts, la, "and"@));
    assert(parse_conjunction(ts, 0) == Ok::<(ExprView, int), Seq<char>>((ea, la)));
    assert(parse_conjunction(ts, la + 1) == Ok::<(ExprView, int), Seq<char>>((eb, n)));
    assert(disjunction_rest(ts, ea, la) == Ok::<(ExprView, int), Seq<char>>((whole, n)));
    assert(parse_disjunction(ts, 0) == Ok::<(ExprView, int), Seq<char>>((whole, n)));
}

/// A group adds no node: `( t )` parses as `t` does, and is one operand, so
/// that `not ( t )` is the negation of all of `t`.
#[verifier::spinoff_prover]
#[verifier::rlimit(30)]
pub proof fn law_a_group_adds_no_node(t: Seq<TokenView>, e: ExprView)
    requires
        parse_tokens(t) == Ok::<ExprView, Seq<char>>(e),
    ensures
        parses_as_operand(grouped(t), e),
        parse_tokens(grouped(t)) == Ok::<ExprView, Seq<char>>(e),
        parses_as_operand(negated_tokens(grouped(t)), ExprView::Not(Box::new(e))),
        parse_tokens(negated_tokens(grouped(t))) == Ok::<ExprView, Seq<char>>(
            ExprView::Not(Box::new(e)),
        ),
{
    let g = grouped(t);
    let lt = t.len() as int;
    lemma_words_differ();
    assert forall|i: int| 0 <= i < t.len() implies token_at(g, i + 1) == #[trigger] token_at(
        t,
        i,
    ) by {
        assert(g[i + 1] == t[i]);
    }
    assert(g[lt + 1] == TokenView::CloseParen);
    lemma_frame_disjunction(t, 0, g, 1);
    assert(parse_disjunction(g, 1) == Ok::<(ExprView, int), Seq<char>>((e, lt + 1)));
    assert(token_at(g, 0) == Some(TokenView::OpenParen));
    assert(parse_primary(g, 0) == Ok::<(ExprView, int), Seq<char>>((e, lt + 2)));
    assert(parses_as_operand(g, e));
    law_an_operand_parses_alone(g, e);
    let ng = negated_tokens(g);
    assert(ng.subrange(1, lt + 3) =~= g);
    lemma_operand_at(g, e, ng, 1);
    assert(parses_as_operand(ng, ExprView::Not(Box::new(e))));
    law_an_operand_parses_alone(ng, ExprView::Not(Box::new(e)));
}

/// Parentheses override precedence: `(a or b) and c` is the conjunction of
/// the disjunction and `c`, for any operands `a`, `b`, `c`.
pub proof fn law_parentheses_override(
    a: Seq<TokenView>,
    ea: ExprView,
    b: Seq<TokenView>,
    eb: ExprView,
    c: Seq<TokenView>,
    ec: ExprView,
)
    requires
        parses_as_operand(a, ea),
        parses_as_operand(b, eb),
        parses_as_operand(c, ec),
    ensures
        parse_tokens(joined(grouped(joined(a, "or"@, b)), "and"@, c)) == Ok::<
            ExprView,
            Seq<char>,
        >(ExprView::And(Box::new(ExprView::Or(Box::new(ea), Box::new(eb))), Box::new(ec))),
{
    let ab = ExprView::Or(Box::new(ea), Box::new(eb));
    lemma_or_pair(a, ea, b, eb);
    law_a_group_adds_no_node(joined(a, "or"@, b), ab);
    lemma_and_pair(grouped(joined(a, "or"@, b)), ab, c, ec);
}

// ---------------------------------------------------------------------------
// Precedence in text.

/// `a w b`, written with one space on either side of the word `w`.
pub open spec fn spaced(a: Seq<char>, w: Seq<char>, b: Seq<char>) -> Seq<char> {
    a + seq![' '] + w + seq![' '] + b
}

/// The text `a` is one operand of a connective, and parses as `e`.
pub open spec fn operand_text(a: Seq<char>, e: ExprView) -> bool {
    lex(a) is Ok && parses_as_operand(lex(a)->Ok_0, e)
}

proof fn lemma_word_lexes(w: Seq<char>)
    requires
        w == "or"@ || w == "and"@ || w == "not"@,
    ensures
        lex(w) == Ok::<Seq<TokenView>, Seq<char>>(seq![TokenView::Word(w)]),
{
    reveal_strlit("or");
    reveal_strlit("and");
    reveal_strlit("not");
    let n = w.len() as int;
    assert(w.len() == 2 || w.len() == 3);
    assert(alphabetic(w[0]));
    assert(forall|k: int| 1 <= k < n ==> alphanumeric(#[trigger] w[k]));
    if n == 3 {
        assert(word_end(w, 3) == 3);
        assert(word_end(w, 2) == 3);
        assert(word_end(w, 1) == 3);
    } else {
        assert(word_end(w, 2) == 2);
        assert(word_end(w, 1) == 2);
    }
    assert(w.subrange(0, n) =~= w);
    assert(lex_step(w, 0) == LexStep::Emit(TokenView::Word(w), n as nat));
    assert(lex_from(w, n) == Ok::<Seq<TokenView>, Seq<char>>(Seq::empty()));
    assert(seq![TokenView::Word(w)] + Seq::<TokenView>::empty() =~= seq![TokenView::Word(w)]);
}

proof fn lemma_spaced(a: Seq<char>, w: Seq<char>, b: Seq<char>)
    requires
        lex(a) is Ok,
        lex(b) is Ok,
        w == "or"@ || w == "and"@,
    ensures
        lex(spaced(a, w, b)) == Ok::<Seq<TokenView>, Seq<char>>(
            joined(lex(a)->Ok_0, w, lex(b)->Ok_0),
        ),
{
    lemma_word_lexes(w);
    law_white_space_only_separates(w, ' ', b);
    let inner = w + seq![' '] + b;
    law_white_space_only_separates(a, ' ', inner);
    assert(spaced(a, w, b) =~= a + seq![' '] + inner);
    assert(lex(a)->Ok_0 + (seq![TokenView::Word(w)] + lex(b)->Ok_0) =~= joined(
        lex(a)->Ok_0,
        w,
        lex(b)->Ok_0,
    ));
}

/// In text too, `or` binds looser than `and`: `a or b and c` is
/// `a or (b and c)`, for any operands `a`, `b`, `c`, each of which is also a
/// whole predicate by itself.
pub proof fn law_or_binds_looser_than_and_in_text(
    a: Seq<char>,
    ea: ExprView,
    b: Seq<char>,
    eb: ExprView,
    c: Seq<char>,
    ec: ExprView,
)
    requires
        operand_text(a, ea),
        operand_text(b, eb),
        operand_text(c, ec),
    ensures
        parse_predicate(a) == Ok::<ExprView, Seq<char>>(ea),
        parse_predicate(spaced(spaced(a, "or"@, b), "and"@, c)) == Ok::<ExprView, Seq<char>>(
            ExprView::Or(Box::new(ea), Box::new(ExprView::And(Box::new(eb), Box::new(ec)))),
        ),
{
    law_an_operand_parses_alone(lex(a)->Ok_0, ea);
    lemma_spaced(a, "or"@, b);
    lemma_spaced(spaced(a, "or"@, b), "and"@, c);
    law_or_binds_looser_than_and(lex(a)->Ok_0, ea, lex(b)->Ok_0, eb, lex(c)->Ok_0, ec);
}

/// In text too, `and` binds tighter than `or`: `a and b or c` is
/// `(a and b) or c`.
pub proof fn law_and_binds_tighter_than_or_in_text(
    a: Seq<char>,
    ea: ExprView,
    b: Seq<char>,
    eb: ExprView,
    c: Seq<char>,
    ec: ExprView,
)
    requires
        operand_text(a, ea),
        operand_text(b, eb),
        operand_text(c, ec),
    ensures
        parse_predicate(spaced(spaced(a, "and"@, b), "or"@, c)) == Ok::<ExprView, Seq<char>>(
            ExprView::Or(Box::new(ExprView::And(Box::new(ea), Box::new(eb))), Box::new(ec)),
        ),
{
    lemma_spaced(a, "and"@, b);
    lemma_spaced(spaced(a, "and"@, b), "or"@, c);
    law_and_binds_tighter_than_or(lex(a)->Ok_0, ea, lex(b)->Ok_0, eb, lex(c)->Ok_0, ec);
}

/// In text too, `and` groups from the left: `a and b and c` is
/// `(a and b) and c`.
pub proof fn law_and_groups_from_the_left_in_text(
    a: Seq<char>,
    ea: ExprView,
    b: Seq<char>,
    eb: ExprView,
    c: Seq<char>,
    ec: ExprView,
)
    requires
        operand_text(a, ea),
        operand_text(b, eb),
        operand_text(c, ec),
    ensures
        parse_predicate(spaced(spaced(a, "and"@, b), "and"@, c)) == Ok::<ExprView, Seq<char>>(
            ExprView::And(Box::new(ExprView::And(Box::new(ea), Box::new(eb))), Box::new(ec)),
        ),
{
    lemma_spaced(a, "and"@, b);
    lemma_spaced(spaced(a, "and"@, b), "and"@, c);
    law_and_groups_from_the_left(lex(a)->Ok_0, ea, lex(b)->Ok_0, eb, lex(c)->Ok_0, ec);
}

/// In text too, `or` groups from the left: `a or b or c` is
/// `(a or b) or c`.
pub proof fn law_or_groups_from_the_left_in_text(
    a: Seq<char>,
    ea: ExprView,
    b: Seq<char>,
    eb: ExprView,
    c: Seq<char>,
    ec: ExprView,
)
    requires
        operand_text(a, ea),
        operand_text(b, eb),
        operand_text(c, ec),
    ensures
        parse_predicate(spaced(spaced(a, "or"@, b), "or"@, c)) == Ok::<ExprView, Seq<char>>(
            ExprView::Or(Box::new(ExprView::Or(Box::new(ea), Box::new(eb))), Box::new(ec)),
        ),
{
    lemma_spaced(a, "or"@, b);
    lemma_spaced(spaced(a, "or"@, b), "or"@, c);
    law_or_groups_from_the_left(lex(a)->Ok_0, ea, lex(b)->Ok_0, eb, lex(c)->Ok_0, ec);
}

/// `not t`, written with one space after `not`.
pub open spec fn not_text(t: Seq<char>) -> Seq<char> {
    "not"@ + seq![' '] + t
}

/// In text too, `not` binds tighter than `and`: `not a and b` is
/// `(not a) and b`.
pub proof fn law_not_binds_tighter_than_and_in_text(
    a: Seq<char>,
    ea: ExprView,
    b: Seq<char>,
    eb: ExprView,
)
    requires
        operand_text(a, ea),
        operand_text(b, eb),
    ensures
        parse_predicate(spaced(not_text(a), "and"@, b)) == Ok::<ExprView, Seq<char>>(
            ExprView::And(Box::new(ExprView::Not(Box::new(ea))), Box::new(eb)),
        ),
{
    lemma_word_lexes("not"@);
    law_white_space_only_separates("not"@, ' ', a);
    assert(lex(not_text(a)) == Ok::<Seq<TokenView>, Seq<char>>(negated_tokens(lex(a)->Ok_0)));
    lemma_spaced(not_text(a), "and"@, b);
    law_not_binds_tighter_than_and(lex(a)->Ok_0, ea, lex(b)->Ok_0, eb);
}

/// `( t )`, written without spaces.
pub open spec fn group_text(t: Seq<char>) -> Seq<char> {
    seq!['('] + t + seq![')']
}

/// In text too, a group adds no node: `(t)` parses as `t` does, and
/// `not (t)` as its negation.
pub proof fn law_a_group_adds_no_node_in_text(t: Seq<char>, e: ExprView)
    requires
        parse_predicate(t) == Ok::<ExprView, Seq<char>>(e),
    ensures
        parse_predicate(group_text(t)) == Ok::<ExprView, Seq<char>>(e),
        parse_predicate(not_text(group_text(t))) == Ok::<ExprView, Seq<char>>(
            ExprView::Not(Box::new(e)),
        ),
{
    let tt = lex(t)->Ok_0;
    let close = seq![')'];
    assert(lex_step(close, 0) == LexStep::Emit(TokenView::CloseParen, 1));
    assert(lex_from(close, 1) == Ok::<Seq<TokenView>, Seq<char>>(Seq::empty()));
    assert(lex(close) == Ok::<Seq<TokenView>, Seq<char>>(seq![TokenView::CloseParen]));
    law_texts_lex_one_after_the_other(t, close);
    let inner = t + close;
    let g = group_text(t);
    assert(g =~= seq!['('] + inner);
    assert(g[0] == '(');
    assert(lex_step(g, 0) == LexStep::Emit(TokenView::OpenParen, 1));
    lemma_lex_shift(seq!['('], inner, 0);
    assert(lex(g) == Ok::<Seq<TokenView>, Seq<char>>(seq![TokenView::OpenParen] + (tt + seq![
        TokenView::CloseParen,
    ])));
    assert(seq![TokenView::OpenParen] + (tt + seq![TokenView::CloseParen]) =~= grouped(tt));
    law_a_group_adds_no_node(tt, e);
    lemma_word_lexes("not"@);
    law_white_space_only_separates("not"@, ' ', g);
    assert(lex(not_text(g)) == Ok::<Seq<TokenView>, Seq<char>>(negated_tokens(grouped(tt))));
}

// ---------------------------------------------------------------------------
// Comparisons and reads.

/// A comparison's outcome with its message set aside: `Some` of the truth,
/// `None` for a failure.
pub open spec fn truth_of(r: Result<bool, Seq<char>>) -> Option<bool> {
    match r {
        Ok(b) => Some(b),
        Err(_) => None,
    }
}

/// The opposite truth, a failure left as it is.
pub open spec fn negated(r: Result<bool, Seq<char>>) -> Result<bool, Seq<char>> {
    match r {
        Ok(b) => Ok(!b),
        Err(m) => Err(m),
    }
}

/// A path the reader has nothing for compares as null.
pub proof fn law_a_missing_path_compares_as_null(
    p: Seq<char>,
    operator: Operator,
    right: OperandView,
    t: Seq<Answer>,
)
    ensures
        eval_seq(
            ExprView::Compare { left: OperandView::Path(p), operator, right },
            seq![Ok(None)] + t,
        ) == eval_seq(
            ExprView::Compare { left: OperandView::Path(p), operator, right },
            seq![Ok(Some(ValueView::Null))] + t,
        ),
{
    let absent: Seq<Answer> = seq![Ok(None)] + t;
    let null: Seq<Answer> = seq![Ok(Some(ValueView::Null))] + t;
    assert(absent.skip(1) =~= t);
    assert(null.skip(1) =~= t);
    assert(absent[0] == Ok::<Option<ValueView>, Seq<char>>(None));
    assert(null[0] == Ok::<Option<ValueView>, Seq<char>>(Some(ValueView::Null)));
}

/// `= null` and `!= null` say whether both sides are null, and every other
/// comparison with a null is false rather than an error.
pub proof fn law_only_equality_speaks_of_null(
    left: OperandView,
    lv: ValueView,
    operator: Operator,
    right: OperandView,
    rv: ValueView,
)
    requires
        lv is Null || rv is Null,
    ensures
        compare_spec(left, lv, operator, right, rv) == Ok::<bool, Seq<char>>(
            match operator {
                Operator::Equal => lv is Null && rv is Null,
                Operator::NotEqual => !(lv is Null && rv is Null),
                _ => false,
            },
        ),
{
}

/// `exists` tells a present null from an absent path.
pub proof fn law_exists_tells_null_from_absence(p: Seq<char>, t: Seq<Answer>)
    ensures
        eval_seq(ExprView::Exists(p), seq![Ok(Some(ValueView::Null))] + t) == (
            Ok::<bool, Seq<char>>(true),
            1nat,
        ),
        eval_seq(ExprView::Exists(p), seq![Ok(None)] + t) == (Ok::<bool, Seq<char>>(false), 1nat),
{
    let null: Seq<Answer> = seq![Ok(Some(ValueView::Null))] + t;
    let absent: Seq<Answer> = seq![Ok(None)] + t;
    assert(null[0] == Ok::<Option<ValueView>, Seq<char>>(Some(ValueView::Null)));
    assert(absent[0] == Ok::<Option<ValueView>, Seq<char>>(None));
}

/// Two present values of kinds that do not compare are a fault, named by
/// both sides and both kinds.
pub proof fn law_kinds_that_do_not_compare_are_a_fault(
    left: OperandView,
    lv: ValueView,
    operator: Operator,
    right: OperandView,
    rv: ValueView,
)
    requires
        !(lv is Null),
        !(rv is Null),
        value_order(lv, rv) is None,
    ensures
        compare_spec(left, lv, operator, right, rv) == Err::<bool, Seq<char>>(
            mismatch_message(left, lv, right, rv),
        ),
{
}

/// Whether two present values are of kinds that compare: the same kind, or
/// an integer and a decimal.
pub open spec fn kinds_compare(a: ValueView, b: ValueView) -> bool {
    ||| a is Integer && b is Integer
    ||| (a is Integer || a is Decimal) && (b is Integer || b is Decimal)
    ||| a is Text && b is Text
    ||| a is Bool && b is Bool
    ||| a is Binary && b is Binary
}

/// Values compare exactly when their kinds do.
pub proof fn law_which_kinds_compare(a: ValueView, b: ValueView)
    requires
        !(a is Null),
        !(b is Null),
    ensures
        value_order(a, b) is Some <==> kinds_compare(a, b),
{
}

/// A reader that fails fails the predicate: the comparison stops with the
/// reader's failure and reads nothing more.
pub proof fn law_a_failed_read_fails_the_comparison(
    p: Seq<char>,
    operator: Operator,
    right: OperandView,
    m: Seq<char>,
    t: Seq<Answer>,
)
    ensures
        eval_seq(
            ExprView::Compare { left: OperandView::Path(p), operator, right },
            seq![Err(m)] + t,
        ) == (Err::<bool, Seq<char>>(m), 1nat),
{
    let failed: Seq<Answer> = seq![Err(m)] + t;
    assert(failed[0] == Err::<Option<ValueView>, Seq<char>>(m));
}

/// `!=` is the negation of `=`.
pub proof fn law_not_equal_negates_equal(
    left: OperandView,
    lv: ValueView,
    right: OperandView,
    rv: ValueView,
)
    ensures
        compare_spec(left, lv, Operator::NotEqual, right, rv) == negated(
            compare_spec(left, lv, Operator::Equal, right, rv),
        ),
{
}

/// Between present values, `<` is the negation of `>=`, and `>` of `<=`.
pub proof fn law_orderings_complement(
    left: OperandView,
    lv: ValueView,
    right: OperandView,
    rv: ValueView,
)
    requires
        !(lv is Null),
        !(rv is Null),
    ensures
        compare_spec(left, lv, Operator::Less, right, rv) == negated(
            compare_spec(left, lv, Operator::GreaterOrEqual, right, rv),
        ),
        compare_spec(left, lv, Operator::Greater, right, rv) == negated(
            compare_spec(left, lv, Operator::LessOrEqual, right, rv),
        ),
{
}

proof fn lemma_value_order_reverses(a: ValueView, b: ValueView)
    ensures
        value_order(b, a) == match value_order(a, b) {
            Some(o) => Some(reversed(o)),
            None => None,
        },
{
    match (a, b) {
        (ValueView::Integer(x), ValueView::Decimal(d)) => {
            lemma_decimal_order_reverses(integer_decimal(x), d);
        },
        (ValueView::Decimal(d), ValueView::Integer(y)) => {
            lemma_decimal_order_reverses(d, integer_decimal(y));
        },
        (ValueView::Decimal(d), ValueView::Decimal(e)) => {
            lemma_decimal_order_reverses(d, e);
        },
        (ValueView::Text(x), ValueView::Text(y)) => {
            lemma_char_seq_order_reverses(x, y);
        },
        (ValueView::Binary(x), ValueView::Binary(y)) => {
            lemma_byte_seq_order_reverses(x, y);
        },
        _ => {},
    }
}

/// Exchanging the sides of a comparison exchanges `<` with `>` and `<=`
/// with `>=`, and leaves `=` and `!=` as they are.
pub proof fn law_exchanging_the_sides(
    left: OperandView,
    lv: ValueView,
    right: OperandView,
    rv: ValueView,
)
    ensures
        truth_of(compare_spec(left, lv, Operator::Less, right, rv)) == truth_of(
            compare_spec(right, rv, Operator::Greater, left, lv),
        ),
        truth_of(compare_spec(left, lv, Operator::LessOrEqual, right, rv)) == truth_of(
            compare_spec(right, rv, Operator::GreaterOrEqual, left, lv),
        ),
        truth_of(compare_spec(left, lv, Operator::Equal, right, rv)) == truth_of(
            compare_spec(right, rv, Operator::Equal, left, lv),
        ),
        truth_of(compare_spec(left, lv, Operator::NotEqual, right, rv)) == truth_of(
            compare_spec(right, rv, Operator::NotEqual, left, lv),
        ),
{
    lemma_value_order_reverses(lv, rv);
}

/// An integer beside a decimal is promoted to decimal: an integer compares
/// with any number as the decimal of the same value does.
pub proof fn law_an_integer_is_promoted_to_decimal(n: int, v: ValueView)
    requires
        v is Integer || v is Decimal,
    ensures
        value_order(ValueView::Integer(n), v) == value_order(
            ValueView::Decimal(integer_decimal(n)),
            v,
        ),
        value_order(v, ValueView::Integer(n)) == value_order(
            v,
            ValueView::Decimal(integer_decimal(n)),
        ),
{
    if let ValueView::Integer(m) = v {
        lemma_integer_decimal_value(n);
        lemma_integer_decimal_value(m);
        assert(pow10(0) == 1);
        assert(pow10(integer_decimal(n).scale) == 1);
        assert(pow10(integer_decimal(m).scale) == 1);
        assert(decimal_order(integer_decimal(n), integer_decimal(m)) == int_order(n, m));
        assert(decimal_order(integer_decimal(m), integer_decimal(n)) == int_order(m, n));
    }
}

/// How many path operands `e` holds.
pub open spec fn path_count(e: ExprView) -> nat
    decreases e,
{
    match e {
        ExprView::Compare { left, operator, right } => (if left is Path {
            1nat
        } else {
            0nat
        }) + (if right is Path {
            1nat
        } else {
            0nat
        }),
        ExprView::Exists(_) => 1,
        ExprView::StartsWith { .. } => 1,
        ExprView::Contains { .. } => 1,
        ExprView::And(a, b) => path_count(*a) + path_count(*b),
        ExprView::Or(a, b) => path_count(*a) + path_count(*b),
        ExprView::Not(a) => path_count(*a),
    }
}

/// The reader is asked at most once per path operand.
pub proof fn law_at_most_one_read_per_path_operand(e: ExprView, t: Seq<Answer>)
    ensures
        eval_seq(e, t).1 <= path_count(e),
    decreases e,
{
    match e {
        ExprView::And(a, b) => {
            law_at_most_one_read_per_path_operand(*a, t);
            law_at_most_one_read_per_path_operand(*b, t.skip(eval_seq(*a, t).1 as int));
        },
        ExprView::Or(a, b) => {
            law_at_most_one_read_per_path_operand(*a, t);
            law_at_most_one_read_per_path_operand(*b, t.skip(eval_seq(*a, t).1 as int));
        },
        ExprView::Not(a) => {
            law_at_most_one_read_per_path_operand(*a, t);
        },
        _ => {},
    }
}

/// A connective that its left side decides reads nothing of its right:
/// `false and b` and `true or b` are the left side's outcome.
pub proof fn law_a_decided_connective_reads_no_further(
    a: ExprView,
    b: ExprView,
    t: Seq<Answer>,
)
    ensures
        eval_seq(a, t).0 == Ok::<bool, Seq<char>>(false) ==> eval_seq(
            ExprView::And(Box::new(a), Box::new(b)),
            t,
        ) == eval_seq(a, t),
        eval_seq(a, t).0 == Ok::<bool, Seq<char>>(true) ==> eval_seq(
            ExprView::Or(Box::new(a), Box::new(b)),
            t,
        ) == eval_seq(a, t),
{
}

// ---------------------------------------------------------------------------
// Reads.

/// A reader that answers each path one way only: asked twice for the same
/// path, it gives the same answer.
pub open spec fn answers_uniquely<R: StructureReader>(reader: &R) -> bool {
    forall|p: Seq<char>, a1: Answer, a2: Answer|
        #![trigger reader.answers(p, a1), reader.answers(p, a2)]
        reader.answers(p, a1) && reader.answers(p, a2) ==> a1 == a2
}

#[verifier::spinoff_prover]
#[verifier::rlimit(40)]
proof fn lemma_runs_agree<R: StructureReader>(
    reader: &R,
    e: ExprView,
    t1: Seq<Answer>,
    t2: Seq<Answer>,
)
    requires
        answers_uniquely(reader),
        eval_seq(e, t1).1 <= t1.len(),
        eval_seq(e, t2).1 <= t2.len(),
        forall|k: int|
            0 <= k < eval_seq(e, t1).1 ==> #[trigger] reader.answers(read_paths(e, t1)[k], t1[k]),
        forall|k: int|
            0 <= k < eval_seq(e, t2).1 ==> #[trigger] reader.answers(read_paths(e, t2)[k], t2[k]),
    ensures
        eval_seq(e, t1) == eval_seq(e, t2),
        read_paths(e, t1) == read_paths(e, t2),
        t1.take(eval_seq(e, t1).1 as int) == t2.take(eval_seq(e, t2).1 as int),
    decreases e,
{
    lemma_read_paths_len(e, t1);
    lemma_read_paths_len(e, t2);
    let n1 = eval_seq(e, t1).1 as int;
    let n2 = eval_seq(e, t2).1 as int;
    match e {
        ExprView::Compare { left, operator, right } => {
            if let OperandView::Path(p) = left {
                assert(read_paths(e, t1)[0] == p);
                assert(read_paths(e, t2)[0] == p);
                assert(reader.answers(p, t1[0]));
                assert(reader.answers(p, t2[0]));
            }
            let m = resolve_seq(left, t1).1 as int;
            if resolve_seq(left, t1).0 is Ok {
                assert(resolve_seq(left, t1) == resolve_seq(left, t2));
                if let OperandView::Path(q) = right {
                    assert(read_paths(e, t1)[m] == q);
                    assert(read_paths(e, t2)[m] == q);
                    assert(reader.answers(q, t1[m]));
                    assert(reader.answers(q, t2[m]));
                    assert(t1.skip(m)[0] == t1[m]);
                    assert(t2.skip(m)[0] == t2[m]);
                }
            }
            assert(t1.take(n1) =~= t2.take(n2));
        },
        ExprView::Exists(p) => {
            assert(reader.answers(read_paths(e, t1)[0], t1[0]));
            assert(reader.answers(read_paths(e, t2)[0], t2[0]));
            assert(t1.take(n1) =~= t2.take(n2));
        },
        ExprView::StartsWith { path, text } => {
            assert(reader.answers(read_paths(e, t1)[0], t1[0]));
            assert(reader.answers(read_paths(e, t2)[0], t2[0]));
            assert(t1.take(n1) =~= t2.take(n2));
        },
        ExprView::Contains { path, text } => {
            assert(reader.answers(read_paths(e, t1)[0], t1[0]));
            assert(reader.answers(read_paths(e, t2)[0], t2[0]));
            assert(t1.take(n1) =~= t2.take(n2));
        },
        ExprView::And(a, b) | ExprView::Or(a, b) => {
            let conjunction = e is And;
            let a = *a;
            let b = *b;
            lemma_read_paths_len(a, t1);
            lemma_read_paths_len(a, t2);
            let (ra, na) = eval_seq(a, t1);
            let na2 = eval_seq(a, t2).1;
            assert forall|k: int| 0 <= k < na implies #[trigger] reader.answers(
                read_paths(a, t1)[k],
                t1[k],
            ) by {
                assert(read_paths(e, t1)[k] == read_paths(a, t1)[k]);
                assert(reader.answers(read_paths(e, t1)[k], t1[k]));
            }
            assert forall|k: int| 0 <= k < na2 implies #[trigger] reader.answers(
                read_paths(a, t2)[k],
                t2[k],
            ) by {
                assert(read_paths(e, t2)[k] == read_paths(a, t2)[k]);
                assert(reader.answers(read_paths(e, t2)[k], t2[k]));
            }
            lemma_runs_agree(reader, a, t1, t2);
            if ra == Ok::<bool, Seq<char>>(conjunction) {
                let s1 = t1.skip(na as int);
                let s2 = t2.skip(na as int);
                let nb1 = eval_seq(b, s1).1;
                let nb2 = eval_seq(b, s2).1;
                lemma_read_paths_len(b, s1);
                lemma_read_paths_len(b, s2);
                assert forall|k: int| 0 <= k < nb1 implies #[trigger] reader.answers(
                    read_paths(b, s1)[k],
                    s1[k],
                ) by {
                    assert(read_paths(e, t1)[na + k] == read_paths(b, s1)[k]);
                    assert(reader.answers(read_paths(e, t1)[na + k], t1[na + k]));
                }
                assert forall|k: int| 0 <= k < nb2 implies #[trigger] reader.answers(
                    read_paths(b, s2)[k],
                    s2[k],
                ) by {
                    assert(read_paths(e, t2)[na + k] == read_paths(b, s2)[k]);
                    assert(reader.answers(read_paths(e, t2)[na + k], t2[na + k]));
                }
                lemma_runs_agree(reader, b, s1, s2);
                assert forall|k: int| 0 <= k < na + nb1 implies t1[k] == t2[k] by {
                    if k < na {
                        assert(t1.take(na as int)[k] == t2.take(na as int)[k]);
                    } else {
                        assert(s1.take(nb1 as int)[k - na] == s2.take(nb2 as int)[k - na]);
                    }
                }
                assert(t1.take(n1) =~= t2.take(n2));
            } else {
                assert(t1.take(n1) =~= t2.take(n2));
            }
        },
        ExprView::Not(a) => {
            lemma_runs_agree(reader, *a, t1, t2);
        },
    }
}

/// `a and b` when `conjunction`, `a or b` when not.
pub open spec fn connective(conjunction: bool, a: ExprView, b: ExprView) -> ExprView {
    if conjunction {
        ExprView::And(Box::new(a), Box::new(b))
    } else {
        ExprView::Or(Box::new(a), Box::new(b))
    }
}

/// Two evaluations of one predicate over a reader that answers each path
/// one way only take the same answers and end alike; so do an evaluation
/// and a read of the predicate, whose contracts state both over
/// [`is_run`].
pub proof fn law_runs_over_one_reader_agree<R: StructureReader>(
    reader: &R,
    e: ExprView,
    t1: Seq<Answer>,
    o1: Result<bool, Seq<char>>,
    t2: Seq<Answer>,
    o2: Result<bool, Seq<char>>,
)
    requires
        answers_uniquely(reader),
        is_run(reader, e, t1, o1),
        is_run(reader, e, t2, o2),
    ensures
        t1 == t2,
        o1 == o2,
{
    lemma_runs_agree(reader, e, t1, t2);
    assert(t1.take(t1.len() as int) =~= t1);
    assert(t2.take(t2.len() as int) =~= t2);
}

/// The answers of a run of `a and b` (or `a or b`) that `a` takes are a
/// run of `a`; when `a` does not decide, the rest are a run of `b`, and
/// when it does there is no rest.
#[verifier::spinoff_prover]
proof fn lemma_split_run<R: StructureReader>(
    reader: &R,
    a: ExprView,
    b: ExprView,
    conjunction: bool,
    t: Seq<Answer>,
    o: Result<bool, Seq<char>>,
)
    requires
        is_run(reader, connective(conjunction, a, b), t, o),
    ensures
        eval_seq(a, t).1 <= t.len(),
        is_run(reader, a, t.take(eval_seq(a, t).1 as int), eval_seq(a, t).0),
        eval_seq(a, t).0 == Ok::<bool, Seq<char>>(conjunction) ==> is_run(
            reader,
            b,
            t.skip(eval_seq(a, t).1 as int),
            o,
        ),
        eval_seq(a, t).0 != Ok::<bool, Seq<char>>(conjunction) ==> o == eval_seq(a, t).0
            && t.len() == eval_seq(a, t).1,
{
    let e = connective(conjunction, a, b);
    let (ra, na) = eval_seq(a, t);
    let ta = t.take(na as int);
    lemma_read_paths_len(a, t);
    if ra == Ok::<bool, Seq<char>>(conjunction) {
        assert(read_paths(e, t) == read_paths(a, t) + read_paths(b, t.skip(na as int)));
        assert(eval_seq(e, t).1 == na + eval_seq(b, t.skip(na as int)).1);
        assert(eval_seq(e, t).0 == eval_seq(b, t.skip(na as int)).0);
    } else {
        assert(read_paths(e, t) == read_paths(a, t));
        assert(eval_seq(e, t) == eval_seq(a, t));
    }
    assert(ta.take(na as int) =~= t.take(na as int));
    lemma_eval_seq_agree(a, t, ta);
    assert forall|k: int| 0 <= k < ta.len() implies #[trigger] reader.answers(
        read_paths(a, ta)[k],
        ta[k],
    ) by {
        assert(read_paths(e, t)[k] == read_paths(a, t)[k]);
        assert(reader.answers(read_paths(e, t)[k], t[k]));
    }
    if ra == Ok::<bool, Seq<char>>(conjunction) {
        let tb = t.skip(na as int);
        lemma_read_paths_len(b, tb);
        assert forall|k: int| 0 <= k < tb.len() implies #[trigger] reader.answers(
            read_paths(b, tb)[k],
            tb[k],
        ) by {
            assert(read_paths(e, t)[na + k] == read_paths(b, tb)[k]);
            assert(reader.answers(read_paths(e, t)[na + k], t[na + k]));
        }
    }
}

/// Over a reader that answers each path one way only, `not a` ends as `a`
/// does with the truth turned over, and reads what `a` reads.
pub proof fn law_not_over_one_reader<R: StructureReader>(
    reader: &R,
    a: ExprView,
    t: Seq<Answer>,
    o: Result<bool, Seq<char>>,
    ta: Seq<Answer>,
    oa: Result<bool, Seq<char>>,
)
    requires
        answers_uniquely(reader),
        is_run(reader, ExprView::Not(Box::new(a)), t, o),
        is_run(reader, a, ta, oa),
    ensures
        o == negated(oa),
        t == ta,
{
    lemma_read_paths_len(a, t);
    law_runs_over_one_reader_agree(reader, a, t, eval_seq(a, t).0, ta, oa);
}

/// Over a reader that answers each path one way only, `a and b` ends as `b`
/// does, after reading what `a` reads and then what `b` reads, when `a`
/// holds; otherwise it ends as `a` does and reads only what `a` reads, so
/// that a failure inside `b` is never reported.
pub proof fn law_and_over_one_reader<R: StructureReader>(
    reader: &R,
    a: ExprView,
    b: ExprView,
    t: Seq<Answer>,
    o: Result<bool, Seq<char>>,
    ta: Seq<Answer>,
    oa: Result<bool, Seq<char>>,
    tb: Seq<Answer>,
    ob: Result<bool, Seq<char>>,
)
    requires
        answers_uniquely(reader),
        is_run(reader, ExprView::And(Box::new(a), Box::new(b)), t, o),
        is_run(reader, a, ta, oa),
        oa == Ok::<bool, Seq<char>>(true) ==> is_run(reader, b, tb, ob),
    ensures
        oa == Ok::<bool, Seq<char>>(true) ==> o == ob && t == ta + tb,
        oa != Ok::<bool, Seq<char>>(true) ==> o == oa && t == ta,
{
    lemma_connective_split(reader, a, b, true, t, o, ta, oa, tb, ob);
}

/// Over a reader that answers each path one way only, `a or b` ends as `b`
/// does, after reading what `a` reads and then what `b` reads, when `a`
/// does not hold; otherwise it ends as `a` does and reads only what `a`
/// reads, so that a failure inside `b` is never reported.
pub proof fn law_or_over_one_reader<R: StructureReader>(
    reader: &R,
    a: ExprView,
    b: ExprView,
    t: Seq<Answer>,
    o: Result<bool, Seq<char>>,
    ta: Seq<Answer>,
    oa: Result<bool, Seq<char>>,
    tb: Seq<Answer>,
    ob: Result<bool, Seq<char>>,
)
    requires
        answers_uniquely(reader),
        is_run(reader, ExprView::Or(Box::new(a), Box::new(b)), t, o),
        is_run(reader, a, ta, oa),
        oa == Ok::<bool, Seq<char>>(false) ==> is_run(reader, b, tb, ob),
    ensures
        oa == Ok::<bool, Seq<char>>(false) ==> o == ob && t == ta + tb,
        oa != Ok::<bool, Seq<char>>(false) ==> o == oa && t == ta,
{
    lemma_connective_split(reader, a, b, false, t, o, ta, oa, tb, ob);
}

proof fn lemma_connective_split<R: StructureReader>(
    reader: &R,
    a: ExprView,
    b: ExprView,
    conjunction: bool,
    t: Seq<Answer>,
    o: Result<bool, Seq<char>>,
    ta: Seq<Answer>,
    oa: Result<bool, Seq<char>>,
    tb: Seq<Answer>,
    ob: Result<bool, Seq<char>>,
)
    requires
        answers_uniquely(reader),
        is_run(reader, connective(conjunction, a, b), t, o),
        is_run(reader, a, ta, oa),
        oa == Ok::<bool, Seq<char>>(conjunction) ==> is_run(reader, b, tb, ob),
    ensures
        oa == Ok::<bool, Seq<char>>(conjunction) ==> o == ob && t == ta + tb,
        oa != Ok::<bool, Seq<char>>(conjunction) ==> o == oa && t == ta,
{
    lemma_split_run(reader, a, b, conjunction, t, o);
    let na = eval_seq(a, t).1 as int;
    law_runs_over_one_reader_agree(reader, a, t.take(na), eval_seq(a, t).0, ta, oa);
    if oa == Ok::<bool, Seq<char>>(conjunction) {
        law_runs_over_one_reader_agree(reader, b, t.skip(na), o, tb, ob);
        assert(t =~= t.take(na) + t.skip(na));
    } else {
        assert(t =~= t.take(na));
    }
}

/// `exists('p')` asks the reader once, for `p`, and says whether it found
/// something, a null among them; a failed read is its failure.
pub proof fn law_exists_reads_its_path<R: StructureReader>(
    reader: &R,
    p: Seq<char>,
    t: Seq<Answer>,
    o: Result<bool, Seq<char>>,
)
    requires
        is_run(reader, ExprView::Exists(p), t, o),
    ensures
        t.len() == 1,
        reader.answers(p, t[0]),
        o == match t[0] {
            Ok(found) => Ok::<bool, Seq<char>>(found is Some),
            Err(m) => Err(m),
        },
{
    assert(reader.answers(read_paths(ExprView::Exists(p), t)[0], t[0]));
}

/// Whether `p` is a path that `e` names: a path operand, or the path of
/// `exists`, `starts-with` or `contains`.
pub open spec fn mentions(e: ExprView, p: Seq<char>) -> bool
    decreases e,
{
    match e {
        ExprView::Compare { left, operator, right } => left == OperandView::Path(p) || right
            == OperandView::Path(p),
        ExprView::Exists(q) => q == p,
        ExprView::StartsWith { path, text } => path == p,
        ExprView::Contains { path, text } => path == p,
        ExprView::And(a, b) => mentions(*a, p) || mentions(*b, p),
        ExprView::Or(a, b) => mentions(*a, p) || mentions(*b, p),
        ExprView::Not(a) => mentions(*a, p),
    }
}

proof fn lemma_read_paths_are_named(e: ExprView, t: Seq<Answer>)
    ensures
        forall|k: int|
            0 <= k < read_paths(e, t).len() ==> #[trigger] mentions(e, read_paths(e, t)[k]),
    decreases e,
{
    match e {
        ExprView::And(a, b) => {
            let na = eval_seq(*a, t).1 as int;
            lemma_read_paths_are_named(*a, t);
            lemma_read_paths_are_named(*b, t.skip(na));
            let pa = read_paths(*a, t);
            let pb = read_paths(*b, t.skip(na));
            assert forall|k: int| 0 <= k < read_paths(e, t).len() implies #[trigger] mentions(
                e,
                read_paths(e, t)[k],
            ) by {
                if k < pa.len() {
                    assert(read_paths(e, t)[k] == pa[k]);
                    assert(mentions(*a, pa[k]));
                } else {
                    assert(read_paths(e, t)[k] == pb[k - pa.len()]);
                    assert(mentions(*b, pb[k - pa.len()]));
                }
            }
        },
        ExprView::Or(a, b) => {
            let na = eval_seq(*a, t).1 as int;
            lemma_read_paths_are_named(*a, t);
            lemma_read_paths_are_named(*b, t.skip(na));
            let pa = read_paths(*a, t);
            let pb = read_paths(*b, t.skip(na));
            assert forall|k: int| 0 <= k < read_paths(e, t).len() implies #[trigger] mentions(
                e,
                read_paths(e, t)[k],
            ) by {
                if k < pa.len() {
                    assert(read_paths(e, t)[k] == pa[k]);
                    assert(mentions(*a, pa[k]));
                } else {
                    assert(read_paths(e, t)[k] == pb[k - pa.len()]);
                    assert(mentions(*b, pb[k - pa.len()]));
                }
            }
        },
        ExprView::Not(a) => {
            lemma_read_paths_are_named(*a, t);
            assert(read_paths(e, t) == read_paths(*a, t));
            assert forall|k: int| 0 <= k < read_paths(e, t).len() implies #[trigger] mentions(
                e,
                read_paths(e, t)[k],
            ) by {
                assert(mentions(*a, read_paths(*a, t)[k]));
            }
        },
        ExprView::Compare { left, operator, right } => {
            assert forall|k: int| 0 <= k < read_paths(e, t).len() implies #[trigger] mentions(
                e,
                read_paths(e, t)[k],
            ) by {
                let pl = crate::eval::operand_paths(left);
                let pr = crate::eval::operand_paths(right);
                if k < pl.len() {
                    assert(read_paths(e, t)[k] == pl[k]);
                    if let OperandView::Path(p) = left {
                        assert(pl[k] == p);
                    }
                } else {
                    assert(read_paths(e, t)[k] == pr[k - pl.len()]);
                    if let OperandView::Path(q) = right {
                        assert(pr[k - pl.len()] == q);
                    }
                }
            }
        },
        ExprView::Exists(p) => {
            assert(read_paths(e, t) == seq![p]);
        },
        ExprView::StartsWith { path, text } => {
            assert(read_paths(e, t) == seq![path]);
        },
        ExprView::Contains { path, text } => {
            assert(read_paths(e, t) == seq![path]);
        },
    }
}

/// The reader is asked only for paths that the predicate names, and no
/// more often than the predicate has path operands.
pub proof fn law_only_named_paths_are_read<R: StructureReader>(
    reader: &R,
    e: ExprView,
    t: Seq<Answer>,
    o: Result<bool, Seq<char>>,
)
    requires
        is_run(reader, e, t, o),
    ensures
        forall|k: int| 0 <= k < t.len() ==> #[trigger] mentions(e, read_paths(e, t)[k]),
        t.len() <= path_count(e),
{
    lemma_read_paths_are_named(e, t);
    law_at_most_one_read_per_path_operand(e, t);
}

/// A failure that the engine writes itself: two present values whose kinds
/// do not compare, or a text function that finds something other than text.
pub open spec fn engine_failure(m: Seq<char>) -> bool {
    ||| exists|x: Seq<char>| m == #[trigger] predicate_message(x + ": not comparable"@)
    ||| exists|x: Seq<char>| m == #[trigger] predicate_message(x + "() needs Text"@)
}

/// Whether one of the first `n` answers of `t` is the failure `m`.
pub open spec fn answered_failure(t: Seq<Answer>, n: int, m: Seq<char>) -> bool {
    exists|k: int| 0 <= k < n && #[trigger] t[k] == Err::<Option<ValueView>, Seq<char>>(m)
}

proof fn lemma_failure_origin(e: ExprView, t: Seq<Answer>)
    requires
        eval_seq(e, t).1 <= t.len(),
    ensures
        eval_seq(e, t).0 matches Err(m) ==> engine_failure(m) || answered_failure(
            t,
            eval_seq(e, t).1 as int,
            m,
        ),
    decreases e,
{
    match e {
        ExprView::Compare { left, operator, right } => {
            let (l, n1) = resolve_seq(left, t);
            match l {
                Err(m) => {
                    assert(t[0] == Err::<Option<ValueView>, Seq<char>>(m));
                },
                Ok(lv) => {
                    let (r, n2) = resolve_seq(right, t.skip(n1 as int));
                    match r {
                        Err(m) => {
                            assert(right is Path);
                            assert(t.skip(n1 as int)[0] == t[n1 as int]);
                            assert(t[n1 as int] == Err::<Option<ValueView>, Seq<char>>(m));
                        },
                        Ok(rv) => {
                            if let Err(m) = compare_spec(left, lv, operator, right, rv) {
                                let x = crate::eval::describe(left) + " is "@ + kind_name(lv)
                                    + " and "@ + crate::eval::describe(right) + " is "@
                                    + kind_name(rv);
                                assert(m == predicate_message(x + ": not comparable"@));
                            }
                        },
                    }
                },
            }
        },
        ExprView::Exists(_) => {
            if let Err(m) = t[0] {
                assert(t[0] == Err::<Option<ValueView>, Seq<char>>(m));
            }
        },
        ExprView::StartsWith { path, text } => {
            lemma_text_failure_origin(path, "starts-with"@, t[0]);
        },
        ExprView::Contains { path, text } => {
            lemma_text_failure_origin(path, "contains"@, t[0]);
        },
        ExprView::And(a, b) | ExprView::Or(a, b) => {
            let (ra, na) = eval_seq(*a, t);
            lemma_failure_origin(*a, t);
            let tb = t.skip(na as int);
            if ra == Ok::<bool, Seq<char>>(e is And) {
                lemma_failure_origin(*b, tb);
            }
            if let Err(m) = eval_seq(e, t).0 {
                if ra is Err {
                    if answered_failure(t, na as int, m) {
                        let k = choose|k: int|
                            0 <= k < na && #[trigger] t[k] == Err::<Option<ValueView>, Seq<char>>(
                                m,
                            );
                        assert(t[k] == Err::<Option<ValueView>, Seq<char>>(m));
                    }
                } else if answered_failure(tb, eval_seq(*b, tb).1 as int, m) {
                    let k = choose|k: int|
                        0 <= k < eval_seq(*b, tb).1 && #[trigger] tb[k] == Err::<
                            Option<ValueView>,
                            Seq<char>,
                        >(m);
                    assert(tb[k] == t[na + k]);
                    assert(t[na + k] == Err::<Option<ValueView>, Seq<char>>(m));
                }
            }
        },
        ExprView::Not(a) => {
            lemma_failure_origin(*a, t);
        },
    }
}

proof fn lemma_text_failure_origin(path: Seq<char>, function: Seq<char>, a: Answer)
    ensures
        text_answer(path, function, a) matches Err(m) ==> engine_failure(m) || a == Err::<
            Option<ValueView>,
            Seq<char>,
        >(m),
{
    if let Ok(Some(other)) = a {
        if !(other is Null) && !(other is Text) {
            let x = "'"@ + path + "' is "@ + kind_name(other) + "; "@ + function;
            assert(text_answer(path, function, a) == Err::<Option<Seq<char>>, Seq<char>>(
                predicate_message(x + "() needs Text"@),
            ));
        }
    }
}

/// An evaluation fails only with a failure that the reader answered for one
/// of the paths it was asked for, or with one that the engine writes itself
/// for two kinds that do not compare or for a text function that finds no
/// text.
pub proof fn law_a_failure_is_a_read_or_the_engine<R: StructureReader>(
    reader: &R,
    e: ExprView,
    t: Seq<Answer>,
    m: Seq<char>,
)
    requires
        is_run(reader, e, t, Err(m)),
    ensures
        engine_failure(m) || exists|k: int|
            0 <= k < t.len() && #[trigger] t[k] == Err::<Option<ValueView>, Seq<char>>(m)
                && reader.answers(read_paths(e, t)[k], t[k]),
{
    lemma_failure_origin(e, t);
    if !engine_failure(m) {
        let k = choose|k: int|
            0 <= k < t.len() && #[trigger] t[k] == Err::<Option<ValueView>, Seq<char>>(m);
        assert(reader.answers(read_paths(e, t)[k], t[k]));
    }
}

/// What `reader` may resolve the operand `o` to: a literal to its value, a
/// path to what an answer that the reader may give for it holds, null for
/// nothing there.
pub open spec fn resolves<R: StructureReader>(
    reader: &R,
    o: OperandView,
    v: Result<ValueView, Seq<char>>,
) -> bool {
    match o {
        OperandView::Literal(x) => v == Ok::<ValueView, Seq<char>>(x),
        OperandView::Path(p) => exists|a: Answer|
            #[trigger] reader.answers(p, a) && resolve_answer(a) == v,
    }
}

/// The outcome of `left operator right` when its sides resolve to `l` and
/// `r`: a failed side fails it, the left one first.
pub open spec fn compare_outcome(
    left: OperandView,
    l: Result<ValueView, Seq<char>>,
    operator: Operator,
    right: OperandView,
    r: Result<ValueView, Seq<char>>,
) -> Result<bool, Seq<char>> {
    match l {
        Err(m) => Err(m),
        Ok(lv) => match r {
            Err(m) => Err(m),
            Ok(rv) => compare_spec(left, lv, operator, right, rv),
        },
    }
}

proof fn lemma_resolves_uniquely<R: StructureReader>(
    reader: &R,
    o: OperandView,
    v1: Result<ValueView, Seq<char>>,
    v2: Result<ValueView, Seq<char>>,
)
    requires
        answers_uniquely(reader),
        resolves(reader, o, v1),
        resolves(reader, o, v2),
    ensures
        v1 == v2,
{
    if let OperandView::Path(p) = o {
        let a1 = choose|a: Answer| #[trigger] reader.answers(p, a) && resolve_answer(a) == v1;
        let a2 = choose|a: Answer| #[trigger] reader.answers(p, a) && resolve_answer(a) == v2;
        assert(reader.answers(p, a1) && reader.answers(p, a2));
    }
}

/// A run of a comparison: its sides resolve as the reader may resolve them,
/// the right one read only when the left one did not fail.
proof fn lemma_compare_run<R: StructureReader>(
    reader: &R,
    left: OperandView,
    operator: Operator,
    right: OperandView,
    t: Seq<Answer>,
    o: Result<bool, Seq<char>>,
) -> (r: (Result<ValueView, Seq<char>>, Result<ValueView, Seq<char>>))
    requires
        is_run(reader, ExprView::Compare { left, operator, right }, t, o),
    ensures
        resolves(reader, left, r.0),
        r.0 is Ok ==> resolves(reader, right, r.1),
        o == compare_outcome(left, r.0, operator, right, r.1),
{
    let e = ExprView::Compare { left, operator, right };
    let (l, n1) = resolve_seq(left, t);
    lemma_read_paths_len(e, t);
    if let OperandView::Path(p) = left {
        assert(read_paths(e, t)[0] == p);
        assert(reader.answers(p, t[0]));
        assert(resolve_answer(t[0]) == l);
    }
    if l is Ok {
        let (rr, n2) = resolve_seq(right, t.skip(n1 as int));
        if let OperandView::Path(q) = right {
            assert(read_paths(e, t)[n1 as int] == q);
            assert(reader.answers(q, t[n1 as int]));
            assert(t.skip(n1 as int)[0] == t[n1 as int]);
            assert(resolve_answer(t[n1 as int]) == rr);
        }
        (l, rr)
    } else {
        (l, l)
    }
}

/// Two runs of comparisons with the same sides, over a reader that answers
/// each path one way only, resolve their sides alike.
proof fn lemma_same_sides<R: StructureReader>(
    reader: &R,
    left: OperandView,
    op1: Operator,
    op2: Operator,
    right: OperandView,
    t1: Seq<Answer>,
    o1: Result<bool, Seq<char>>,
    t2: Seq<Answer>,
    o2: Result<bool, Seq<char>>,
) -> (r: (Result<ValueView, Seq<char>>, Result<ValueView, Seq<char>>))
    requires
        answers_uniquely(reader),
        is_run(reader, ExprView::Compare { left, operator: op1, right }, t1, o1),
        is_run(reader, ExprView::Compare { left, operator: op2, right }, t2, o2),
    ensures
        resolves(reader, left, r.0),
        r.0 is Ok ==> resolves(reader, right, r.1),
        o1 == compare_outcome(left, r.0, op1, right, r.1),
        o2 == compare_outcome(left, r.0, op2, right, r.1),
{
    let (l1, r1) = lemma_compare_run(reader, left, op1, right, t1, o1);
    let (l2, r2) = lemma_compare_run(reader, left, op2, right, t2, o2);
    lemma_resolves_uniquely(reader, left, l1, l2);
    if l1 is Ok {
        lemma_resolves_uniquely(reader, right, r1, r2);
    }
    (l1, r1)
}

/// Over a reader that answers each path one way only, `!=` ends as `=`
/// does with the truth turned over.
pub proof fn law_not_equal_negates_equal_over_one_reader<R: StructureReader>(
    reader: &R,
    left: OperandView,
    right: OperandView,
    t1: Seq<Answer>,
    o1: Result<bool, Seq<char>>,
    t2: Seq<Answer>,
    o2: Result<bool, Seq<char>>,
)
    requires
        answers_uniquely(reader),
        is_run(reader, ExprView::Compare { left, operator: Operator::NotEqual, right }, t1, o1),
        is_run(reader, ExprView::Compare { left, operator: Operator::Equal, right }, t2, o2),
    ensures
        o1 == negated(o2),
{
    let (l, r) = lemma_same_sides(
        reader,
        left,
        Operator::NotEqual,
        Operator::Equal,
        right,
        t1,
        o1,
        t2,
        o2,
    );
    if let (Ok(lv), Ok(rv)) = (l, r) {
        law_not_equal_negates_equal(left, lv, right, rv);
    }
}

/// `a` and `b` are orderings that complement each other: `<` and `>=`, or
/// `>` and `<=`.
pub open spec fn complementary(a: Operator, b: Operator) -> bool {
    ||| a == Operator::Less && b == Operator::GreaterOrEqual
    ||| a == Operator::Greater && b == Operator::LessOrEqual
}

/// Over a reader that answers each path one way only, and where neither
/// side resolves to null, `<` ends as `>=` does with the truth turned over,
/// and `>` as `<=` does.
pub proof fn law_orderings_complement_over_one_reader<R: StructureReader>(
    reader: &R,
    left: OperandView,
    op1: Operator,
    op2: Operator,
    right: OperandView,
    t1: Seq<Answer>,
    o1: Result<bool, Seq<char>>,
    t2: Seq<Answer>,
    o2: Result<bool, Seq<char>>,
)
    requires
        answers_uniquely(reader),
        complementary(op1, op2),
        !resolves(reader, left, Ok(ValueView::Null)),
        !resolves(reader, right, Ok(ValueView::Null)),
        is_run(reader, ExprView::Compare { left, operator: op1, right }, t1, o1),
        is_run(reader, ExprView::Compare { left, operator: op2, right }, t2, o2),
    ensures
        o1 == negated(o2),
{
    let (l, r) = lemma_same_sides(reader, left, op1, op2, right, t1, o1, t2, o2);
    if let (Ok(lv), Ok(rv)) = (l, r) {
        law_orderings_complement(left, lv, right, rv);
    }
}

/// `<` for `>`, `<=` for `>=`, and `=` and `!=` as they are.
pub open spec fn exchanged(operator: Operator) -> Operator {
    match operator {
        Operator::Less => Operator::Greater,
        Operator::Greater => Operator::Less,
        Operator::LessOrEqual => Operator::GreaterOrEqual,
        Operator::GreaterOrEqual => Operator::LessOrEqual,
        Operator::Equal => Operator::Equal,
        Operator::NotEqual => Operator::NotEqual,
    }
}

/// Over a reader that answers each path one way only, exchanging the sides
/// of a comparison and its direction changes neither whether it holds nor
/// whether it fails; a failure may be another, since the sides are read in
/// the other order.
pub proof fn law_exchanging_the_sides_over_one_reader<R: StructureReader>(
    reader: &R,
    left: OperandView,
    operator: Operator,
    right: OperandView,
    t1: Seq<Answer>,
    o1: Result<bool, Seq<char>>,
    t2: Seq<Answer>,
    o2: Result<bool, Seq<char>>,
)
    requires
        answers_uniquely(reader),
        is_run(reader, ExprView::Compare { left, operator, right }, t1, o1),
        is_run(
            reader,
            ExprView::Compare { left: right, operator: exchanged(operator), right: left },
            t2,
            o2,
        ),
    ensures
        truth_of(o1) == truth_of(o2),
{
    let (l1, r1) = lemma_compare_run(reader, left, operator, right, t1, o1);
    let (l2, r2) = lemma_compare_run(reader, right, exchanged(operator), left, t2, o2);
    if l1 is Ok && l2 is Ok {
        lemma_resolves_uniquely(reader, left, l1, r2);
        lemma_resolves_uniquely(reader, right, r1, l2);
        if let (Ok(lv), Ok(rv)) = (l1, r1) {
            law_exchanging_the_sides(left, lv, right, rv);
            law_exchanging_the_sides(right, rv, left, lv);
        }
    } else if l1 is Ok {
        lemma_resolves_uniquely(reader, right, r1, l2);
    } else if l2 is Ok {
        lemma_resolves_uniquely(reader, left, l1, r2);
    }
}

// ---------------------------------------------------------------------------
// What each operation is for.

/// The operand that a token writes, read off the token: a path as it is
/// quoted, a text, an integer, a decimal, or one of the words `true`,
/// `false`, `null`.
pub open spec fn operand_written(t: TokenView) -> Option<OperandView> {
    match t {
        TokenView::Path(p) => Some(OperandView::Path(p)),
        TokenView::Text(x) => Some(OperandView::Literal(ValueView::Text(x))),
        TokenView::Integer(n) => Some(OperandView::Literal(ValueView::Integer(n))),
        TokenView::Decimal(d) => Some(OperandView::Literal(ValueView::Decimal(d))),
        TokenView::Word(w) => if w == "true"@ {
            Some(OperandView::Literal(ValueView::Bool(true)))
        } else if w == "false"@ {
            Some(OperandView::Literal(ValueView::Bool(false)))
        } else if w == "null"@ {
            Some(OperandView::Literal(ValueView::Null))
        } else {
            None
        },
        _ => None,
    }
}

/// The comparison that a sign writes: `=`, `!=`, `<`, `<=`, `>`, `>=`.
pub open spec fn operator_written(t: TokenView) -> Option<Operator> {
    match t {
        TokenView::Equal => Some(Operator::Equal),
        TokenView::NotEqual => Some(Operator::NotEqual),
        TokenView::Less => Some(Operator::Less),
        TokenView::LessOrEqual => Some(Operator::LessOrEqual),
        TokenView::Greater => Some(Operator::Greater),
        TokenView::GreaterOrEqual => Some(Operator::GreaterOrEqual),
        _ => None,
    }
}

/// A comparison keeps its sides where they were written: wherever an
/// operand, a comparison sign and an operand stand, they parse as the
/// comparison of the first operand, by that sign, with the second, whatever
/// kinds the operands are; and three such tokens alone are that predicate.
pub proof fn law_a_comparison_keeps_its_sides(ts: Seq<TokenView>, at: int)
    requires
        0 <= at,
        at + 3 <= ts.len(),
        operand_written(ts[at]) is Some,
        operator_written(ts[at + 1]) is Some,
        operand_written(ts[at + 2]) is Some,
    ensures
        parse_comparison(ts, at) == Ok::<(ExprView, int), Seq<char>>(
            (
                ExprView::Compare {
                    left: operand_written(ts[at])->Some_0,
                    operator: operator_written(ts[at + 1])->Some_0,
                    right: operand_written(ts[at + 2])->Some_0,
                },
                at + 3,
            ),
        ),
        ts.len() == 3 ==> parse_tokens(ts) == Ok::<ExprView, Seq<char>>(
            ExprView::Compare {
                left: operand_written(ts[0])->Some_0,
                operator: operator_written(ts[1])->Some_0,
                right: operand_written(ts[2])->Some_0,
            },
        ),
{
    assert(token_at(ts, at) == Some(ts[at]));
    assert(token_at(ts, at + 1) == Some(ts[at + 1]));
    assert(token_at(ts, at + 2) == Some(ts[at + 2]));
    if ts.len() == 3 {
        lemma_words_differ();
        reveal_strlit("not");
        reveal_strlit("true");
        reveal_strlit("false");
        reveal_strlit("null");
        let e = ExprView::Compare {
            left: operand_written(ts[0])->Some_0,
            operator: operator_written(ts[1])->Some_0,
            right: operand_written(ts[2])->Some_0,
        };
        assert(ts[0] != TokenView::OpenParen);
        if let TokenView::Word(w) = ts[0] {
            assert(w != "not"@) by {
                if w == "true"@ {
                    assert(w[0] != "not"@[0]);
                } else if w == "false"@ {
                    assert(w[0] != "not"@[0]);
                } else {
                    assert(w[1] != "not"@[1]);
                }
            }
        }
        assert(token_at(ts, 1) != Some(TokenView::OpenParen));
        assert(parse_primary(ts, 0) == parse_comparison(ts, 0));
        assert(parse_negation(ts, 0) == Ok::<(ExprView, int), Seq<char>>((e, 3)));
        assert(conjunction_rest(ts, e, 3) == Ok::<(ExprView, int), Seq<char>>((e, 3)));
        assert(parse_conjunction(ts, 0) == Ok::<(ExprView, int), Seq<char>>((e, 3)));
        assert(disjunction_rest(ts, e, 3) == Ok::<(ExprView, int), Seq<char>>((e, 3)));
        assert(parse_disjunction(ts, 0) == Ok::<(ExprView, int), Seq<char>>((e, 3)));
    }
}

proof fn lemma_text_first_difference(p: Seq<char>, c: char, u: Seq<char>, d: char, v: Seq<char>)
    requires
        c < d,
    ensures
        char_seq_order(p + seq![c] + u, p + seq![d] + v) == Order::Less,
    decreases p.len(),
{
    let a = p + seq![c] + u;
    let b = p + seq![d] + v;
    if p.len() == 0 {
        assert(a[0] == c);
        assert(b[0] == d);
    } else {
        assert(a[0] == p[0]);
        assert(b[0] == p[0]);
        assert(a.drop_first() =~= p.drop_first() + seq![c] + u);
        assert(b.drop_first() =~= p.drop_first() + seq![d] + v);
        lemma_text_first_difference(p.drop_first(), c, u, d, v);
    }
}

proof fn lemma_text_prefix(p: Seq<char>, x: Seq<char>)
    requires
        x.len() > 0,
    ensures
        char_seq_order(p, p + x) == Order::Less,
        char_seq_order(p, p) == Order::Equal,
    decreases p.len(),
{
    if p.len() > 0 {
        assert((p + x)[0] == p[0]);
        assert((p + x).drop_first() =~= p.drop_first() + x);
        lemma_text_prefix(p.drop_first(), x);
    } else {
        assert(p + x =~= x);
    }
}

proof fn lemma_text_equal_only_when_same(a: Seq<char>, b: Seq<char>)
    ensures
        char_seq_order(a, b) == Order::Equal <==> a == b,
    decreases a.len(),
{
    if a.len() > 0 && b.len() > 0 && a[0] == b[0] {
        lemma_text_equal_only_when_same(a.drop_first(), b.drop_first());
        if a.drop_first() == b.drop_first() {
            assert(a =~= seq![a[0]] + a.drop_first());
            assert(b =~= seq![b[0]] + b.drop_first());
        }
        if a == b {
            assert(a.drop_first() =~= b.drop_first());
        }
    } else if a.len() == 0 && b.len() == 0 {
        assert(a =~= b);
    } else if a.len() > 0 && b.len() > 0 {
        assert(a[0] != b[0]);
    }
}

/// Text compares lexically: the first character where two texts differ
/// decides, the smaller character first; a text comes before any longer
/// text that begins with it; and two texts are equal in order only when
/// they are the same text.
pub proof fn law_text_compares_lexically(
    p: Seq<char>,
    c: char,
    u: Seq<char>,
    d: char,
    v: Seq<char>,
    a: Seq<char>,
    b: Seq<char>,
)
    requires
        c < d,
    ensures
        value_order(ValueView::Text(p + seq![c] + u), ValueView::Text(p + seq![d] + v))
            == Some(Order::Less),
        value_order(ValueView::Text(p + seq![d] + v), ValueView::Text(p + seq![c] + u))
            == Some(Order::Greater),
        value_order(ValueView::Text(p), ValueView::Text(p + seq![c] + u)) == Some(Order::Less),
        value_order(ValueView::Text(p + seq![c] + u), ValueView::Text(p)) == Some(Order::Greater),
        (value_order(ValueView::Text(a), ValueView::Text(b)) == Some(Order::Equal)) <==> a == b,
{
    lemma_text_first_difference(p, c, u, d, v);
    lemma_char_seq_order_reverses(p + seq![c] + u, p + seq![d] + v);
    assert(p + seq![c] + u =~= p + (seq![c] + u));
    lemma_text_prefix(p, seq![c] + u);
    lemma_char_seq_order_reverses(p, p + seq![c] + u);
    lemma_text_equal_only_when_same(a, b);
}

proof fn lemma_bytes_first_difference(p: Seq<u8>, c: u8, u: Seq<u8>, d: u8, v: Seq<u8>)
    requires
        c < d,
    ensures
        byte_seq_order(p + seq![c] + u, p + seq![d] + v) == Order::Less,
    decreases p.len(),
{
    let a = p + seq![c] + u;
    let b = p + seq![d] + v;
    if p.len() == 0 {
        assert(a[0] == c);
        assert(b[0] == d);
    } else {
        assert(a[0] == p[0]);
        assert(b[0] == p[0]);
        assert(a.drop_first() =~= p.drop_first() + seq![c] + u);
        assert(b.drop_first() =~= p.drop_first() + seq![d] + v);
        lemma_bytes_first_difference(p.drop_first(), c, u, d, v);
    }
}

proof fn lemma_bytes_prefix(p: Seq<u8>, x: Seq<u8>)
    requires
        x.len() > 0,
    ensures
        byte_seq_order(p, p + x) == Order::Less,
    decreases p.len(),
{
    if p.len() > 0 {
        assert((p + x)[0] == p[0]);
        assert((p + x).drop_first() =~= p.drop_first() + x);
        lemma_bytes_prefix(p.drop_first(), x);
    } else {
        assert(p + x =~= x);
    }
}

/// Bytes compare lexically too: the first byte where two byte strings
/// differ decides, and a byte string comes before any longer one that
/// begins with it.
pub proof fn law_bytes_compare_lexically(p: Seq<u8>, c: u8, u: Seq<u8>, d: u8, v: Seq<u8>)
    requires
        c < d,
    ensures
        value_order(ValueView::Binary(p + seq![c] + u), ValueView::Binary(p + seq![d] + v))
            == Some(Order::Less),
        value_order(ValueView::Binary(p), ValueView::Binary(p + seq![c] + u)) == Some(
            Order::Less,
        ),
{
    lemma_bytes_first_difference(p, c, u, d, v);
    assert(p + seq![c] + u =~= p + (seq![c] + u));
    lemma_bytes_prefix(p, seq![c] + u);
}

/// Booleans order with `false` first: two booleans are equal in order
/// only when they are the same, and `false` comes before `true`.
pub proof fn law_false_comes_before_true(x: bool, y: bool)
    ensures
        value_order(ValueView::Bool(x), ValueView::Bool(y)) == Some(
            if x == y {
                Order::Equal
            } else if !x {
                Order::Less
            } else {
                Order::Greater
            },
        ),
{
}

/// What an integer comparison says, by the integers' own order.
pub open spec fn integers_compare(operator: Operator, x: int, y: int) -> bool {
    match operator {
        Operator::Equal => x == y,
        Operator::NotEqual => x != y,
        Operator::Less => x < y,
        Operator::LessOrEqual => x <= y,
        Operator::Greater => x > y,
        Operator::GreaterOrEqual => x >= y,
    }
}

/// Between two integers each comparison sign means what it means of
/// integers.
pub proof fn law_integers_compare_as_integers(
    left: OperandView,
    x: int,
    operator: Operator,
    right: OperandView,
    y: int,
)
    ensures
        compare_spec(left, ValueView::Integer(x), operator, right, ValueView::Integer(y)) == Ok::<
            bool,
            Seq<char>,
        >(integers_compare(operator, x, y)),
{
}

/// `starts-with` over a text answer is exactly the prefix test: it holds
/// when the text looked for is no longer than the text found and the text
/// found begins with it; it takes that one answer.
pub proof fn law_starts_with_tests_the_beginning(
    p: Seq<char>,
    t: Seq<char>,
    f: Seq<char>,
    rest: Seq<Answer>,
)
    ensures
        eval_seq(
            ExprView::StartsWith { path: p, text: t },
            seq![Ok::<Option<ValueView>, Seq<char>>(Some(ValueView::Text(f)))] + rest,
        ) == (Ok::<bool, Seq<char>>(t.len() <= f.len() && f.take(t.len() as int) == t), 1nat),
        t.len() > f.len() ==> eval_seq(
            ExprView::StartsWith { path: p, text: t },
            seq![Ok::<Option<ValueView>, Seq<char>>(Some(ValueView::Text(f)))] + rest,
        ).0 == Ok::<bool, Seq<char>>(false),
        eval_seq(
            ExprView::StartsWith { path: p, text: t },
            seq![Ok::<Option<ValueView>, Seq<char>>(Some(ValueView::Text(t + f)))] + rest,
        ).0 == Ok::<bool, Seq<char>>(true),
{
    let a = Ok::<Option<ValueView>, Seq<char>>(Some(ValueView::Text(f)));
    assert((seq![a] + rest)[0] == a);
    let a2 = Ok::<Option<ValueView>, Seq<char>>(Some(ValueView::Text(t + f)));
    assert((seq![a2] + rest)[0] == a2);
    assert((t + f).take(t.len() as int) =~= t);
}

/// `contains` over a text answer is exactly the test for the text looked
/// for standing somewhere in the text found; it takes that one answer, and
/// it never holds of a text longer than what was found.
pub proof fn law_contains_tests_for_a_part(
    p: Seq<char>,
    t: Seq<char>,
    f: Seq<char>,
    rest: Seq<Answer>,
)
    ensures
        eval_seq(
            ExprView::Contains { path: p, text: t },
            seq![Ok::<Option<ValueView>, Seq<char>>(Some(ValueView::Text(f)))] + rest,
        ) == (Ok::<bool, Seq<char>>(
            exists|k: int|
                0 <= k && k + t.len() <= f.len() && #[trigger] f.subrange(k, k + t.len()) == t,
        ), 1nat),
        t.len() > f.len() ==> eval_seq(
            ExprView::Contains { path: p, text: t },
            seq![Ok::<Option<ValueView>, Seq<char>>(Some(ValueView::Text(f)))] + rest,
        ).0 == Ok::<bool, Seq<char>>(false),
{
    let a = Ok::<Option<ValueView>, Seq<char>>(Some(ValueView::Text(f)));
    assert((seq![a] + rest)[0] == a);
}

// ---------------------------------------------------------------------------
// Failures.

/// A message that the engine itself wrote: it starts with `predicate: `.
pub open spec fn names_the_predicate(m: Seq<char>) -> bool {
    exists|x: Seq<char>| m == #[trigger] predicate_message(x)
}

/// Whether a failed parse names the predicate.
pub open spec fn failure_names_the_predicate<T>(r: Result<T, Seq<char>>) -> bool {
    r matches Err(m) ==> names_the_predicate(m)
}

proof fn lemma_lex_failures(s: Seq<char>, i: int)
    ensures
        failure_names_the_predicate(lex_from(s, i)),
    decreases s.len() - i,
{
    if 0 <= i < s.len() {
        match lex_step(s, i) {
            LexStep::Skip(n) => {
                if 0 < n && i + n <= s.len() {
                    lemma_lex_failures(s, i + n);
                }
            },
            LexStep::Emit(_, n) => {
                if 0 < n && i + n <= s.len() {
                    lemma_lex_failures(s, i + n);
                }
            },
            LexStep::Fail(m) => {
                let c = s[i];
                if c == '\'' || c == '"' {
                    let x = "unterminated string in "@ + str_debug(s.skip(i));
                    assert(predicate_message(x) == unterminated_message(s.skip(i)));
                }
                if is_digit_char(c) || (c == '-' && i + 1 < s.len() && is_digit_char(s[i + 1])) {
                    let e = trim_points(s, i, number_end(s, i + 1));
                    let digits = s.subrange(i, e);
                    let x = str_debug(digits) + " is not a number"@;
                    assert(predicate_message(x) == not_a_number_message(digits));
                }
                let x = "unexpected "@ + char_debug(s[i]) + " at "@ + nat_text(
                    utf8_length(s.take(i)),
                ) + " in "@ + str_debug(s);
                assert(predicate_message(x) == unexpected_message(s, i));
            },
        }
    }
}

proof fn lemma_operand_failures(ts: Seq<TokenView>, at: int)
    ensures
        failure_names_the_predicate(parse_operand(ts, at)),
{
    let x = "expected a 'path' or a literal, found "@ + option_token_debug(token_at(ts, at));
    assert(names_the_predicate(predicate_message(x)));
}

proof fn lemma_comparison_failures(ts: Seq<TokenView>, at: int)
    ensures
        failure_names_the_predicate(parse_comparison(ts, at)),
{
    lemma_operand_failures(ts, at);
    if let Ok((_, p)) = parse_operand(ts, at) {
        lemma_operand_failures(ts, p + 1);
        let x = "expected a comparison, found "@ + option_token_debug(token_at(ts, p));
        assert(names_the_predicate(predicate_message(x)));
    }
}

proof fn lemma_call_failures(ts: Seq<TokenView>, at: int, name: Seq<char>)
    ensures
        failure_names_the_predicate(parse_call(ts, at, name)),
{
    let x1 = "expected a 'path', found "@ + option_token_debug(token_at(ts, at));
    assert(path_message(token_at(ts, at)) == predicate_message(x1));
    let x2 = "expected "@ + token_debug(TokenView::Comma) + ", found "@ + option_token_debug(
        token_at(ts, at + 1),
    );
    assert(expected_message(TokenView::Comma, token_at(ts, at + 1)) == predicate_message(x2));
    let x3 = name + "() needs a \"text\", found "@ + option_token_debug(token_at(ts, at + 2));
    assert(names_the_predicate(predicate_message(x3)));
    let x4 = name + "() is not a function a predicate has"@;
    assert(names_the_predicate(predicate_message(x4)));
}

proof fn lemma_close_paren_failures(ts: Seq<TokenView>, inner: ExprView, p: int)
    ensures
        failure_names_the_predicate(close_paren(ts, inner, p)),
{
    let x = "expected "@ + token_debug(TokenView::CloseParen) + ", found "@ + option_token_debug(
        token_at(ts, p),
    );
    assert(expected_message(TokenView::CloseParen, token_at(ts, p)) == predicate_message(x));
}

proof fn lemma_primary_failures(ts: Seq<TokenView>, at: int)
    ensures
        failure_names_the_predicate(parse_primary(ts, at)),
    decreases remaining(ts, at), 0nat,
{
    match token_at(ts, at) {
        Some(TokenView::OpenParen) => {
            lemma_disjunction_failures(ts, at + 1);
            if let Ok((inner, p)) = parse_disjunction(ts, at + 1) {
                lemma_close_paren_failures(ts, inner, p);
            }
        },
        Some(TokenView::Word(name)) => {
            if token_at(ts, at + 1) == Some(TokenView::OpenParen) {
                lemma_call_failures(ts, at + 2, name);
                if let Ok((call, p)) = parse_call(ts, at + 2, name) {
                    lemma_close_paren_failures(ts, call, p);
                }
            } else {
                lemma_comparison_failures(ts, at);
            }
        },
        _ => {
            lemma_comparison_failures(ts, at);
        },
    }
}

proof fn lemma_negation_failures(ts: Seq<TokenView>, at: int)
    ensures
        failure_names_the_predicate(parse_negation(ts, at)),
    decreases remaining(ts, at), 1nat,
{
    if is_word_at(ts, at, "not"@) {
        lemma_negation_failures(ts, at + 1);
    } else {
        lemma_primary_failures(ts, at);
    }
}

proof fn lemma_conjunction_rest_failures(ts: Seq<TokenView>, left: ExprView, p: int)
    ensures
        failure_names_the_predicate(conjunction_rest(ts, left, p)),
    decreases remaining(ts, p), 0nat,
{
    if is_word_at(ts, p, "and"@) {
        lemma_negation_failures(ts, p + 1);
        if let Ok((right, q)) = parse_negation(ts, p + 1) {
            if p < q <= ts.len() {
                lemma_conjunction_rest_failures(
                    ts,
                    ExprView::And(Box::new(left), Box::new(right)),
                    q,
                );
            }
        }
    }
}

proof fn lemma_conjunction_failures(ts: Seq<TokenView>, at: int)
    ensures
        failure_names_the_predicate(parse_conjunction(ts, at)),
    decreases remaining(ts, at), 2nat,
{
    lemma_negation_failures(ts, at);
    if let Ok((left, p)) = parse_negation(ts, at) {
        if 0 <= at < p <= ts.len() {
            lemma_conjunction_rest_failures(ts, left, p);
        }
    }
}

proof fn lemma_disjunction_rest_failures(ts: Seq<TokenView>, left: ExprView, p: int)
    ensures
        failure_names_the_predicate(disjunction_rest(ts, left, p)),
    decreases remaining(ts, p), 0nat,
{
    if is_word_at(ts, p, "or"@) {
        lemma_conjunction_failures(ts, p + 1);
        if let Ok((right, q)) = parse_conjunction(ts, p + 1) {
            if p < q <= ts.len() {
                lemma_disjunction_rest_failures(
                    ts,
                    ExprView::Or(Box::new(left), Box::new(right)),
                    q,
                );
            }
        }
    }
}

proof fn lemma_disjunction_failures(ts: Seq<TokenView>, at: int)
    ensures
        failure_names_the_predicate(parse_disjunction(ts, at)),
    decreases remaining(ts, at), 3nat,
{
    lemma_conjunction_failures(ts, at);
    if let Ok((left, p)) = parse_conjunction(ts, at) {
        if 0 <= at < p <= ts.len() {
            lemma_disjunction_rest_failures(ts, left, p);
        }
    }
}

/// Every failure to lex or to parse a predicate is the engine's own, and
/// its message starts `predicate: `. (A reader's failure, which evaluation
/// passes on as it is, is not.)
pub proof fn law_lex_and_parse_failures_name_the_predicate(s: Seq<char>)
    ensures
        failure_names_the_predicate(parse_predicate(s)),
{
    lemma_lex_failures(s, 0);
    if let Ok(ts) = lex(s) {
        lemma_disjunction_failures(ts, 0);
        if let Ok((e, p)) = parse_disjunction(ts, 0) {
            let x = "unexpected "@ + token_debug(ts[p]) + " after the predicate"@;
            assert(names_the_predicate(predicate_message(x)));
        }
    }
}

} // verus!
