//! The tokens of a predicate.
//!
//! Two kinds of quote, because a predicate holds two kinds of string: a path
//! in single quotes, which the reader it is handed to will interpret, and a
//! text literal in double quotes, which the predicate compares with. Keeping
//! them apart at the lexer means `'/name' = "name"` can never be misread.
//! Bare words are keywords and function names; the parser sorts them.

use vstd::prelude::*;

use crate::decimal::{
    decimal_debug_text, decimal_syntax, digit_value, digit_values, digits_value, is_digit_run,
    starts_negative, unsigned_part, Decimal, DecimalView,
};
use crate::text::{
    char_debug, char_is_alphabetic, char_is_alphanumeric, chars_of,
    debug_char, debug_str, int_text, alphabetic, alphanumeric, is_ascii_digit,
    is_digit_char, is_white_space, is_whitespace_char, nat_text, push_char, push_int, push_nat, push_str,
    str_debug, string_of, utf8_length, utf8_width, utf8_width_of,
};
use crate::value::{error, predicate_message, ContractError};

verus! {

/// One token of a predicate.
#[derive(Clone, Debug, PartialEq)]
pub enum Token {
    /// A single-quoted path, quotes removed, in the reader's own language.
    Path(String),
    /// A double-quoted text literal, quotes removed.
    Text(String),
    /// A whole number, optionally negative.
    Integer(i64),
    /// A number with a point.
    Decimal(Decimal),
    /// A bare word: `and`, `or`, `not`, `true`, `false`, `null`, or a function
    /// name such as `starts-with`.
    Word(String),
    /// `=`
    Equal,
    /// `!=`
    NotEqual,
    /// `<`
    Less,
    /// `<=`
    LessOrEqual,
    /// `>`
    Greater,
    /// `>=`
    GreaterOrEqual,
    /// `(`
    OpenParen,
    /// `)`
    CloseParen,
    /// `,`
    Comma,
}

/// The mathematical content of a [`Token`].
pub enum TokenView {
    Path(Seq<char>),
    Text(Seq<char>),
    Integer(int),
    Decimal(DecimalView),
    Word(Seq<char>),
    Equal,
    NotEqual,
    Less,
    LessOrEqual,
    Greater,
    GreaterOrEqual,
    OpenParen,
    CloseParen,
    Comma,
}

impl View for Token {
    type V = TokenView;

    open spec fn view(&self) -> TokenView {
        match self {
            Token::Path(s) => TokenView::Path(s@),
            Token::Text(s) => TokenView::Text(s@),
            Token::Integer(i) => TokenView::Integer(*i as int),
            Token::Decimal(d) => TokenView::Decimal(d@),
            Token::Word(s) => TokenView::Word(s@),
            Token::Equal => TokenView::Equal,
            Token::NotEqual => TokenView::NotEqual,
            Token::Less => TokenView::Less,
            Token::LessOrEqual => TokenView::LessOrEqual,
            Token::Greater => TokenView::Greater,
            Token::GreaterOrEqual => TokenView::GreaterOrEqual,
            Token::OpenParen => TokenView::OpenParen,
            Token::CloseParen => TokenView::CloseParen,
            Token::Comma => TokenView::Comma,
        }
    }
}

/// The views of a sequence of tokens.
pub open spec fn tokens_view(ts: Seq<Token>) -> Seq<TokenView> {
    ts.map_values(|t: Token| t@)
}

/// What `{:?}` writes for a token.
pub open spec fn token_debug(t: TokenView) -> Seq<char> {
    match t {
        TokenView::Path(s) => "Path("@ + str_debug(s) + ")"@,
        TokenView::Text(s) => "Text("@ + str_debug(s) + ")"@,
        TokenView::Integer(i) => "Integer("@ + int_text(i) + ")"@,
        TokenView::Decimal(d) => "Decimal("@ + decimal_debug_text(d) + ")"@,
        TokenView::Word(s) => "Word("@ + str_debug(s) + ")"@,
        TokenView::Equal => "Equal"@,
        TokenView::NotEqual => "NotEqual"@,
        TokenView::Less => "Less"@,
        TokenView::LessOrEqual => "LessOrEqual"@,
        TokenView::Greater => "Greater"@,
        TokenView::GreaterOrEqual => "GreaterOrEqual"@,
        TokenView::OpenParen => "OpenParen"@,
        TokenView::CloseParen => "CloseParen"@,
        TokenView::Comma => "Comma"@,
    }
}

/// What `{:?}` writes for a token that may be missing.
pub open spec fn option_token_debug(t: Option<TokenView>) -> Seq<char> {
    match t {
        Some(t) => "Some("@ + token_debug(t) + ")"@,
        None => "None"@,
    }
}

/// Appends to `s` what `{:?}` writes for `t`.
pub fn push_token_debug(s: &mut String, t: &Token)
    ensures
        final(s)@ == old(s)@ + token_debug(t@),
{
    let ghost before = s@;
    match t {
        Token::Path(p) => {
            push_str(s, "Path(");
            let d = debug_str(p.as_str());
            push_str(s, d.as_str());
            push_str(s, ")");
        },
        Token::Text(p) => {
            push_str(s, "Text(");
            let d = debug_str(p.as_str());
            push_str(s, d.as_str());
            push_str(s, ")");
        },
        Token::Integer(i) => {
            push_str(s, "Integer(");
            push_int(s, *i);
            push_str(s, ")");
        },
        Token::Decimal(d) => {
            push_str(s, "Decimal(");
            d.write_to(s, true);
            push_str(s, ")");
        },
        Token::Word(p) => {
            push_str(s, "Word(");
            let d = debug_str(p.as_str());
            push_str(s, d.as_str());
            push_str(s, ")");
        },
        Token::Equal => push_str(s, "Equal"),
        Token::NotEqual => push_str(s, "NotEqual"),
        Token::Less => push_str(s, "Less"),
        Token::LessOrEqual => push_str(s, "LessOrEqual"),
        Token::Greater => push_str(s, "Greater"),
        Token::GreaterOrEqual => push_str(s, "GreaterOrEqual"),
        Token::OpenParen => push_str(s, "OpenParen"),
        Token::CloseParen => push_str(s, "CloseParen"),
        Token::Comma => push_str(s, "Comma"),
    }
    proof {
        assert(s@ =~= before + token_debug(t@));
    }
}

/// Appends to `s` what `{:?}` writes for `t`, a token that may be missing.
pub fn push_option_token_debug(s: &mut String, t: Option<&Token>)
    ensures
        final(s)@ == old(s)@ + option_token_debug(
            match t {
                Some(t) => Some(t@),
                None => None,
            },
        ),
{
    let ghost before = s@;
    match t {
        Some(t) => {
            push_str(s, "Some(");
            push_token_debug(s, t);
            push_str(s, ")");
        },
        None => push_str(s, "None"),
    }
    proof {
        assert(s@ =~= before + option_token_debug(
            match t {
                Some(t) => Some(t@),
                None => None,
            },
        ));
    }
}

/// One step of the lexer: skip some characters, emit a token that took
/// some characters, or fail.
pub enum LexStep {
    Skip(nat),
    Emit(TokenView, nat),
    Fail(Seq<char>),
}

/// The text of a quoted string from `j` on, up to its closing `quote`: a
/// backslash takes the character after it as it is. `Some` of the text and
/// the index just past the closing quote; `None` when the string does not
/// close.
pub open spec fn quoted_scan(s: Seq<char>, j: int, quote: char) -> Option<(Seq<char>, int)>
    decreases s.len() - j,
{
    if j < 0 || j >= s.len() {
        None
    } else if s[j] == '\\' {
        if j + 1 < s.len() {
            match quoted_scan(s, j + 2, quote) {
                Some((t, e)) => Some((seq![s[j + 1]] + t, e)),
                None => None,
            }
        } else {
            None
        }
    } else if s[j] == quote {
        Some((Seq::<char>::empty(), j + 1))
    } else {
        match quoted_scan(s, j + 1, quote) {
            Some((t, e)) => Some((seq![s[j]] + t, e)),
            None => None,
        }
    }
}

/// The first index from `k` on that holds neither a digit nor a point.
pub open spec fn number_end(s: Seq<char>, k: int) -> int
    decreases s.len() - k,
{
    if 0 <= k < s.len() && (is_digit_char(s[k]) || s[k] == '.') {
        number_end(s, k + 1)
    } else {
        k
    }
}

/// `e` moved back over the points just before it, not below `i`.
pub open spec fn trim_points(s: Seq<char>, i: int, e: int) -> int
    decreases e - i,
{
    if e > i && 0 < e <= s.len() && s[e - 1] == '.' {
        trim_points(s, i, e - 1)
    } else {
        e
    }
}

/// The first index from `k` on that holds no character of a word.
pub open spec fn word_end(s: Seq<char>, k: int) -> int
    decreases s.len() - k,
{
    if 0 <= k < s.len() && (alphanumeric(s[k]) || s[k] == '-' || s[k] == '_') {
        word_end(s, k + 1)
    } else {
        k
    }
}

/// The integer that the text `t`, an optional `-` and digits, writes, when
/// it fits in 64 bits.
pub open spec fn integer_syntax(t: Seq<char>) -> Option<int> {
    let body = unsigned_part(t);
    let magnitude = digits_value(digit_values(body)) as int;
    let value = if starts_negative(t) {
        -magnitude
    } else {
        magnitude
    };
    if is_digit_run(body) && i64::MIN <= value <= i64::MAX {
        Some(value)
    } else {
        None
    }
}

/// Whether `t` holds a point.
pub open spec fn has_point_char(t: Seq<char>) -> bool {
    exists|k: int| 0 <= k < t.len() && #[trigger] t[k] == '.'
}

/// The step for a number that starts at `i`: the longest run of digits and
/// points, less its trailing points. With a point it must be a decimal,
/// without one an integer that fits in 64 bits.
pub open spec fn number_step(s: Seq<char>, i: int) -> LexStep {
    let e = trim_points(s, i, number_end(s, i + 1));
    let digits = s.subrange(i, e);
    if has_point_char(digits) {
        match decimal_syntax(digits) {
            Some(d) => LexStep::Emit(TokenView::Decimal(d), (e - i) as nat),
            None => LexStep::Fail(not_a_number_message(digits)),
        }
    } else {
        match integer_syntax(digits) {
            Some(n) => LexStep::Emit(TokenView::Integer(n), (e - i) as nat),
            None => LexStep::Fail(not_a_number_message(digits)),
        }
    }
}

/// The message for digits that are not a number.
pub open spec fn not_a_number_message(digits: Seq<char>) -> Seq<char> {
    predicate_message(str_debug(digits) + " is not a number"@)
}

/// The message for a string that does not close; `rest` starts at its
/// opening quote.
pub open spec fn unterminated_message(rest: Seq<char>) -> Seq<char> {
    predicate_message("unterminated string in "@ + str_debug(rest))
}

/// The message for the character at `i`, which begins no token: it names
/// the character, its byte offset, and the whole predicate.
pub open spec fn unexpected_message(s: Seq<char>, i: int) -> Seq<char> {
    predicate_message(
        "unexpected "@ + char_debug(s[i]) + " at "@ + nat_text(utf8_length(s.take(i))) + " in "@
            + str_debug(s),
    )
}

/// The step of the lexer at index `i` of `s`.
pub open spec fn lex_step(s: Seq<char>, i: int) -> LexStep {
    let c = s[i];
    if is_whitespace_char(c) {
        LexStep::Skip(1)
    } else if c == '(' {
        LexStep::Emit(TokenView::OpenParen, 1)
    } else if c == ')' {
        LexStep::Emit(TokenView::CloseParen, 1)
    } else if c == ',' {
        LexStep::Emit(TokenView::Comma, 1)
    } else if c == '=' {
        LexStep::Emit(TokenView::Equal, 1)
    } else if c == '!' && i + 1 < s.len() && s[i + 1] == '=' {
        LexStep::Emit(TokenView::NotEqual, 2)
    } else if c == '<' && i + 1 < s.len() && s[i + 1] == '=' {
        LexStep::Emit(TokenView::LessOrEqual, 2)
    } else if c == '<' {
        LexStep::Emit(TokenView::Less, 1)
    } else if c == '>' && i + 1 < s.len() && s[i + 1] == '=' {
        LexStep::Emit(TokenView::GreaterOrEqual, 2)
    } else if c == '>' {
        LexStep::Emit(TokenView::Greater, 1)
    } else if c == '\'' || c == '"' {
        match quoted_scan(s, i + 1, c) {
            Some((t, e)) => LexStep::Emit(
                if c == '\'' {
                    TokenView::Path(t)
                } else {
                    TokenView::Text(t)
                },
                (e - i) as nat,
            ),
            None => LexStep::Fail(unterminated_message(s.skip(i))),
        }
    } else if is_digit_char(c) || (c == '-' && i + 1 < s.len() && is_digit_char(s[i + 1])) {
        number_step(s, i)
    } else if alphabetic(c) {
        let e = word_end(s, i + 1);
        LexStep::Emit(TokenView::Word(s.subrange(i, e)), (e - i) as nat)
    } else {
        LexStep::Fail(unexpected_message(s, i))
    }
}

/// The tokens of `s` from index `i` on, or the first failure.
pub open spec fn lex_from(s: Seq<char>, i: int) -> Result<Seq<TokenView>, Seq<char>>
    decreases s.len() - i,
{
    if i < 0 || i >= s.len() {
        Ok(Seq::empty())
    } else {
        match lex_step(s, i) {
            LexStep::Skip(n) => if 0 < n && i + n <= s.len() {
                lex_from(s, i + n)
            } else {
                // never taken: every step takes at least one character
                Ok(Seq::empty())
            },
            LexStep::Emit(t, n) => if 0 < n && i + n <= s.len() {
                match lex_from(s, i + n) {
                    Ok(ts) => Ok(seq![t] + ts),
                    Err(m) => Err(m),
                }
            } else {
                // never taken: every step takes at least one character
                Ok(Seq::empty())
            },
            LexStep::Fail(m) => Err(m),
        }
    }
}

/// The tokens of the predicate `s`, or the message of the first failure.
pub open spec fn lex(s: Seq<char>) -> Result<Seq<TokenView>, Seq<char>> {
    lex_from(s, 0)
}

/// The view of a lexer's result.
pub open spec fn lexed_view(r: Result<Vec<Token>, ContractError>) -> Result<
    Seq<TokenView>,
    Seq<char>,
> {
    match r {
        Ok(ts) => Ok(tokens_view(ts@)),
        Err(e) => Err(e@),
    }
}

/// `t` put before the text of a scan's outcome.
pub open spec fn prepend_text(t: Seq<char>, o: Option<(Seq<char>, int)>) -> Option<(Seq<char>, int)> {
    match o {
        Some((t2, e)) => Some((t + t2, e)),
        None => None,
    }
}

proof fn lemma_prepend_text(t: Seq<char>, c: char, o: Option<(Seq<char>, int)>)
    ensures
        prepend_text(t, prepend_text(seq![c], o)) == prepend_text(t.push(c), o),
{
    if let Some((t2, e)) = o {
        assert(t + (seq![c] + t2) =~= t.push(c) + t2);
    }
}

/// The characters `cs[from..to]`.
fn sub_chars(cs: &Vec<char>, from: usize, to: usize) -> (r: Vec<char>)
    requires
        from <= to <= cs.len(),
    ensures
        r@ == cs@.subrange(from as int, to as int),
{
    let mut r: Vec<char> = Vec::new();
    let mut k: usize = from;
    while k < to
        invariant
            from <= k <= to,
            to <= cs.len(),
            r@ == cs@.subrange(from as int, k as int),
        decreases to - k,
    {
        r.push(cs[k]);
        proof {
            assert(cs@.subrange(from as int, k + 1) =~= cs@.subrange(from as int, k as int).push(
                cs@[k as int],
            ));
        }
        k = k + 1;
    }
    r
}

/// The string in `quote`s whose opening quote is at `i`: its text, and the
/// index just past its closing quote. A backslash escapes the character
/// after it. `None` when the string does not close.
fn quoted(cs: &Vec<char>, i: usize, quote: char) -> (r: Option<(String, usize)>)
    requires
        i < cs.len(),
    ensures
        match r {
            Some((t, e)) => quoted_scan(cs@, i + 1, quote) == Some((t@, e as int)),
            None => quoted_scan(cs@, i + 1, quote) is None,
        },
{
    let ghost s = cs@;
    let mut text = String::new();
    let mut j: usize = i + 1;
    proof {
        assert(Seq::<char>::empty() + s.skip(0) =~= s);
        let o = quoted_scan(s, i + 1, quote);
        if let Some((t2, e)) = o {
            assert(Seq::<char>::empty() + t2 =~= t2);
        }
    }
    while j < cs.len()
        invariant
            i < j <= cs.len() + 1,
            s == cs@,
            quoted_scan(s, i + 1, quote) == prepend_text(text@, quoted_scan(s, j as int, quote)),
        decreases cs.len() - j,
    {
        let c = cs[j];
        if c == '\\' {
            if j + 1 < cs.len() {
                let escaped = cs[j + 1];
                proof {
                    lemma_prepend_text(text@, escaped, quoted_scan(s, j + 2, quote));
                }
                push_char(&mut text, escaped);
                j = j + 2;
            } else {
                return None;
            }
        } else if c == quote {
            proof {
                assert(text@ + Seq::<char>::empty() =~= text@);
            }
            return Some((text, j + 1));
        } else {
            proof {
                lemma_prepend_text(text@, c, quoted_scan(s, j + 1, quote));
            }
            push_char(&mut text, c);
            j = j + 1;
        }
    }
    None
}

proof fn lemma_digit_step(before: Seq<char>, c: char)
    ensures
        digits_value(digit_values(before.push(c))) == digits_value(digit_values(before)) * 10
            + digit_value(c),
{
    let after = before.push(c);
    assert(digit_values(after).drop_last() =~= digit_values(before));
    assert(digit_values(after).last() == digit_value(c));
}

/// The integer that `t` writes, as [`integer_syntax`] says.
fn parse_integer(t: &Vec<char>) -> (r: Option<i64>)
    ensures
        match r {
            Some(n) => integer_syntax(t@) == Some(n as int),
            None => integer_syntax(t@) is None,
        },
{
    let ghost s = t@;
    let negative = t.len() > 0 && t[0] == '-';
    let start: usize = if negative {
        1
    } else {
        0
    };
    let ghost body = unsigned_part(s);
    proof {
        assert(body =~= s.skip(start as int));
    }
    if start == t.len() {
        proof {
            assert(!is_digit_run(body));
        }
        return None;
    }
    let mut k: usize = start;
    while k < t.len()
        invariant
            start <= k <= t.len(),
            s == t@,
            body == s.skip(start as int),
            body == unsigned_part(s),
            forall|j: int| start <= j < k ==> #[trigger] is_digit_char(s[j]),
        decreases t.len() - k,
    {
        if !is_ascii_digit(t[k]) {
            proof {
                assert(body[k - start] == s[k as int]);
                assert(!is_digit_char(body[k - start]));
            }
            return None;
        }
        k = k + 1;
    }
    proof {
        assert(is_digit_run(body)) by {
            assert forall|j: int| 0 <= j < body.len() implies #[trigger] is_digit_char(body[j]) by {
                assert(body[j] == s[start + j]);
            }
        }
    }
    // the magnitude, held exactly until it passes 2^63
    let bound: u128 = 0x8000_0000_0000_0000;
    let mut magnitude: u128 = 0;
    let mut big = false;
    let mut k: usize = start;
    let ghost mut prefix: Seq<char> = Seq::empty();
    proof {
        assert(digit_values(prefix) =~= Seq::<u8>::empty());
    }
    while k < t.len()
        invariant
            start <= k <= t.len(),
            s == t@,
            body == s.skip(start as int),
            is_digit_run(body),
            prefix == body.take(k - start),
            !big ==> magnitude == digits_value(digit_values(prefix)),
            !big ==> magnitude <= bound,
            big ==> digits_value(digit_values(prefix)) > bound,
            bound == 0x8000_0000_0000_0000u128,
        decreases t.len() - k,
    {
        let c = t[k];
        proof {
            assert(body[k - start] == c);
            assert(is_digit_char(body[k - start]));
        }
        let d: u8 = ((c as u32) - 48) as u8;
        let ghost v = digits_value(digit_values(prefix));
        proof {
            lemma_digit_step(prefix, c);
            assert(body.take(k - start + 1) =~= prefix.push(c));
            prefix = prefix.push(c);
        }
        assert(digits_value(digit_values(prefix)) == v * 10 + d);
        if !big {
            let next = magnitude * 10 + (d as u128);
            if next > bound {
                big = true;
            } else {
                magnitude = next;
            }
        }
        k = k + 1;
    }
    proof {
        assert(body.take(k - start) =~= body);
        assert(body == unsigned_part(s));
    }
    if big {
        return None;
    }
    if negative {
        let v: i128 = 0i128 - (magnitude as i128);
        Some(v as i64)
    } else if magnitude < bound {
        Some(magnitude as i64)
    } else {
        None
    }
}

/// The number whose first character is at `i`, as [`number_step`] says:
/// its token and how many characters it took, or why it is no number.
fn number(cs: &Vec<char>, i: usize) -> (r: Result<(Token, usize), ContractError>)
    requires
        i < cs.len(),
        is_digit_char(cs@[i as int]) || (cs@[i as int] == '-' && i + 1 < cs.len() && is_digit_char(
            cs@[i + 1],
        )),
    ensures
        match r {
            Ok((t, n)) => number_step(cs@, i as int) == LexStep::Emit(t@, n as nat) && 0 < n
                && i + n <= cs.len(),
            Err(e) => number_step(cs@, i as int) == LexStep::Fail(e@),
        },
{
    let ghost s = cs@;
    let mut end: usize = i + 1;
    while end < cs.len() && (is_ascii_digit(cs[end]) || cs[end] == '.')
        invariant
            i + 1 <= end <= cs.len(),
            s == cs@,
            number_end(s, i + 1) == number_end(s, end as int),
        decreases cs.len() - end,
    {
        end = end + 1;
    }
    let mut e: usize = end;
    while e > i && cs[e - 1] == '.'
        invariant
            i + 1 <= e <= end,
            end <= cs.len(),
            s == cs@,
            s[i as int] != '.',
            trim_points(s, i as int, number_end(s, i + 1)) == trim_points(s, i as int, e as int),
        decreases e,
    {
        e = e - 1;
    }
    let digits = sub_chars(cs, i, e);
    let mut point = false;
    let mut k: usize = 0;
    while k < digits.len()
        invariant
            0 <= k <= digits.len(),
            !point ==> forall|j: int| 0 <= j < k ==> #[trigger] digits@[j] != '.',
            point ==> has_point_char(digits@),
        decreases digits.len() - k,
    {
        if digits[k] == '.' {
            point = true;
        }
        k = k + 1;
    }
    let n = e - i;
    if point {
        match Decimal::from_chars(&digits) {
            Some(d) => Ok((Token::Decimal(d), n)),
            None => Err(not_a_number(&digits)),
        }
    } else {
        match parse_integer(&digits) {
            Some(v) => Ok((Token::Integer(v), n)),
            None => Err(not_a_number(&digits)),
        }
    }
}

/// The error for digits that are not a number.
fn not_a_number(digits: &Vec<char>) -> (r: ContractError)
    ensures
        r@ == not_a_number_message(digits@),
{
    let text = string_of(digits);
    let mut m = debug_str(text.as_str());
    push_str(&mut m, " is not a number");
    error(m)
}

/// The word whose first character, a letter, is at `i`: its token and how
/// many characters it took.
fn word(cs: &Vec<char>, i: usize) -> (r: (Token, usize))
    requires
        i < cs.len(),
    ensures
        r.1 == word_end(cs@, i + 1) - i,
        r.0@ == TokenView::Word(cs@.subrange(i as int, word_end(cs@, i + 1))),
        0 < r.1,
        i + r.1 <= cs.len(),
{
    let mut end: usize = i + 1;
    while end < cs.len() && (char_is_alphanumeric(cs[end]) || cs[end] == '-' || cs[end] == '_')
        invariant
            i + 1 <= end <= cs.len(),
            word_end(cs@, i + 1) == word_end(cs@, end as int),
        decreases cs.len() - end,
    {
        end = end + 1;
    }
    let w = string_of(&sub_chars(cs, i, end));
    (Token::Word(w), end - i)
}

/// How a step of the exec lexer reads as a [`LexStep`].
pub open spec fn step_view(r: Result<(Option<Token>, usize), ContractError>) -> LexStep {
    match r {
        Ok((None, n)) => LexStep::Skip(n as nat),
        Ok((Some(t), n)) => LexStep::Emit(t@, n as nat),
        Err(e) => LexStep::Fail(e@),
    }
}

/// The step of the lexer at `i`: a character skipped, a token read, or the
/// error that stops the lexer. `offset` is the byte offset of `i`.
fn lex_one(predicate: &str, cs: &Vec<char>, i: usize, offset: u128) -> (r: Result<
    (Option<Token>, usize),
    ContractError,
>)
    requires
        i < cs.len(),
        cs@ == predicate@,
        offset == utf8_length(cs@.take(i as int)),
    ensures
        step_view(r) == lex_step(cs@, i as int),
        r matches Ok((_, n)) ==> 0 < n && i + n <= cs.len(),
{
    let ghost s = cs@;
    let c = cs[i];
    let next: Option<char> = if i + 1 < cs.len() {
        Some(cs[i + 1])
    } else {
        None
    };
    if is_white_space(c) {
        Ok((None, 1))
    } else if c == '(' {
        Ok((Some(Token::OpenParen), 1))
    } else if c == ')' {
        Ok((Some(Token::CloseParen), 1))
    } else if c == ',' {
        Ok((Some(Token::Comma), 1))
    } else if c == '=' {
        Ok((Some(Token::Equal), 1))
    } else if c == '!' && next == Some('=') {
        Ok((Some(Token::NotEqual), 2))
    } else if c == '<' && next == Some('=') {
        Ok((Some(Token::LessOrEqual), 2))
    } else if c == '<' {
        Ok((Some(Token::Less), 1))
    } else if c == '>' && next == Some('=') {
        Ok((Some(Token::GreaterOrEqual), 2))
    } else if c == '>' {
        Ok((Some(Token::Greater), 1))
    } else if c == '\'' || c == '"' {
        match quoted(cs, i, c) {
            Some((text, e)) => {
                proof {
                    lemma_quoted_scan_advances(s, i + 1, c);
                }
                let t = if c == '\'' {
                    Token::Path(text)
                } else {
                    Token::Text(text)
                };
                Ok((Some(t), e - i))
            },
            None => {
                let rest = string_of(&sub_chars(cs, i, cs.len()));
                proof {
                    assert(rest@ =~= s.skip(i as int));
                }
                let mut m = String::new();
                push_str(&mut m, "unterminated string in ");
                let d = debug_str(rest.as_str());
                push_str(&mut m, d.as_str());
                Err(error(m))
            },
        }
    } else if is_ascii_digit(c) || (c == '-' && i + 1 < cs.len() && is_ascii_digit(cs[i + 1])) {
        match number(cs, i) {
            Ok((t, n)) => Ok((Some(t), n)),
            Err(e) => Err(e),
        }
    } else if char_is_alphabetic(c) {
        let (t, n) = word(cs, i);
        Ok((Some(t), n))
    } else {
        let mut m = String::new();
        push_str(&mut m, "unexpected ");
        let dc = debug_char(c);
        push_str(&mut m, dc.as_str());
        push_str(&mut m, " at ");
        push_nat(&mut m, offset);
        push_str(&mut m, " in ");
        let dp = debug_str(predicate);
        push_str(&mut m, dp.as_str());
        proof {
            assert(m@ =~= "unexpected "@ + char_debug(s[i as int]) + " at "@ + nat_text(
                utf8_length(s.take(i as int)),
            ) + " in "@ + str_debug(s));
        }
        Err(error(m))
    }
}

/// A quoted string that closes ends past its opening quote, inside the
/// text.
proof fn lemma_quoted_scan_advances(s: Seq<char>, j: int, quote: char)
    ensures
        quoted_scan(s, j, quote) matches Some((_, e)) ==> j < e <= s.len(),
    decreases s.len() - j,
{
    if 0 <= j < s.len() {
        if s[j] == '\\' {
            if j + 1 < s.len() {
                lemma_quoted_scan_advances(s, j + 2, quote);
            }
        } else if s[j] != quote {
            lemma_quoted_scan_advances(s, j + 1, quote);
        }
    }
}

/// `ts` put before the tokens of a lexer's outcome.
pub open spec fn prepend_tokens(ts: Seq<TokenView>, r: Result<Seq<TokenView>, Seq<char>>) -> Result<
    Seq<TokenView>,
    Seq<char>,
> {
    match r {
        Ok(t2) => Ok(ts + t2),
        Err(m) => Err(m),
    }
}

proof fn lemma_utf8_length_step(s: Seq<char>, k: int)
    requires
        0 <= k < s.len(),
    ensures
        utf8_length(s.take(k + 1)) == utf8_length(s.take(k)) + utf8_width(s[k]),
        utf8_width(s[k]) <= 4,
{
    assert(s.take(k + 1).drop_last() =~= s.take(k));
    assert(s.take(k + 1).last() == s[k]);
}

/// Split `predicate` into tokens.
///
/// # Errors
/// A character that begins no token, an unterminated string, or a number that
/// does not parse.
pub fn tokenize(predicate: &str) -> (r: Result<Vec<Token>, ContractError>)
    ensures
        lexed_view(r) == lex(predicate@),
{
    let cs = chars_of(predicate);
    let ghost s = cs@;
    let mut tokens: Vec<Token> = Vec::new();
    let mut i: usize = 0;
    let mut offset: u128 = 0;
    proof {
        assert(s.take(0) =~= Seq::<char>::empty());
        assert(tokens_view(tokens@) =~= Seq::<TokenView>::empty());
        if let Ok(t2) = lex_from(s, 0) {
            assert(Seq::<TokenView>::empty() + t2 =~= t2);
        }
    }
    while i < cs.len()
        invariant
            0 <= i <= cs.len(),
            s == cs@,
            s == predicate@,
            offset == utf8_length(s.take(i as int)),
            offset <= 4 * i,
            lex(s) == prepend_tokens(tokens_view(tokens@), lex_from(s, i as int)),
        decreases cs.len() - i,
    {
        let step = lex_one(predicate, &cs, i, offset);
        match step {
            Ok((token, n)) => {
                let ghost before = tokens_view(tokens@);
                match token {
                    Some(t) => {
                        proof {
                            if let Ok(t2) = lex_from(s, i + n) {
                                assert(before + (seq![t@] + t2) =~= before.push(t@) + t2);
                            }
                        }
                        tokens.push(t);
                        proof {
                            assert(tokens_view(tokens@) =~= before.push(t@));
                        }
                    },
                    None => {},
                }
                let mut k: usize = i;
                while k < i + n
                    invariant
                        i <= k <= i + n,
                        i + n <= cs.len(),
                        s == cs@,
                        offset == utf8_length(s.take(k as int)),
                        offset <= 4 * k,
                    decreases i + n - k,
                {
                    proof {
                        lemma_utf8_length_step(s, k as int);
                    }
                    let w = utf8_width_of(cs[k]);
                    offset = offset + (w as u128);
                    k = k + 1;
                }
                i = i + n;
            },
            Err(e) => {
                return Err(e);
            },
        }
    }
    proof {
        assert(tokens_view(tokens@) + Seq::<TokenView>::empty() =~= tokens_view(tokens@));
    }
    Ok(tokens)
}

// ---------------------------------------------------------------------------
// What a step depends on.

/// A character that ends every token that runs up to it: not a digit, a
/// point, `=`, or a character of a word, and not a quote.
pub open spec fn ends_tokens(c: char) -> bool {
    &&& !is_digit_char(c)
    &&& c != '.'
    &&& c != '='
    &&& c != '-'
    &&& c != '_'
    &&& !alphanumeric(c)
}

proof fn lemma_trim_points_bounds(s: Seq<char>, i: int, e: int)
    requires
        0 <= i < e <= s.len(),
        s[i] != '.',
    ensures
        i < trim_points(s, i, e) <= e,
    decreases e - i,
{
    if e > i + 1 && s[e - 1] == '.' {
        lemma_trim_points_bounds(s, i, e - 1);
    }
}

proof fn lemma_number_end_bounds(s: Seq<char>, k: int)
    requires
        0 <= k <= s.len(),
    ensures
        k <= number_end(s, k) <= s.len(),
    decreases s.len() - k,
{
    if k < s.len() && (is_digit_char(s[k]) || s[k] == '.') {
        lemma_number_end_bounds(s, k + 1);
    }
}

proof fn lemma_word_end_bounds(s: Seq<char>, k: int)
    requires
        0 <= k <= s.len(),
    ensures
        k <= word_end(s, k) <= s.len(),
    decreases s.len() - k,
{
    if k < s.len() && (alphanumeric(s[k]) || s[k] == '-' || s[k] == '_') {
        lemma_word_end_bounds(s, k + 1);
    }
}

/// A step that does not fail takes at least one character and no more than
/// are left.
pub proof fn lemma_step_advances(s: Seq<char>, i: int)
    requires
        0 <= i < s.len(),
    ensures
        lex_step(s, i) matches LexStep::Skip(n) ==> 0 < n && i + n <= s.len(),
        lex_step(s, i) matches LexStep::Emit(_, n) ==> 0 < n && i + n <= s.len(),
{
    let c = s[i];
    lemma_quoted_scan_advances(s, i + 1, c);
    lemma_word_end_bounds(s, i + 1);
    lemma_number_end_bounds(s, i + 1);
    if is_digit_char(c) || (c == '-' && i + 1 < s.len() && is_digit_char(s[i + 1])) {
        let e0 = number_end(s, i + 1);
        if is_digit_char(c) {
            lemma_trim_points_bounds(s, i, e0);
        } else {
            assert(number_end(s, i + 1) == number_end(s, i + 2));
            lemma_number_end_bounds(s, i + 2);
            lemma_trim_points_bounds(s, i, e0);
        }
    }
}

proof fn lemma_quoted_scan_prefix(a: Seq<char>, r: Seq<char>, j: int, q: char)
    requires
        quoted_scan(a, j, q) is Some,
    ensures
        quoted_scan(a + r, j, q) == quoted_scan(a, j, q),
    decreases a.len() - j,
{
    let s = a + r;
    assert(s[j] == a[j]);
    if a[j] == '\\' {
        assert(s[j + 1] == a[j + 1]);
        lemma_quoted_scan_prefix(a, r, j + 2, q);
    } else if a[j] != q {
        lemma_quoted_scan_prefix(a, r, j + 1, q);
    }
}

proof fn lemma_number_end_prefix(a: Seq<char>, r: Seq<char>, k: int)
    requires
        0 <= k <= a.len(),
        r.len() > 0,
        ends_tokens(r[0]),
    ensures
        number_end(a + r, k) == number_end(a, k),
    decreases a.len() - k,
{
    let s = a + r;
    if k < a.len() {
        assert(s[k] == a[k]);
        lemma_number_end_prefix(a, r, k + 1);
    } else {
        assert(s[k] == r[0]);
    }
}

proof fn lemma_word_end_prefix(a: Seq<char>, r: Seq<char>, k: int)
    requires
        0 <= k <= a.len(),
        r.len() > 0,
        ends_tokens(r[0]),
    ensures
        word_end(a + r, k) == word_end(a, k),
    decreases a.len() - k,
{
    let s = a + r;
    if k < a.len() {
        assert(s[k] == a[k]);
        lemma_word_end_prefix(a, r, k + 1);
    } else {
        assert(s[k] == r[0]);
    }
}

proof fn lemma_trim_points_prefix(a: Seq<char>, r: Seq<char>, i: int, e: int)
    requires
        0 <= i,
        e <= a.len(),
    ensures
        trim_points(a + r, i, e) == trim_points(a, i, e),
    decreases e - i,
{
    if e > i && 0 < e {
        assert((a + r)[e - 1] == a[e - 1]);
        lemma_trim_points_prefix(a, r, i, e - 1);
    }
}

/// A step inside `a` that does not fail takes the same characters, and
/// gives the same token, when more text follows `a` that begins with a
/// character that ends every token.
pub proof fn lemma_step_prefix(a: Seq<char>, r: Seq<char>, i: int)
    requires
        0 <= i < a.len(),
        r.len() > 0,
        ends_tokens(r[0]),
        !(lex_step(a, i) is Fail),
    ensures
        lex_step(a + r, i) == lex_step(a, i),
{
    let s = a + r;
    let c = a[i];
    assert(s[i] == c);
    if i + 1 < a.len() {
        assert(s[i + 1] == a[i + 1]);
    } else {
        assert(s[i + 1] == r[0]);
    }
    if c == '\'' || c == '"' {
        lemma_quoted_scan_prefix(a, r, i + 1, c);
    }
    lemma_number_end_bounds(a, i + 1);
    lemma_number_end_prefix(a, r, i + 1);
    lemma_trim_points_prefix(a, r, i, number_end(a, i + 1));
    let e = trim_points(a, i, number_end(a, i + 1));
    if is_digit_char(c) || (c == '-' && i + 1 < a.len() && is_digit_char(a[i + 1])) {
        lemma_trim_points_bounds(a, i, number_end(a, i + 1));
        assert(s.subrange(i, e) =~= a.subrange(i, e));
    }
    lemma_word_end_bounds(a, i + 1);
    lemma_word_end_prefix(a, r, i + 1);
    assert(s.subrange(i, word_end(a, i + 1)) =~= a.subrange(i, word_end(a, i + 1)));
}

proof fn lemma_quoted_scan_shift(p: Seq<char>, b: Seq<char>, j: int, q: char)
    requires
        0 <= j,
    ensures
        quoted_scan(p + b, p.len() + j, q) == match quoted_scan(b, j, q) {
            Some((t, e)) => Some((t, e + p.len())),
            None => None,
        },
    decreases b.len() - j,
{
    let s = p + b;
    let k = p.len() + j;
    if j < b.len() {
        assert(s[k] == b[j]);
        if b[j] == '\\' {
            if j + 1 < b.len() {
                assert(s[k + 1] == b[j + 1]);
                lemma_quoted_scan_shift(p, b, j + 2, q);
                assert(k + 2 == p.len() + (j + 2));
            }
        } else if b[j] != q {
            lemma_quoted_scan_shift(p, b, j + 1, q);
            assert(k + 1 == p.len() + (j + 1));
        }
    }
}

proof fn lemma_number_end_shift(p: Seq<char>, b: Seq<char>, k: int)
    requires
        0 <= k,
    ensures
        number_end(p + b, p.len() + k) == number_end(b, k) + p.len(),
    decreases b.len() - k,
{
    if k < b.len() {
        assert((p + b)[p.len() + k] == b[k]);
        lemma_number_end_shift(p, b, k + 1);
        assert(p.len() + k + 1 == p.len() + (k + 1));
    }
}

proof fn lemma_word_end_shift(p: Seq<char>, b: Seq<char>, k: int)
    requires
        0 <= k,
    ensures
        word_end(p + b, p.len() + k) == word_end(b, k) + p.len(),
    decreases b.len() - k,
{
    if k < b.len() {
        assert((p + b)[p.len() + k] == b[k]);
        lemma_word_end_shift(p, b, k + 1);
        assert(p.len() + k + 1 == p.len() + (k + 1));
    }
}

proof fn lemma_trim_points_shift(p: Seq<char>, b: Seq<char>, i: int, e: int)
    requires
        0 <= i,
        e <= b.len(),
    ensures
        trim_points(p + b, p.len() + i, p.len() + e) == trim_points(b, i, e) + p.len(),
    decreases e - i,
{
    if e > i && 0 < e {
        assert((p + b)[p.len() + e - 1] == b[e - 1]);
        lemma_trim_points_shift(p, b, i, e - 1);
        assert(p.len() + e - 1 == p.len() + (e - 1));
    }
}

/// A step that does not fail takes the same characters, and gives the same
/// token, whatever text stands before.
pub proof fn lemma_step_shift(p: Seq<char>, b: Seq<char>, i: int)
    requires
        0 <= i < b.len(),
        !(lex_step(b, i) is Fail),
    ensures
        lex_step(p + b, p.len() + i) == lex_step(b, i),
{
    let s = p + b;
    let k = p.len() + i;
    let c = b[i];
    assert(s[k] == c);
    if i + 1 < b.len() {
        assert(s[k + 1] == b[i + 1]);
    }
    lemma_quoted_scan_shift(p, b, i + 1, c);
    assert(k + 1 == p.len() + (i + 1));
    lemma_number_end_bounds(b, i + 1);
    lemma_number_end_shift(p, b, i + 1);
    let e0 = number_end(b, i + 1);
    lemma_trim_points_shift(p, b, i, e0);
    let e = trim_points(b, i, e0);
    if is_digit_char(c) || (c == '-' && i + 1 < b.len() && is_digit_char(b[i + 1])) {
        lemma_trim_points_bounds(b, i, e0);
        assert(s.subrange(k, p.len() + e) =~= b.subrange(i, e));
    }
    lemma_word_end_bounds(b, i + 1);
    lemma_word_end_shift(p, b, i + 1);
    assert(s.subrange(k, p.len() + word_end(b, i + 1)) =~= b.subrange(i, word_end(b, i + 1)));
}

/// Text that lexes lexes alike whatever text stands before it.
pub proof fn lemma_lex_shift(p: Seq<char>, b: Seq<char>, j: int)
    requires
        0 <= j,
        lex_from(b, j) is Ok,
    ensures
        lex_from(p + b, p.len() + j) == lex_from(b, j),
    decreases b.len() - j,
{
    if j < b.len() {
        lemma_step_shift(p, b, j);
        lemma_step_advances(b, j);
        match lex_step(b, j) {
            LexStep::Skip(n) => {
                lemma_lex_shift(p, b, j + n);
                assert(p.len() + j + n == p.len() + (j + n));
            },
            LexStep::Emit(_, n) => {
                lemma_lex_shift(p, b, j + n);
                assert(p.len() + j + n == p.len() + (j + n));
            },
            LexStep::Fail(_) => {},
        }
    }
}

} // verus!
