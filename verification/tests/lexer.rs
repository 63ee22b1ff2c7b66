use lib::decimal::Decimal;
use lib::lexer::{tokenize, Token};

fn decimal(text: &str) -> Decimal {
    Decimal::from_text(text).expect("a decimal")
}

#[test]
fn tokenizes_every_kind() {
    let tokens = tokenize(
        r#"'/order/amount' >= -12.5 and not starts-with('/id', "A\"1") or ('/n' != null, 3)"#,
    )
    .expect("lexes");
    assert_eq!(
        tokens,
        vec![
            Token::Path("/order/amount".into()),
            Token::GreaterOrEqual,
            Token::Decimal(decimal("-12.5")),
            Token::Word("and".into()),
            Token::Word("not".into()),
            Token::Word("starts-with".into()),
            Token::OpenParen,
            Token::Path("/id".into()),
            Token::Comma,
            Token::Text("A\"1".into()),
            Token::CloseParen,
            Token::Word("or".into()),
            Token::OpenParen,
            Token::Path("/n".into()),
            Token::NotEqual,
            Token::Word("null".into()),
            Token::Comma,
            Token::Integer(3),
            Token::CloseParen,
        ]
    );
}

#[test]
fn every_comparison_operator_lexes_on_its_own() {
    let tokens = tokenize("= != < <= > >=").expect("lexes");
    assert_eq!(
        tokens,
        vec![
            Token::Equal,
            Token::NotEqual,
            Token::Less,
            Token::LessOrEqual,
            Token::Greater,
            Token::GreaterOrEqual,
        ]
    );
}

#[test]
fn refuses_stray_characters_and_open_strings() {
    let stray = tokenize("'/a' # 1").expect_err("refused");
    assert!(stray.message.contains("'#'"), "{}", stray.message);
    assert!(tokenize("'/a' = \"open").is_err());
    assert!(tokenize("'open = 1").is_err());
    assert!(tokenize("'/a' ! 1").is_err());
    assert!(tokenize("'/a' = 1.2.3").is_err());
}

#[test]
fn a_stray_character_is_named_with_its_byte_offset() {
    let stray = tokenize("'é' # 1").expect_err("refused");
    assert_eq!(
        stray.message,
        "predicate: unexpected '#' at 5 in \"'é' # 1\""
    );
}

#[test]
fn an_open_string_names_the_rest_of_the_predicate() {
    let open = tokenize("'/a' = \"open").expect_err("refused");
    assert_eq!(open.message, "predicate: unterminated string in \"\\\"open\"");
    let escaped = tokenize("'/a\\").expect_err("refused");
    assert_eq!(escaped.message, "predicate: unterminated string in \"'/a\\\\\"");
}

#[test]
fn numbers_that_do_not_parse_are_named() {
    let dots = tokenize("1.2.3").expect_err("refused");
    assert_eq!(dots.message, "predicate: \"1.2.3\" is not a number");
    let big = tokenize("9223372036854775808").expect_err("refused");
    assert_eq!(big.message, "predicate: \"9223372036854775808\" is not a number");
    assert_eq!(
        tokenize("-9223372036854775808").expect("lexes"),
        vec![Token::Integer(i64::MIN)]
    );
    assert_eq!(
        tokenize("9223372036854775807").expect("lexes"),
        vec![Token::Integer(i64::MAX)]
    );
}

#[test]
fn trailing_points_are_not_part_of_a_number() {
    assert!(tokenize("5.").is_err());
    assert_eq!(
        tokenize("-0.50").expect("lexes"),
        vec![Token::Decimal(decimal("-0.50"))]
    );
    assert_eq!(
        tokenize("7-").expect_err("refused").message,
        "predicate: unexpected '-' at 1 in \"7-\""
    );
}

#[test]
fn words_take_letters_digits_hyphens_and_underscores() {
    assert_eq!(
        tokenize("a_b-c9(").expect("lexes"),
        vec![Token::Word("a_b-c9".into()), Token::OpenParen]
    );
    assert_eq!(
        tokenize("\tnot\n").expect("lexes"),
        vec![Token::Word("not".into())]
    );
}

#[test]
fn a_lone_minus_or_bang_begins_no_token() {
    assert_eq!(
        tokenize("- 1").expect_err("refused").message,
        "predicate: unexpected '-' at 0 in \"- 1\""
    );
    assert_eq!(
        tokenize("!").expect_err("refused").message,
        "predicate: unexpected '!' at 0 in \"!\""
    );
}

#[test]
fn decimal_tokens_are_equal_when_their_values_are() {
    assert_eq!(tokenize("1.0").expect("lexes"), tokenize("1.00").expect("lexes"));
    assert_eq!(tokenize("-0.0").expect("lexes"), tokenize("0.0").expect("lexes"));
}
