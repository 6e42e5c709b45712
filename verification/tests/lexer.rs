use etch::lexer::{lex, Keyword, Prefix, Spanned, Symbols, Token};

fn tokens(source: &str) -> Vec<Spanned> {
    let (tokens, errors) = lex(source);
    assert!(errors.is_empty(), "unexpected errors {errors:?}");
    tokens.expect("the source lexes")
}

fn number(token: &Token) -> (String, Option<Prefix>, Option<String>) {
    match token {
        Token::Number { digits, prefix, unit } => (digits.clone(), *prefix, unit.clone()),
        other => panic!("expected a number, got {other:?}"),
    }
}

#[test]
fn lexes_a_definition_with_a_comment() {
    let result = tokens("let voltage: Voltage = 5V; // supply");
    assert_eq!(result.len(), 7);
    assert!(matches!(result[0].token, Token::Keyword(Keyword::Let)));
    assert!(matches!(&result[1].token, Token::Identifier(name) if name == "voltage"));
    assert!(matches!(result[2].token, Token::Symbol(Symbols::Colon)));
    assert!(matches!(&result[3].token, Token::Identifier(name) if name == "Voltage"));
    assert!(matches!(result[4].token, Token::Symbol(Symbols::Equals)));
    assert_eq!(number(&result[5].token), ("5".to_string(), None, Some("V".to_string())));
    assert!(matches!(result[6].token, Token::Symbol(Symbols::Semicolon)));
    assert_eq!(result[1].span, 4..11);
    assert_eq!(result[6].span, 25..26);
}

#[test]
fn numbers_take_prefixes_units_and_fractions() {
    let result = tokens("1kOhm 2.5mV 3m 0.1 007 1.");
    assert_eq!(number(&result[0].token), ("1".into(), Some(Prefix::Kilo), Some("Ohm".into())));
    assert_eq!(number(&result[1].token), ("2.5".into(), Some(Prefix::Mili), Some("V".into())));
    assert_eq!(number(&result[2].token), ("3".into(), Some(Prefix::Mili), None));
    assert_eq!(number(&result[3].token), ("0.1".into(), None, None));
    assert_eq!(number(&result[4].token), ("0".into(), None, None));
    assert_eq!(number(&result[5].token), ("0".into(), None, None));
    assert_eq!(number(&result[6].token), ("7".into(), None, None));
    assert_eq!(number(&result[7].token), ("1".into(), None, None));
    assert!(matches!(result[8].token, Token::Symbol(Symbols::Dot)));
    assert_eq!(result.len(), 9);
}

#[test]
fn longest_symbols_win() {
    let result = tokens("a<-b->c<=d==e>=f<g=h!i?@");
    let symbols: Vec<Symbols> = result
        .iter()
        .filter_map(|token| match token.token {
            Token::Symbol(symbol) => Some(symbol),
            _ => None,
        })
        .collect();
    assert_eq!(
        symbols,
        vec![
            Symbols::BackArrow,
            Symbols::Arrow,
            Symbols::Le,
            Symbols::DoubleEquals,
            Symbols::Ge,
            Symbols::Lt,
            Symbols::Equals,
            Symbols::Bang,
            Symbols::Question,
            Symbols::At,
        ]
    );
}

#[test]
fn strings_decode_escapes() {
    let result = tokens(r#""a\"b\\c\n\t\0" true false if matchbox"#);
    assert!(matches!(&result[0].token, Token::Str(text) if text == "a\"b\\c\n\t\0"));
    assert!(matches!(result[1].token, Token::Bool(true)));
    assert!(matches!(result[2].token, Token::Bool(false)));
    assert!(matches!(result[3].token, Token::Keyword(Keyword::If)));
    assert!(matches!(&result[4].token, Token::Identifier(name) if name == "matchbox"));
}

#[test]
fn unreadable_characters_are_skipped_with_an_error() {
    let (result, errors) = lex("let # x");
    let result = result.unwrap();
    assert_eq!(result.len(), 2);
    assert!(matches!(&result[1].token, Token::Identifier(name) if name == "x"));
    assert_eq!(errors.len(), 1);
    assert_eq!(errors[0].span, 4..5);
}

#[test]
fn trailing_unreadable_text_leaves_no_tokens() {
    let (result, errors) = lex("x #");
    assert!(result.is_none());
    assert_eq!(errors.len(), 1);
    assert_eq!(errors[0].span, 2..3);
    let (result, errors) = lex("\"open");
    let result = result.unwrap();
    assert!(matches!(&result[0].token, Token::Identifier(name) if name == "open"));
    assert_eq!(errors[0].span, 0..1);
}

#[test]
fn empty_and_blank_sources() {
    let (result, errors) = lex("");
    assert_eq!(result.unwrap().len(), 0);
    assert!(errors.is_empty());
    let (result, errors) = lex("  ");
    assert!(result.is_none());
    assert_eq!(errors[0].span, 2..2);
}

#[test]
fn spans_count_bytes() {
    let result = tokens("\"µ\" x");
    assert_eq!(result[0].span, 0..4);
    assert_eq!(result[1].span, 5..6);
}
