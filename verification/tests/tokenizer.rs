use etch::tokenizer::{
    Bracket, BracketShape, BracketState, Keyword, Punctuation, Token, tokenize,
};

#[test]
fn brackets_know_their_shapes_and_states() {
    assert_eq!(
        Bracket::parse('{'),
        Some(Bracket { shape: BracketShape::Squiggle, state: BracketState::Open })
    );
    assert_eq!(
        Bracket::parse('>'),
        Some(Bracket { shape: BracketShape::Angle, state: BracketState::Close })
    );
    assert_eq!(Bracket::parse('a'), None);
    assert_eq!(BracketShape::Square.opening(), '[');
    assert_eq!(BracketShape::Parentathis.closing(), ')');
}

#[test]
fn punctuation_and_keywords_are_recognised() {
    assert_eq!(Punctuation::parse(';'), Some(Punctuation::SemiColon));
    assert_eq!(Punctuation::parse('='), Some(Punctuation::Equals));
    assert_eq!(Punctuation::parse('.'), None);
    assert_eq!(Keyword::parse("component"), Some(Keyword::Component));
    assert_eq!(Keyword::parse("match"), Some(Keyword::Match));
    assert_eq!(Keyword::parse("constant"), None);
    assert_eq!(Keyword::parse("lets"), None);
}

#[test]
fn tokenizes_numbers_words_strings_and_blocks() {
    let tokens = tokenize("let r = 10kOhm; # note\ncomponent x_1 { port \"a b\": [2] }");
    assert_eq!(tokens.len(), 8);
    assert!(matches!(tokens[0], Token::Keyword(Keyword::Let)));
    assert!(matches!(&tokens[1], Token::Identifier(name) if name == "r"));
    assert!(matches!(tokens[2], Token::Punctuation(Punctuation::Equals)));
    assert!(matches!(&tokens[3], Token::Number { num: 10, suffix } if suffix == "kOhm"));
    assert!(matches!(tokens[4], Token::Punctuation(Punctuation::SemiColon)));
    assert!(matches!(tokens[5], Token::Keyword(Keyword::Component)));
    match &tokens[6] {
        Token::Identifier(name) => assert_eq!(name, "x_1"),
        other => panic!("unexpected token {other:?}"),
    }
    assert!(matches!(tokens[7], Token::Block { shape: BracketShape::Squiggle, .. }));
}

#[test]
fn blocks_hold_their_tokenized_contents() {
    let tokens = tokenize("{ port \"a b\": (1, [2]) }");
    assert_eq!(tokens.len(), 1);
    let Token::Block { shape, children } = &tokens[0] else {
        panic!("expected a block");
    };
    assert_eq!(*shape, BracketShape::Squiggle);
    assert_eq!(children.len(), 4);
    assert!(matches!(children[0], Token::Keyword(Keyword::Port)));
    assert!(matches!(&children[1], Token::String(text) if text == "a b"));
    assert!(matches!(children[2], Token::Punctuation(Punctuation::Colon)));
    let Token::Block { shape, children: inner } = &children[3] else {
        panic!("expected a nested block");
    };
    assert_eq!(*shape, BracketShape::Parentathis);
    assert_eq!(inner.len(), 3);
    assert!(matches!(inner[0], Token::Number { num: 1, .. }));
    assert!(matches!(inner[2], Token::Block { shape: BracketShape::Square, .. }));
}

#[test]
fn unterminated_blocks_and_strings_take_the_rest() {
    let tokens = tokenize("(a \"b");
    assert_eq!(tokens.len(), 1);
    let Token::Block { children, .. } = &tokens[0] else {
        panic!("expected a block");
    };
    assert_eq!(children.len(), 2);
    assert!(matches!(&children[1], Token::String(text) if text == "b"));
    assert!(tokenize("   # only a comment").is_empty());
}
