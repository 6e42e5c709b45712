use etch::highlighting::{highlight, HighlightKind};

#[test]
fn highlights_incomplete_source_without_failing() {
    let tokens = highlight("let voltage: Voltage = 5V; // supply\n\"unfinished");
    assert!(tokens.iter().any(|token| token.kind == HighlightKind::Keyword));
    assert!(tokens.iter().any(|token| token.kind == HighlightKind::Comment));
    assert!(tokens.iter().any(|token| token.kind == HighlightKind::String));
    assert!(tokens.iter().all(|token| token.span.end <= 51));
}

#[test]
fn recognizes_only_supported_compound_operators() {
    let source = "<- -> <= >= == =>";
    let operators: Vec<_> = highlight(source)
        .into_iter()
        .map(|token| &source[token.span])
        .collect();
    assert_eq!(operators, ["<-", "->", "<=", ">=", "==", "=", ">"]);
}

#[test]
fn escaped_quotes_remain_inside_one_string_token() {
    let source = r#""a\"b\\c\n"; next"#;
    let tokens = highlight(source);
    assert_eq!(tokens[0].kind, HighlightKind::String);
    assert_eq!(&source[tokens[0].span.clone()], r#""a\"b\\c\n""#);
    assert_eq!(&source[tokens.last().unwrap().span.clone()], "next");
}

#[test]
fn spans_are_byte_offsets_for_multibyte_text() {
    let source = "\"µ\" x";
    let tokens = highlight(source);
    assert_eq!(tokens.len(), 2);
    assert_eq!(tokens[0].span, 0..4);
    assert_eq!(tokens[0].kind, HighlightKind::String);
    assert_eq!(tokens[1].span, 5..6);
    assert_eq!(tokens[1].kind, HighlightKind::Identifier);
}

#[test]
fn tokens_are_ordered_and_cover_every_non_blank_character() {
    let source = "let a = { b: 1V } // c\nmatch x -> true";
    let tokens = highlight(source);
    let mut covered = vec![false; source.len()];
    let mut previous_end = 0;
    for token in &tokens {
        assert!(token.span.start >= previous_end);
        assert!(token.span.start < token.span.end);
        previous_end = token.span.end;
        for index in token.span.clone() {
            covered[index] = true;
        }
    }
    for (index, character) in source.char_indices() {
        if !character.is_whitespace() {
            assert!(covered[index], "character {index} is not covered");
        }
    }
}

#[test]
fn empty_and_blank_sources_have_no_tokens() {
    assert!(highlight("").is_empty());
    assert!(highlight(" \n\t ").is_empty());
}

#[test]
fn spans_are_ordered_byte_ranges_on_char_boundaries() {
    let source = "let π = \"ü\" // ☃ done\n  é2 + x";
    let tokens = highlight(source);
    assert!(!tokens.is_empty());
    for (i, token) in tokens.iter().enumerate() {
        assert!(token.span.start < token.span.end && token.span.end <= source.len());
        assert!(source.is_char_boundary(token.span.start));
        assert!(source.is_char_boundary(token.span.end));
        if i + 1 < tokens.len() {
            assert!(token.span.end <= tokens[i + 1].span.start);
        }
    }
    for (b, c) in source.char_indices() {
        let covered = tokens.iter().filter(|t| t.span.start <= b && b < t.span.end).count();
        if !c.is_whitespace() {
            assert_eq!(covered, 1, "byte {b}");
        }
    }
    assert_eq!(tokens[1].span, 4..6);
}
