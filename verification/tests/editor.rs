use etch::editor::{
    byte_offset, completions, hover, hover_text, kind_index, position, semantic_tokens, CompletionKind,
    SemanticToken,
};
use etch::highlighting::HighlightKind;

#[test]
fn converts_utf16_editor_positions_to_bytes() {
    assert_eq!(byte_offset("🔌value", 0, 2), Some(4));
}

#[test]
fn completes_builtins_and_document_symbols() {
    let items = completions("type Voltage = Number; let supply = 5V");
    assert!(items.iter().any(|item| item.label == "match"));
    assert!(items.iter().any(|item| item.label == "Voltage"));
    assert!(items.iter().any(|item| item.label == "supply"));
}

#[test]
fn completion_items_are_sorted_unique_and_keep_the_first_detail() {
    let items = completions("let x = 1; x; let Number = x");
    let labels: Vec<&str> = items.iter().map(|item| item.label.as_str()).collect();
    let mut sorted = labels.clone();
    sorted.sort();
    sorted.dedup();
    assert_eq!(labels, sorted);
    let x = items.iter().find(|item| item.label == "x").unwrap();
    assert_eq!(x.kind, CompletionKind::Variable);
    assert_eq!(x.detail, "Symbol in this document");
    let number = items.iter().find(|item| item.label == "Number").unwrap();
    assert_eq!(number.kind, CompletionKind::Class);
    assert_eq!(number.detail, "Built-in Etch type");
    assert_eq!(completions("").len(), 16);
}

#[test]
fn positions_count_lines_and_utf16_columns() {
    assert_eq!(position("ab\ncd", 4), (1, 1));
    assert_eq!(position("🔌x", 2), (0, 0));
    assert_eq!(position("🔌x", 4), (0, 2));
    assert_eq!(position("🔌x", 99), (0, 3));
    assert_eq!(position("a\n\nb", 3), (2, 0));
}

#[test]
fn byte_offsets_need_an_existing_line_and_column() {
    assert_eq!(byte_offset("ab\ncd", 1, 1), Some(4));
    assert_eq!(byte_offset("ab\ncd", 0, 2), Some(2));
    assert_eq!(byte_offset("ab\ncd", 0, 5), None);
    assert_eq!(byte_offset("ab\ncd", 2, 0), None);
    assert_eq!(byte_offset("🔌value", 0, 1), None);
    assert_eq!(byte_offset("🔌value", 0, 3), Some(5));
}

#[test]
fn hover_texts_explain_keywords_types_and_symbols() {
    assert_eq!(
        hover_text("let", HighlightKind::Keyword).unwrap(),
        "```etch\nlet\n```\n\nDefines a value by matching a pattern against an expression."
    );
    assert_eq!(
        hover_text("5V", HighlightKind::Number).unwrap(),
        "```etch\n5V\n```\n\nA numeric literal, optionally followed by an SI prefix and unit."
    );
    assert_eq!(
        hover_text("supply", HighlightKind::Identifier).unwrap(),
        "```etch\nsupply\n```\n\nA symbol in the current Etch document."
    );
    assert_eq!(hover_text("+", HighlightKind::Operator), None);
}

#[test]
fn hovering_finds_the_token_under_the_cursor() {
    let info = hover("let x = 1", 0, 5).unwrap();
    assert_eq!(info.text, "```etch\nx\n```\n\nA symbol in the current Etch document.");
    assert_eq!((info.start, info.end), ((0, 4), (0, 5)));
    assert!(hover("let x = 1", 3, 0).is_none());
    assert!(hover("a + b", 0, 2).is_none());
}

#[test]
fn semantic_tokens_are_relative_to_the_previous_token() {
    let token = |delta_line, delta_start, length, token_type| SemanticToken {
        delta_line,
        delta_start,
        length,
        token_type,
        token_modifiers_bitset: 0,
    };
    assert_eq!(
        semantic_tokens("let x\n= 1"),
        vec![token(0, 0, 3, 1), token(0, 4, 1, 6), token(1, 0, 1, 8), token(0, 2, 1, 3)]
    );
    assert_eq!(kind_index(HighlightKind::Operator), 8);
    assert_eq!(kind_index(HighlightKind::Comment), 0);
}

#[test]
fn positions_of_characters_lead_back_to_them() {
    let source = "ab\n🔌c\n\nx";
    let mut boundaries: Vec<usize> = source.char_indices().map(|(i, _)| i).collect();
    boundaries.push(source.len());
    for b in boundaries {
        let (line, character) = position(source, b);
        assert_eq!(byte_offset(source, line, character), Some(b), "byte {b}");
    }
}
