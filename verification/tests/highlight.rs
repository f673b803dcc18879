use gorge_compiler::highlight::{highlight, token_highlight_kind, HighlightKind};
use gorge_compiler::lexer::Token;

#[test]
fn test_highlight_keywords() {
    let result = highlight("class int return");
    assert_eq!(result.len(), 3);
    assert!(matches!(result[0].kind, HighlightKind::Keyword));
    assert!(matches!(result[1].kind, HighlightKind::Type));
    assert!(matches!(result[2].kind, HighlightKind::Keyword));
}

#[test]
fn test_highlight_string() {
    let result = highlight(r#""hello""#);
    assert_eq!(result.len(), 1);
    assert!(matches!(result[0].kind, HighlightKind::String));
}

#[test]
fn test_highlight_operators() {
    let result = highlight("+ - * /");
    assert!(result.iter().all(|h| matches!(h.kind, HighlightKind::Operator)));
}

#[test]
fn highlight_spans_and_other_classes() {
    let result = highlight("@Tag x = 12.5; // note\ntrue");
    let kinds: Vec<HighlightKind> = result.iter().map(|h| h.kind).collect();
    assert_eq!(
        kinds,
        vec![
            HighlightKind::Annotation,
            HighlightKind::Identifier,
            HighlightKind::Identifier,
            HighlightKind::Operator,
            HighlightKind::Number,
            HighlightKind::Operator,
            HighlightKind::Number,
        ]
    );
    assert_eq!(result[1].span.start, 1);
    assert_eq!(result[1].span.end, 4);
    assert_eq!(result[6].span.line, 2);
    assert_eq!(result[6].span.column, 1);
}

#[test]
fn rejected_text_is_not_highlighted() {
    let result = highlight("a # b");
    assert_eq!(result.len(), 2);
    assert_eq!(token_highlight_kind(&Token::KwNull), HighlightKind::Keyword);
    assert_eq!(token_highlight_kind(&Token::KwFalse), HighlightKind::Number);
    assert_eq!(token_highlight_kind(&Token::RBrace), HighlightKind::Operator);
}
