use gorge_compiler::lexer::{offset_to_line_column, tokenize, Token};

fn float_value(t: &Token) -> Option<f64> {
    match t {
        Token::FloatLiteral(text) => text.parse::<f64>().ok(),
        _ => None,
    }
}

#[test]
fn test_keywords() {
    let (tokens, diags) = tokenize("class interface enum native static", 0);
    assert!(diags.is_empty());
    assert_eq!(tokens.len(), 5);
    assert!(matches!(tokens[0].token, Token::KwClass));
    assert!(matches!(tokens[1].token, Token::KwInterface));
    assert!(matches!(tokens[2].token, Token::KwEnum));
    assert!(matches!(tokens[3].token, Token::KwNative));
    assert!(matches!(tokens[4].token, Token::KwStatic));
}

#[test]
fn test_new_keywords() {
    let (tokens, diags) = tokenize("super inject invokes do auto", 0);
    assert!(diags.is_empty());
    assert_eq!(tokens.len(), 5);
    assert!(matches!(tokens[0].token, Token::KwSuper));
    assert!(matches!(tokens[1].token, Token::KwInject));
    assert!(matches!(tokens[2].token, Token::KwInvokes));
    assert!(matches!(tokens[3].token, Token::KwDo));
    assert!(matches!(tokens[4].token, Token::KwAuto));
}

#[test]
fn test_new_symbols() {
    let (tokens, diags) = tokenize("@ ^ -> ::", 0);
    assert!(diags.is_empty());
    assert_eq!(tokens.len(), 4);
    assert!(matches!(tokens[0].token, Token::At));
    assert!(matches!(tokens[1].token, Token::Caret));
    assert!(matches!(tokens[2].token, Token::LambdaArrow));
    assert!(matches!(tokens[3].token, Token::DoubleColon));
}

#[test]
fn test_integer_literal() {
    let (tokens, diags) = tokenize("42 0 123456", 0);
    assert!(diags.is_empty());
    assert_eq!(tokens.len(), 3);
    assert_eq!(tokens[0].token, Token::IntLiteral(42));
    assert_eq!(tokens[1].token, Token::IntLiteral(0));
    assert_eq!(tokens[2].token, Token::IntLiteral(123456));
}

#[test]
fn test_integer_leading_zero_split() {
    let (tokens, diags) = tokenize("012", 0);
    assert!(diags.is_empty());
    assert_eq!(tokens.len(), 2);
    assert_eq!(tokens[0].token, Token::IntLiteral(0));
    assert_eq!(tokens[1].token, Token::IntLiteral(12));
}

#[test]
fn test_float_literal() {
    let (tokens, diags) = tokenize("3.14 0.5", 0);
    assert!(diags.is_empty());
    assert_eq!(tokens.len(), 2);
    assert!(matches!(float_value(&tokens[0].token), Some(f) if (f - 3.14).abs() < 0.001));
    assert!(matches!(float_value(&tokens[1].token), Some(f) if (f - 0.5).abs() < 0.001));
}

#[test]
fn test_string_literal() {
    let (tokens, diags) = tokenize(r#""hello" "world\n""#, 0);
    assert!(diags.is_empty());
    assert_eq!(tokens.len(), 2);
    assert_eq!(tokens[0].token, Token::StringLiteral("hello".to_string()));
    assert_eq!(tokens[1].token, Token::StringLiteral("world\n".to_string()));
}

#[test]
fn test_identifiers() {
    let (tokens, diags) = tokenize("myVar x123 _private", 0);
    assert!(diags.is_empty());
    assert_eq!(tokens.len(), 3);
    assert_eq!(tokens[0].token, Token::Identifier("myVar".to_string()));
    assert_eq!(tokens[1].token, Token::Identifier("x123".to_string()));
    assert_eq!(tokens[2].token, Token::Identifier("_private".to_string()));
}

#[test]
fn test_operators() {
    let (tokens, diags) = tokenize("+ - * / % = == != < <= > >= && || !", 0);
    assert!(diags.is_empty());
    assert_eq!(tokens.len(), 15);
    assert!(matches!(tokens[0].token, Token::Plus));
    assert!(matches!(tokens[4].token, Token::Percent));
    assert!(matches!(tokens[5].token, Token::Assign));
    assert!(matches!(tokens[8].token, Token::Less));
    assert!(matches!(tokens[9].token, Token::LessEqual));
    assert!(matches!(tokens[13].token, Token::OrOr));
}

#[test]
fn test_punctuation() {
    let (tokens, diags) = tokenize(". , : ; { } ( ) [ ] ? =>", 0);
    assert!(diags.is_empty());
    assert_eq!(tokens.len(), 12);
    assert!(matches!(tokens[0].token, Token::Dot));
    assert!(matches!(tokens[11].token, Token::Arrow));
}

#[test]
fn test_comments_are_skipped() {
    let (tokens, diags) = tokenize("x // line comment\ny /* block comment */ z", 0);
    assert!(diags.is_empty());
    assert_eq!(tokens.len(), 3);
    assert_eq!(tokens[0].token, Token::Identifier("x".to_string()));
    assert_eq!(tokens[1].token, Token::Identifier("y".to_string()));
    assert_eq!(tokens[2].token, Token::Identifier("z".to_string()));
}

#[test]
fn test_class_declaration() {
    let source = r#"
class MyClass extends BaseClass :: IFoo, IBar {
    int x = 0;
    string name = "hello";
}
"#;
    let (tokens, diags) = tokenize(source, 0);
    assert!(diags.is_empty());

    let token_kinds: Vec<_> = tokens.iter().map(|t| &t.token).collect();

    assert!(token_kinds.contains(&&Token::KwClass));
    assert!(token_kinds.contains(&&Token::Identifier("MyClass".into())));
    assert!(token_kinds.contains(&&Token::KwExtends));
    assert!(token_kinds.contains(&&Token::Identifier("BaseClass".into())));
    assert!(token_kinds.contains(&&Token::DoubleColon));
    assert!(token_kinds.contains(&&Token::Identifier("IFoo".into())));
    assert!(token_kinds.contains(&&Token::Identifier("IBar".into())));
}

#[test]
fn test_line_column_tracking() {
    let source = "x\ny\nz";
    let (tokens, _) = tokenize(source, 0);

    assert_eq!(tokens[0].span.line, 1);
    assert_eq!(tokens[0].span.column, 1);

    assert_eq!(tokens[1].span.line, 2);
    assert_eq!(tokens[1].span.column, 1);

    assert_eq!(tokens[2].span.line, 3);
    assert_eq!(tokens[2].span.column, 1);
}

// ---- further cases ----

#[test]
fn spans_are_byte_offsets() {
    let (tokens, diags) = tokenize("é = \"ü\" x", 3);
    // `é` is not a lexeme; it is reported as an error covering its two bytes.
    assert_eq!(diags.len(), 1);
    assert_eq!(diags[0].span.start, 0);
    assert_eq!(diags[0].span.end, 2);
    assert_eq!(diags[0].message, "unrecognized character: 'é'");
    assert_eq!(tokens.len(), 3);
    assert_eq!(tokens[0].token, Token::Assign);
    assert_eq!(tokens[0].span.start, 3);
    assert_eq!(tokens[0].span.column, 3);
    assert_eq!(tokens[1].token, Token::StringLiteral("ü".to_string()));
    assert_eq!(tokens[1].span.start, 5);
    assert_eq!(tokens[1].span.end, 9);
    assert_eq!(tokens[2].span.start, 10);
    assert_eq!(tokens[2].span.column, 9);
    assert_eq!(tokens[2].span.source_id, 3);
}

#[test]
fn longest_match_and_keyword_priority() {
    let (tokens, diags) = tokenize("classy class int32 ++= -> -- 1.x 0.25", 0);
    assert!(diags.is_empty());
    let kinds: Vec<Token> = tokens.into_iter().map(|t| t.token).collect();
    assert_eq!(
        kinds,
        vec![
            Token::Identifier("classy".to_string()),
            Token::KwClass,
            Token::Identifier("int32".to_string()),
            Token::PlusPlus,
            Token::Assign,
            Token::LambdaArrow,
            Token::MinusMinus,
            Token::IntLiteral(1),
            Token::Dot,
            Token::Identifier("x".to_string()),
            Token::FloatLiteral("0.25".to_string()),
        ]
    );
}

#[test]
fn errors_for_lone_ampersand_and_bar() {
    let (tokens, diags) = tokenize("a & b | c && d || e # f", 0);
    assert_eq!(diags.len(), 3);
    assert_eq!(diags[0].message, "unrecognized character: '&'");
    assert_eq!(diags[1].message, "unrecognized character: '|'");
    assert_eq!(diags[2].message, "unrecognized character: '#'");
    assert_eq!(tokens.len(), 8);
    assert_eq!(tokens[3].token, Token::AndAnd);
    assert_eq!(tokens[5].token, Token::OrOr);
}

#[test]
fn unterminated_string_is_one_error() {
    let (tokens, diags) = tokenize("x \"abc", 0);
    assert_eq!(tokens.len(), 1);
    assert_eq!(diags.len(), 1);
    assert_eq!(diags[0].span.start, 2);
    assert_eq!(diags[0].span.end, 6);
    assert_eq!(diags[0].message, "unrecognized character: '\"abc'");
}

#[test]
fn bad_escape_stops_before_escaped_char() {
    let (tokens, diags) = tokenize("\"a\\qb\"", 0);
    assert_eq!(diags.len(), 2);
    assert_eq!(diags[0].message, "unrecognized character: '\"a\\'");
    assert_eq!(tokens.len(), 1);
    assert_eq!(tokens[0].token, Token::Identifier("qb".to_string()));
    assert_eq!(diags[1].message, "unrecognized character: '\"'");
}

#[test]
fn escapes_are_decoded() {
    let (tokens, diags) = tokenize(r#""a\"b\\c\td\re""#, 0);
    assert!(diags.is_empty());
    assert_eq!(tokens[0].token, Token::StringLiteral("a\"b\\c\td\re".to_string()));
}

#[test]
fn unterminated_block_comment_is_slash_star() {
    let (tokens, diags) = tokenize("/* x", 0);
    assert!(diags.is_empty());
    let kinds: Vec<Token> = tokens.into_iter().map(|t| t.token).collect();
    assert_eq!(kinds, vec![Token::Slash, Token::Star, Token::Identifier("x".to_string())]);
}

#[test]
fn integer_overflow_is_an_error() {
    let (tokens, diags) = tokenize("9223372036854775807 9223372036854775808", 0);
    assert_eq!(tokens.len(), 1);
    assert_eq!(tokens[0].token, Token::IntLiteral(i64::MAX));
    assert_eq!(diags.len(), 1);
    assert_eq!(diags[0].span.start, 20);
    assert_eq!(diags[0].span.end, 39);
}

#[test]
fn offset_to_line_column_counts_chars() {
    assert_eq!(offset_to_line_column("ab\ncd", 0), (1, 1));
    assert_eq!(offset_to_line_column("ab\ncd", 2), (1, 3));
    assert_eq!(offset_to_line_column("ab\ncd", 3), (2, 1));
    assert_eq!(offset_to_line_column("ab\ncd", 100), (2, 3));
    assert_eq!(offset_to_line_column("éa", 2), (1, 2));
    assert_eq!(offset_to_line_column("éa", 1), (1, 2));
}
