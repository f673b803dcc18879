//! Syntax highlighting: each token of the source, with the class it is shown in.

use vstd::prelude::*;
use crate::lexer::{keyword_of, span_of, token_is, tokenize, tokens_from, Step, Token};
use crate::span::Span;
use crate::text::byte_len;

verus! {

/// How a stretch of source is shown.
#[derive(Debug, Clone, Copy, PartialEq, Eq, Structural)]
pub enum HighlightKind {
    Keyword,
    Type,
    String,
    Number,
    Comment,
    Identifier,
    Operator,
    Annotation,
}

/// A highlighted stretch of source.
#[derive(Debug, Clone, Copy, PartialEq, Eq, Structural)]
pub struct HighlightSpan {
    pub span: Span,
    pub kind: HighlightKind,
}

/// The class a token is shown in: keywords (`true` and `false` show as
/// numbers), primitive type names, literals, `@` of annotations, operators
/// and punctuation, identifiers.
pub open spec fn token_class(t: Token) -> HighlightKind {
    match t {
        Token::KwClass | Token::KwInterface | Token::KwEnum | Token::KwExtends | Token::KwNative
        | Token::KwStatic | Token::KwThis | Token::KwSuper | Token::KwNew | Token::KwInjector
        | Token::KwIf | Token::KwElse | Token::KwWhile | Token::KwFor | Token::KwDo
        | Token::KwSwitch | Token::KwCase | Token::KwDefault | Token::KwBreak | Token::KwContinue
        | Token::KwReturn | Token::KwUsing | Token::KwNamespace | Token::KwDelegate
        | Token::KwInject | Token::KwInvokes | Token::KwAuto | Token::KwNull => HighlightKind::Keyword,
        Token::TypeInt | Token::TypeFloat | Token::TypeBool | Token::TypeString | Token::TypeVoid
        | Token::TypeObject => HighlightKind::Type,
        Token::StringLiteral(_) => HighlightKind::String,
        Token::IntLiteral(_) | Token::FloatLiteral(_) | Token::KwTrue | Token::KwFalse => HighlightKind::Number,
        Token::At => HighlightKind::Annotation,
        Token::Identifier(_) => HighlightKind::Identifier,
        _ => HighlightKind::Operator,
    }
}

/// The class of the lexeme of kind `step` whose text is `text`.
pub open spec fn lexeme_class(step: Step, text: Seq<char>) -> HighlightKind {
    match step {
        Step::Punct(t) => token_class(t),
        Step::Word => match keyword_of(text) {
            Some(k) => token_class(k),
            None => HighlightKind::Identifier,
        },
        Step::Int | Step::Float => HighlightKind::Number,
        Step::Str => HighlightKind::String,
        _ => HighlightKind::Identifier,
    }
}

proof fn lemma_token_class(t: Token, step: Step, text: Seq<char>)
    requires
        token_is(t, step, text),
    ensures
        token_class(t) == lexeme_class(step, text),
{
}

/// The class that token `token` is shown in.
pub fn token_highlight_kind(token: &Token) -> (k: HighlightKind)
    ensures
        k == token_class(*token),
{
    match token {
        Token::KwClass | Token::KwInterface | Token::KwEnum | Token::KwExtends | Token::KwNative
        | Token::KwStatic | Token::KwThis | Token::KwSuper | Token::KwNew | Token::KwInjector
        | Token::KwIf | Token::KwElse | Token::KwWhile | Token::KwFor | Token::KwDo
        | Token::KwSwitch | Token::KwCase | Token::KwDefault | Token::KwBreak | Token::KwContinue
        | Token::KwReturn | Token::KwUsing | Token::KwNamespace | Token::KwDelegate
        | Token::KwInject | Token::KwInvokes | Token::KwAuto | Token::KwNull => HighlightKind::Keyword,
        Token::TypeInt | Token::TypeFloat | Token::TypeBool | Token::TypeString | Token::TypeVoid
        | Token::TypeObject => HighlightKind::Type,
        Token::StringLiteral(_) => HighlightKind::String,
        Token::IntLiteral(_) | Token::FloatLiteral(_) | Token::KwTrue | Token::KwFalse => HighlightKind::Number,
        Token::At => HighlightKind::Annotation,
        Token::Identifier(_) => HighlightKind::Identifier,
        _ => HighlightKind::Operator,
    }
}

/// The highlighted stretches of `source`: one per token the lexer finds, in
/// order, with the token's span; text the lexer rejects is not highlighted.
pub fn highlight(source: &str) -> (r: Vec<HighlightSpan>)
    requires
        byte_len(source@) < usize::MAX,
    ensures
        r@.len() == tokens_from(source@, 0).len(),
        forall|k: int|
            0 <= k < r@.len() ==> {
                let lx = tokens_from(source@, 0)[k];
                &&& (#[trigger] r@[k]).span == span_of(source@, lx.1, lx.2, 0)
                &&& r@[k].kind == lexeme_class(lx.0, source@.subrange(lx.1, lx.2))
            },
{
    let (tokens, _) = tokenize(source, 0);
    let ghost lexemes = tokens_from(source@, 0);
    let mut spans: Vec<HighlightSpan> = Vec::new();
    let mut i: usize = 0;
    while i < tokens.len()
        invariant
            i <= tokens@.len(),
            tokens@.len() == lexemes.len(),
            lexemes == tokens_from(source@, 0),
            forall|k: int|
                0 <= k < tokens@.len() ==> crate::lexer::token_ok(
                    #[trigger] tokens@[k],
                    lexemes[k],
                    source@,
                    0,
                ),
            spans@.len() == i,
            forall|k: int|
                0 <= k < i ==> {
                    let lx = lexemes[k];
                    &&& (#[trigger] spans@[k]).span == span_of(source@, lx.1, lx.2, 0)
                    &&& spans@[k].kind == lexeme_class(lx.0, source@.subrange(lx.1, lx.2))
                },
        decreases tokens.len() - i,
    {
        let ts = &tokens[i];
        let kind = token_highlight_kind(&ts.token);
        proof {
            assert(crate::lexer::token_ok(tokens@[i as int], lexemes[i as int], source@, 0));
            let lx = lexemes[i as int];
            lemma_token_class(ts.token, lx.0, source@.subrange(lx.1, lx.2));
        }
        spans.push(HighlightSpan { span: ts.span, kind });
        i = i + 1;
    }
    spans
}

} // verus!
