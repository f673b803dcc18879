//! The lexer: Gorge source text to tokens.
//!
//! At each position the longest lexeme wins; among lexemes of equal length a
//! keyword wins over an identifier. A position where no lexeme starts yields an
//! error covering the longest prefix that could still have begun a lexeme (at
//! least one character), and lexing resumes right after it. An integer literal
//! whose value does not fit in `i64` is an error as well.

use vstd::prelude::*;
use crate::span::{Span, Diagnostic, Severity};
use crate::text::{
    byte_len, byte_pos, char_width, chars_of, copy_range, lemma_byte_pos_mono, lemma_byte_pos_step,
    range_eq, string_from_chars,
};

verus! {

/// A lexical unit of Gorge source text.
///
/// Whitespace (space, tab, newline, carriage return), line comments `// ...` and
/// block comments `/* ... */` produce no token.
#[derive(Debug, Clone, PartialEq)]
pub enum Token {
    /// The keyword `class`.
    KwClass,
    /// The keyword `interface`.
    KwInterface,
    /// The keyword `enum`.
    KwEnum,
    /// The keyword `extends`.
    KwExtends,
    /// The keyword `native`.
    KwNative,
    /// The keyword `static`.
    KwStatic,
    /// The keyword `this`.
    KwThis,
    /// The keyword `super`.
    KwSuper,
    /// The keyword `new`.
    KwNew,
    /// The keyword `injector`.
    KwInjector,
    /// The keyword `inject`.
    KwInject,
    /// The keyword `invokes`.
    KwInvokes,
    /// The keyword `if`.
    KwIf,
    /// The keyword `else`.
    KwElse,
    /// The keyword `while`.
    KwWhile,
    /// The keyword `do`.
    KwDo,
    /// The keyword `for`.
    KwFor,
    /// The keyword `switch`.
    KwSwitch,
    /// The keyword `case`.
    KwCase,
    /// The keyword `default`.
    KwDefault,
    /// The keyword `break`.
    KwBreak,
    /// The keyword `continue`.
    KwContinue,
    /// The keyword `return`.
    KwReturn,
    /// The keyword `using`.
    KwUsing,
    /// The keyword `namespace`.
    KwNamespace,
    /// The keyword `delegate`.
    KwDelegate,
    /// The keyword `true`.
    KwTrue,
    /// The keyword `false`.
    KwFalse,
    /// The keyword `null`.
    KwNull,
    /// The keyword `auto`.
    KwAuto,
    /// The keyword `int`.
    TypeInt,
    /// The keyword `float`.
    TypeFloat,
    /// The keyword `bool`.
    TypeBool,
    /// The keyword `string`.
    TypeString,
    /// The keyword `void`.
    TypeVoid,
    /// The keyword `object`.
    TypeObject,
    /// A decimal integer literal without leading zeros, such as `42`.
    IntLiteral(i64),
    /// A decimal literal with a fractional part, such as `3.14`, kept as its source text.
    FloatLiteral(String),
    /// A double-quoted string literal, holding its contents with escapes decoded.
    StringLiteral(String),
    /// A name: a letter or `_`, then letters, digits or `_`; keywords excluded.
    Identifier(String),
    /// `+`
    Plus,
    /// `-`
    Minus,
    /// `*`
    Star,
    /// `/`
    Slash,
    /// `%`
    Percent,
    /// `=`
    Assign,
    /// `==`
    EqualEqual,
    /// `!=`
    NotEqual,
    /// `<`
    Less,
    /// `<=`
    LessEqual,
    /// `>`
    Greater,
    /// `>=`
    GreaterEqual,
    /// `&&`
    AndAnd,
    /// `||`
    OrOr,
    /// `!`
    Bang,
    /// `^`
    Caret,
    /// `->`
    LambdaArrow,
    /// `.`
    Dot,
    /// `,`
    Comma,
    /// `:`
    Colon,
    /// `::`
    DoubleColon,
    /// `;`
    Semicolon,
    /// `{`
    LBrace,
    /// `}`
    RBrace,
    /// `(`
    LParen,
    /// `)`
    RParen,
    /// `[`
    LBracket,
    /// `]`
    RBracket,
    /// `?`
    Question,
    /// `@`
    At,
    /// `=>`
    Arrow,
    /// `++`
    PlusPlus,
    /// `--`
    MinusMinus,
    /// `+=`
    PlusAssign,
    /// `-=`
    MinusAssign,
    /// `*=`
    StarAssign,
    /// `/=`
    SlashAssign,
    /// `%=`
    PercentAssign,
}

/// The fixed spelling of a keyword or punctuation token; `None` for the tokens that carry a value.
pub open spec fn spelling(t: Token) -> Option<Seq<char>> {
    match t {
        Token::KwClass => Some(seq!['c', 'l', 'a', 's', 's']),
        Token::KwInterface => Some(seq!['i', 'n', 't', 'e', 'r', 'f', 'a', 'c', 'e']),
        Token::KwEnum => Some(seq!['e', 'n', 'u', 'm']),
        Token::KwExtends => Some(seq!['e', 'x', 't', 'e', 'n', 'd', 's']),
        Token::KwNative => Some(seq!['n', 'a', 't', 'i', 'v', 'e']),
        Token::KwStatic => Some(seq!['s', 't', 'a', 't', 'i', 'c']),
        Token::KwThis => Some(seq!['t', 'h', 'i', 's']),
        Token::KwSuper => Some(seq!['s', 'u', 'p', 'e', 'r']),
        Token::KwNew => Some(seq!['n', 'e', 'w']),
        Token::KwInjector => Some(seq!['i', 'n', 'j', 'e', 'c', 't', 'o', 'r']),
        Token::KwInject => Some(seq!['i', 'n', 'j', 'e', 'c', 't']),
        Token::KwInvokes => Some(seq!['i', 'n', 'v', 'o', 'k', 'e', 's']),
        Token::KwIf => Some(seq!['i', 'f']),
        Token::KwElse => Some(seq!['e', 'l', 's', 'e']),
        Token::KwWhile => Some(seq!['w', 'h', 'i', 'l', 'e']),
        Token::KwDo => Some(seq!['d', 'o']),
        Token::KwFor => Some(seq!['f', 'o', 'r']),
        Token::KwSwitch => Some(seq!['s', 'w', 'i', 't', 'c', 'h']),
        Token::KwCase => Some(seq!['c', 'a', 's', 'e']),
        Token::KwDefault => Some(seq!['d', 'e', 'f', 'a', 'u', 'l', 't']),
        Token::KwBreak => Some(seq!['b', 'r', 'e', 'a', 'k']),
        Token::KwContinue => Some(seq!['c', 'o', 'n', 't', 'i', 'n', 'u', 'e']),
        Token::KwReturn => Some(seq!['r', 'e', 't', 'u', 'r', 'n']),
        Token::KwUsing => Some(seq!['u', 's', 'i', 'n', 'g']),
        Token::KwNamespace => Some(seq!['n', 'a', 'm', 'e', 's', 'p', 'a', 'c', 'e']),
        Token::KwDelegate => Some(seq!['d', 'e', 'l', 'e', 'g', 'a', 't', 'e']),
        Token::KwTrue => Some(seq!['t', 'r', 'u', 'e']),
        Token::KwFalse => Some(seq!['f', 'a', 'l', 's', 'e']),
        Token::KwNull => Some(seq!['n', 'u', 'l', 'l']),
        Token::KwAuto => Some(seq!['a', 'u', 't', 'o']),
        Token::TypeInt => Some(seq!['i', 'n', 't']),
        Token::TypeFloat => Some(seq!['f', 'l', 'o', 'a', 't']),
        Token::TypeBool => Some(seq!['b', 'o', 'o', 'l']),
        Token::TypeString => Some(seq!['s', 't', 'r', 'i', 'n', 'g']),
        Token::TypeVoid => Some(seq!['v', 'o', 'i', 'd']),
        Token::TypeObject => Some(seq!['o', 'b', 'j', 'e', 'c', 't']),
        Token::Plus => Some(seq!['+']),
        Token::Minus => Some(seq!['-']),
        Token::Star => Some(seq!['*']),
        Token::Slash => Some(seq!['/']),
        Token::Percent => Some(seq!['%']),
        Token::Assign => Some(seq!['=']),
        Token::EqualEqual => Some(seq!['=', '=']),
        Token::NotEqual => Some(seq!['!', '=']),
        Token::Less => Some(seq!['<']),
        Token::LessEqual => Some(seq!['<', '=']),
        Token::Greater => Some(seq!['>']),
        Token::GreaterEqual => Some(seq!['>', '=']),
        Token::AndAnd => Some(seq!['&', '&']),
        Token::OrOr => Some(seq!['|', '|']),
        Token::Bang => Some(seq!['!']),
        Token::Caret => Some(seq!['^']),
        Token::LambdaArrow => Some(seq!['-', '>']),
        Token::Dot => Some(seq!['.']),
        Token::Comma => Some(seq![',']),
        Token::Colon => Some(seq![':']),
        Token::DoubleColon => Some(seq![':', ':']),
        Token::Semicolon => Some(seq![';']),
        Token::LBrace => Some(seq!['{']),
        Token::RBrace => Some(seq!['}']),
        Token::LParen => Some(seq!['(']),
        Token::RParen => Some(seq![')']),
        Token::LBracket => Some(seq!['[']),
        Token::RBracket => Some(seq![']']),
        Token::Question => Some(seq!['?']),
        Token::At => Some(seq!['@']),
        Token::Arrow => Some(seq!['=', '>']),
        Token::PlusPlus => Some(seq!['+', '+']),
        Token::MinusMinus => Some(seq!['-', '-']),
        Token::PlusAssign => Some(seq!['+', '=']),
        Token::MinusAssign => Some(seq!['-', '=']),
        Token::StarAssign => Some(seq!['*', '=']),
        Token::SlashAssign => Some(seq!['/', '=']),
        Token::PercentAssign => Some(seq!['%', '=']),
        _ => None,
    }
}

/// The keyword token spelled `text`, if `text` is a keyword.
pub open spec fn keyword_of(text: Seq<char>) -> Option<Token> {
    if text == seq!['c', 'l', 'a', 's', 's'] {
        Some(Token::KwClass)
    } else if text == seq!['i', 'n', 't', 'e', 'r', 'f', 'a', 'c', 'e'] {
        Some(Token::KwInterface)
    } else if text == seq!['e', 'n', 'u', 'm'] {
        Some(Token::KwEnum)
    } else if text == seq!['e', 'x', 't', 'e', 'n', 'd', 's'] {
        Some(Token::KwExtends)
    } else if text == seq!['n', 'a', 't', 'i', 'v', 'e'] {
        Some(Token::KwNative)
    } else if text == seq!['s', 't', 'a', 't', 'i', 'c'] {
        Some(Token::KwStatic)
    } else if text == seq!['t', 'h', 'i', 's'] {
        Some(Token::KwThis)
    } else if text == seq!['s', 'u', 'p', 'e', 'r'] {
        Some(Token::KwSuper)
    } else if text == seq!['n', 'e', 'w'] {
        Some(Token::KwNew)
    } else if text == seq!['i', 'n', 'j', 'e', 'c', 't', 'o', 'r'] {
        Some(Token::KwInjector)
    } else if text == seq!['i', 'n', 'j', 'e', 'c', 't'] {
        Some(Token::KwInject)
    } else if text == seq!['i', 'n', 'v', 'o', 'k', 'e', 's'] {
        Some(Token::KwInvokes)
    } else if text == seq!['i', 'f'] {
        Some(Token::KwIf)
    } else if text == seq!['e', 'l', 's', 'e'] {
        Some(Token::KwElse)
    } else if text == seq!['w', 'h', 'i', 'l', 'e'] {
        Some(Token::KwWhile)
    } else if text == seq!['d', 'o'] {
        Some(Token::KwDo)
    } else if text == seq!['f', 'o', 'r'] {
        Some(Token::KwFor)
    } else if text == seq!['s', 'w', 'i', 't', 'c', 'h'] {
        Some(Token::KwSwitch)
    } else if text == seq!['c', 'a', 's', 'e'] {
        Some(Token::KwCase)
    } else if text == seq!['d', 'e', 'f', 'a', 'u', 'l', 't'] {
        Some(Token::KwDefault)
    } else if text == seq!['b', 'r', 'e', 'a', 'k'] {
        Some(Token::KwBreak)
    } else if text == seq!['c', 'o', 'n', 't', 'i', 'n', 'u', 'e'] {
        Some(Token::KwContinue)
    } else if text == seq!['r', 'e', 't', 'u', 'r', 'n'] {
        Some(Token::KwReturn)
    } else if text == seq!['u', 's', 'i', 'n', 'g'] {
        Some(Token::KwUsing)
    } else if text == seq!['n', 'a', 'm', 'e', 's', 'p', 'a', 'c', 'e'] {
        Some(Token::KwNamespace)
    } else if text == seq!['d', 'e', 'l', 'e', 'g', 'a', 't', 'e'] {
        Some(Token::KwDelegate)
    } else if text == seq!['t', 'r', 'u', 'e'] {
        Some(Token::KwTrue)
    } else if text == seq!['f', 'a', 'l', 's', 'e'] {
        Some(Token::KwFalse)
    } else if text == seq!['n', 'u', 'l', 'l'] {
        Some(Token::KwNull)
    } else if text == seq!['a', 'u', 't', 'o'] {
        Some(Token::KwAuto)
    } else if text == seq!['i', 'n', 't'] {
        Some(Token::TypeInt)
    } else if text == seq!['f', 'l', 'o', 'a', 't'] {
        Some(Token::TypeFloat)
    } else if text == seq!['b', 'o', 'o', 'l'] {
        Some(Token::TypeBool)
    } else if text == seq!['s', 't', 'r', 'i', 'n', 'g'] {
        Some(Token::TypeString)
    } else if text == seq!['v', 'o', 'i', 'd'] {
        Some(Token::TypeVoid)
    } else if text == seq!['o', 'b', 'j', 'e', 'c', 't'] {
        Some(Token::TypeObject)
    } else {
        None
    }
}

/// The keyword spelled by `chars[lo..hi]`, if any.
fn keyword_lookup(chars: &[char], lo: usize, hi: usize) -> (r: Option<Token>)
    requires
        lo <= hi <= chars@.len(),
    ensures
        r == keyword_of(chars@.subrange(lo as int, hi as int)),
{
    let ghost text = chars@.subrange(lo as int, hi as int);
    let lit = ['c', 'l', 'a', 's', 's'];
    assert(lit@ =~= seq!['c', 'l', 'a', 's', 's']);
    if range_eq(chars, lo, hi, &lit) {
        return Some(Token::KwClass);
    }
    let lit = ['i', 'n', 't', 'e', 'r', 'f', 'a', 'c', 'e'];
    assert(lit@ =~= seq!['i', 'n', 't', 'e', 'r', 'f', 'a', 'c', 'e']);
    if range_eq(chars, lo, hi, &lit) {
        return Some(Token::KwInterface);
    }
    let lit = ['e', 'n', 'u', 'm'];
    assert(lit@ =~= seq!['e', 'n', 'u', 'm']);
    if range_eq(chars, lo, hi, &lit) {
        return Some(Token::KwEnum);
    }
    let lit = ['e', 'x', 't', 'e', 'n', 'd', 's'];
    assert(lit@ =~= seq!['e', 'x', 't', 'e', 'n', 'd', 's']);
    if range_eq(chars, lo, hi, &lit) {
        return Some(Token::KwExtends);
    }
    let lit = ['n', 'a', 't', 'i', 'v', 'e'];
    assert(lit@ =~= seq!['n', 'a', 't', 'i', 'v', 'e']);
    if range_eq(chars, lo, hi, &lit) {
        return Some(Token::KwNative);
    }
    let lit = ['s', 't', 'a', 't', 'i', 'c'];
    assert(lit@ =~= seq!['s', 't', 'a', 't', 'i', 'c']);
    if range_eq(chars, lo, hi, &lit) {
        return Some(Token::KwStatic);
    }
    let lit = ['t', 'h', 'i', 's'];
    assert(lit@ =~= seq!['t', 'h', 'i', 's']);
    if range_eq(chars, lo, hi, &lit) {
        return Some(Token::KwThis);
    }
    let lit = ['s', 'u', 'p', 'e', 'r'];
    assert(lit@ =~= seq!['s', 'u', 'p', 'e', 'r']);
    if range_eq(chars, lo, hi, &lit) {
        return Some(Token::KwSuper);
    }
    let lit = ['n', 'e', 'w'];
    assert(lit@ =~= seq!['n', 'e', 'w']);
    if range_eq(chars, lo, hi, &lit) {
        return Some(Token::KwNew);
    }
    let lit = ['i', 'n', 'j', 'e', 'c', 't', 'o', 'r'];
    assert(lit@ =~= seq!['i', 'n', 'j', 'e', 'c', 't', 'o', 'r']);
    if range_eq(chars, lo, hi, &lit) {
        return Some(Token::KwInjector);
    }
    let lit = ['i', 'n', 'j', 'e', 'c', 't'];
    assert(lit@ =~= seq!['i', 'n', 'j', 'e', 'c', 't']);
    if range_eq(chars, lo, hi, &lit) {
        return Some(Token::KwInject);
    }
    let lit = ['i', 'n', 'v', 'o', 'k', 'e', 's'];
    assert(lit@ =~= seq!['i', 'n', 'v', 'o', 'k', 'e', 's']);
    if range_eq(chars, lo, hi, &lit) {
        return Some(Token::KwInvokes);
    }
    let lit = ['i', 'f'];
    assert(lit@ =~= seq!['i', 'f']);
    if range_eq(chars, lo, hi, &lit) {
        return Some(Token::KwIf);
    }
    let lit = ['e', 'l', 's', 'e'];
    assert(lit@ =~= seq!['e', 'l', 's', 'e']);
    if range_eq(chars, lo, hi, &lit) {
        return Some(Token::KwElse);
    }
    let lit = ['w', 'h', 'i', 'l', 'e'];
    assert(lit@ =~= seq!['w', 'h', 'i', 'l', 'e']);
    if range_eq(chars, lo, hi, &lit) {
        return Some(Token::KwWhile);
    }
    let lit = ['d', 'o'];
    assert(lit@ =~= seq!['d', 'o']);
    if range_eq(chars, lo, hi, &lit) {
        return Some(Token::KwDo);
    }
    let lit = ['f', 'o', 'r'];
    assert(lit@ =~= seq!['f', 'o', 'r']);
    if range_eq(chars, lo, hi, &lit) {
        return Some(Token::KwFor);
    }
    let lit = ['s', 'w', 'i', 't', 'c', 'h'];
    assert(lit@ =~= seq!['s', 'w', 'i', 't', 'c', 'h']);
    if range_eq(chars, lo, hi, &lit) {
        return Some(Token::KwSwitch);
    }
    let lit = ['c', 'a', 's', 'e'];
    assert(lit@ =~= seq!['c', 'a', 's', 'e']);
    if range_eq(chars, lo, hi, &lit) {
        return Some(Token::KwCase);
    }
    let lit = ['d', 'e', 'f', 'a', 'u', 'l', 't'];
    assert(lit@ =~= seq!['d', 'e', 'f', 'a', 'u', 'l', 't']);
    if range_eq(chars, lo, hi, &lit) {
        return Some(Token::KwDefault);
    }
    let lit = ['b', 'r', 'e', 'a', 'k'];
    assert(lit@ =~= seq!['b', 'r', 'e', 'a', 'k']);
    if range_eq(chars, lo, hi, &lit) {
        return Some(Token::KwBreak);
    }
    let lit = ['c', 'o', 'n', 't', 'i', 'n', 'u', 'e'];
    assert(lit@ =~= seq!['c', 'o', 'n', 't', 'i', 'n', 'u', 'e']);
    if range_eq(chars, lo, hi, &lit) {
        return Some(Token::KwContinue);
    }
    let lit = ['r', 'e', 't', 'u', 'r', 'n'];
    assert(lit@ =~= seq!['r', 'e', 't', 'u', 'r', 'n']);
    if range_eq(chars, lo, hi, &lit) {
        return Some(Token::KwReturn);
    }
    let lit = ['u', 's', 'i', 'n', 'g'];
    assert(lit@ =~= seq!['u', 's', 'i', 'n', 'g']);
    if range_eq(chars, lo, hi, &lit) {
        return Some(Token::KwUsing);
    }
    let lit = ['n', 'a', 'm', 'e', 's', 'p', 'a', 'c', 'e'];
    assert(lit@ =~= seq!['n', 'a', 'm', 'e', 's', 'p', 'a', 'c', 'e']);
    if range_eq(chars, lo, hi, &lit) {
        return Some(Token::KwNamespace);
    }
    let lit = ['d', 'e', 'l', 'e', 'g', 'a', 't', 'e'];
    assert(lit@ =~= seq!['d', 'e', 'l', 'e', 'g', 'a', 't', 'e']);
    if range_eq(chars, lo, hi, &lit) {
        return Some(Token::KwDelegate);
    }
    let lit = ['t', 'r', 'u', 'e'];
    assert(lit@ =~= seq!['t', 'r', 'u', 'e']);
    if range_eq(chars, lo, hi, &lit) {
        return Some(Token::KwTrue);
    }
    let lit = ['f', 'a', 'l', 's', 'e'];
    assert(lit@ =~= seq!['f', 'a', 'l', 's', 'e']);
    if range_eq(chars, lo, hi, &lit) {
        return Some(Token::KwFalse);
    }
    let lit = ['n', 'u', 'l', 'l'];
    assert(lit@ =~= seq!['n', 'u', 'l', 'l']);
    if range_eq(chars, lo, hi, &lit) {
        return Some(Token::KwNull);
    }
    let lit = ['a', 'u', 't', 'o'];
    assert(lit@ =~= seq!['a', 'u', 't', 'o']);
    if range_eq(chars, lo, hi, &lit) {
        return Some(Token::KwAuto);
    }
    let lit = ['i', 'n', 't'];
    assert(lit@ =~= seq!['i', 'n', 't']);
    if range_eq(chars, lo, hi, &lit) {
        return Some(Token::TypeInt);
    }
    let lit = ['f', 'l', 'o', 'a', 't'];
    assert(lit@ =~= seq!['f', 'l', 'o', 'a', 't']);
    if range_eq(chars, lo, hi, &lit) {
        return Some(Token::TypeFloat);
    }
    let lit = ['b', 'o', 'o', 'l'];
    assert(lit@ =~= seq!['b', 'o', 'o', 'l']);
    if range_eq(chars, lo, hi, &lit) {
        return Some(Token::TypeBool);
    }
    let lit = ['s', 't', 'r', 'i', 'n', 'g'];
    assert(lit@ =~= seq!['s', 't', 'r', 'i', 'n', 'g']);
    if range_eq(chars, lo, hi, &lit) {
        return Some(Token::TypeString);
    }
    let lit = ['v', 'o', 'i', 'd'];
    assert(lit@ =~= seq!['v', 'o', 'i', 'd']);
    if range_eq(chars, lo, hi, &lit) {
        return Some(Token::TypeVoid);
    }
    let lit = ['o', 'b', 'j', 'e', 'c', 't'];
    assert(lit@ =~= seq!['o', 'b', 'j', 'e', 'c', 't']);
    if range_eq(chars, lo, hi, &lit) {
        return Some(Token::TypeObject);
    }
    None
}

/// A token together with its position in the source.
#[derive(Debug, Clone)]
pub struct TokenSpan {
    pub token: Token,
    pub span: Span,
}

impl TokenSpan {
    pub fn new(token: Token, span: Span) -> (t: TokenSpan)
        ensures
            t.token == token,
            t.span == span,
    {
        TokenSpan { token, span }
    }
}

// ==================== character classes ====================

pub open spec fn is_space(c: char) -> bool {
    c == ' ' || c == '\t' || c == '\n' || c == '\r'
}

pub open spec fn is_digit(c: char) -> bool {
    ('0' as u32) <= (c as u32) <= ('9' as u32)
}

pub open spec fn is_ident_start(c: char) -> bool {
    ||| ('a' as u32) <= (c as u32) <= ('z' as u32)
    ||| ('A' as u32) <= (c as u32) <= ('Z' as u32)
    ||| c == '_'
}

pub open spec fn is_ident_char(c: char) -> bool {
    is_ident_start(c) || is_digit(c)
}

/// The characters that may follow a backslash inside a string literal.
pub open spec fn is_escape_code(c: char) -> bool {
    c == '\\' || c == '"' || c == 'n' || c == 'r' || c == 't'
}

fn is_space_c(c: char) -> (b: bool)
    ensures
        b == is_space(c),
{
    c == ' ' || c == '\t' || c == '\n' || c == '\r'
}

fn is_digit_c(c: char) -> (b: bool)
    ensures
        b == is_digit(c),
{
    '0' as u32 <= c as u32 && c as u32 <= '9' as u32
}

fn is_ident_start_c(c: char) -> (b: bool)
    ensures
        b == is_ident_start(c),
{
    let u = c as u32;
    ('a' as u32 <= u && u <= 'z' as u32) || ('A' as u32 <= u && u <= 'Z' as u32) || c == '_'
}

fn is_ident_char_c(c: char) -> (b: bool)
    ensures
        b == is_ident_char(c),
{
    is_ident_start_c(c) || is_digit_c(c)
}

fn is_escape_code_c(c: char) -> (b: bool)
    ensures
        b == is_escape_code(c),
{
    c == '\\' || c == '"' || c == 'n' || c == 'r' || c == 't'
}

// ==================== lexeme boundaries ====================

/// Whether the character after position `i` exists and is `c`.
pub open spec fn next_is(s: Seq<char>, i: int, c: char) -> bool {
    0 <= i + 1 < s.len() && s[i + 1] == c
}

/// The end of the run of whitespace that starts at `i`.
pub open spec fn space_end(s: Seq<char>, i: int) -> int
    decreases s.len() - i,
{
    if 0 <= i < s.len() && is_space(s[i]) {
        space_end(s, i + 1)
    } else {
        i
    }
}

/// The end of the run of identifier characters that starts at `i`.
pub open spec fn ident_end(s: Seq<char>, i: int) -> int
    decreases s.len() - i,
{
    if 0 <= i < s.len() && is_ident_char(s[i]) {
        ident_end(s, i + 1)
    } else {
        i
    }
}

/// The end of the run of decimal digits that starts at `i`.
pub open spec fn digits_end(s: Seq<char>, i: int) -> int
    decreases s.len() - i,
{
    if 0 <= i < s.len() && is_digit(s[i]) {
        digits_end(s, i + 1)
    } else {
        i
    }
}

/// The position of the first newline at or after `i`, or the end of the text.
pub open spec fn line_end(s: Seq<char>, i: int) -> int
    decreases s.len() - i,
{
    if 0 <= i < s.len() && s[i] != '\n' {
        line_end(s, i + 1)
    } else {
        i
    }
}

/// The position just after the first `*/` that starts at or after `j`.
pub open spec fn block_close(s: Seq<char>, j: int) -> Option<int>
    decreases s.len() - j,
{
    if j < 0 || j + 1 >= s.len() {
        None
    } else if s[j] == '*' && s[j + 1] == '/' {
        Some(j + 2)
    } else {
        block_close(s, j + 1)
    }
}

/// Scans the body of a string literal from `j` (just after the opening quote).
/// Returns whether the closing quote was reached and where the scan stopped:
/// just after the closing quote, or at the first character that cannot continue
/// the literal (the text after a backslash that is not an escape code, or the end).
pub open spec fn string_end(s: Seq<char>, j: int) -> (bool, int)
    decreases s.len() - j,
{
    if j < 0 || j >= s.len() {
        (false, s.len() as int)
    } else if s[j] == '"' {
        (true, j + 1)
    } else if s[j] == '\\' {
        if j + 1 < s.len() && is_escape_code(s[j + 1]) {
            string_end(s, j + 2)
        } else {
            (false, j + 1)
        }
    } else {
        string_end(s, j + 1)
    }
}

/// The numeric value of a run of decimal digits.
pub open spec fn decimal_value(t: Seq<char>) -> nat
    decreases t.len(),
{
    if t.len() == 0 {
        0
    } else {
        decimal_value(t.drop_last()) * 10 + ((t.last() as u32) - ('0' as u32)) as nat
    }
}

/// The punctuation token that starts at `i` (the longest one), and its end.
pub open spec fn punct_at(s: Seq<char>, i: int) -> Option<(Token, int)> {
    let c = s[i];
    if c == '+' {
        if next_is(s, i, '+') {
            Some((Token::PlusPlus, i + 2))
        } else if next_is(s, i, '=') {
            Some((Token::PlusAssign, i + 2))
        } else {
            Some((Token::Plus, i + 1))
        }
    } else if c == '-' {
        if next_is(s, i, '-') {
            Some((Token::MinusMinus, i + 2))
        } else if next_is(s, i, '=') {
            Some((Token::MinusAssign, i + 2))
        } else if next_is(s, i, '>') {
            Some((Token::LambdaArrow, i + 2))
        } else {
            Some((Token::Minus, i + 1))
        }
    } else if c == '*' {
        if next_is(s, i, '=') {
            Some((Token::StarAssign, i + 2))
        } else {
            Some((Token::Star, i + 1))
        }
    } else if c == '/' {
        if next_is(s, i, '=') {
            Some((Token::SlashAssign, i + 2))
        } else {
            Some((Token::Slash, i + 1))
        }
    } else if c == '%' {
        if next_is(s, i, '=') {
            Some((Token::PercentAssign, i + 2))
        } else {
            Some((Token::Percent, i + 1))
        }
    } else if c == '=' {
        if next_is(s, i, '=') {
            Some((Token::EqualEqual, i + 2))
        } else if next_is(s, i, '>') {
            Some((Token::Arrow, i + 2))
        } else {
            Some((Token::Assign, i + 1))
        }
    } else if c == '!' {
        if next_is(s, i, '=') {
            Some((Token::NotEqual, i + 2))
        } else {
            Some((Token::Bang, i + 1))
        }
    } else if c == '<' {
        if next_is(s, i, '=') {
            Some((Token::LessEqual, i + 2))
        } else {
            Some((Token::Less, i + 1))
        }
    } else if c == '>' {
        if next_is(s, i, '=') {
            Some((Token::GreaterEqual, i + 2))
        } else {
            Some((Token::Greater, i + 1))
        }
    } else if c == '&' {
        if next_is(s, i, '&') {
            Some((Token::AndAnd, i + 2))
        } else {
            None
        }
    } else if c == '|' {
        if next_is(s, i, '|') {
            Some((Token::OrOr, i + 2))
        } else {
            None
        }
    } else if c == ':' {
        if next_is(s, i, ':') {
            Some((Token::DoubleColon, i + 2))
        } else {
            Some((Token::Colon, i + 1))
        }
    } else if c == '^' {
        Some((Token::Caret, i + 1))
    } else if c == '.' {
        Some((Token::Dot, i + 1))
    } else if c == ',' {
        Some((Token::Comma, i + 1))
    } else if c == ';' {
        Some((Token::Semicolon, i + 1))
    } else if c == '{' {
        Some((Token::LBrace, i + 1))
    } else if c == '}' {
        Some((Token::RBrace, i + 1))
    } else if c == '(' {
        Some((Token::LParen, i + 1))
    } else if c == ')' {
        Some((Token::RParen, i + 1))
    } else if c == '[' {
        Some((Token::LBracket, i + 1))
    } else if c == ']' {
        Some((Token::RBracket, i + 1))
    } else if c == '?' {
        Some((Token::Question, i + 1))
    } else if c == '@' {
        Some((Token::At, i + 1))
    } else {
        None
    }
}

/// Every punctuation token found at `i` spells the text it was read from:
/// its fixed spelling is the characters from `i` to where it ends.
pub proof fn lemma_punct_spells_its_text(s: Seq<char>, i: int)
    requires
        0 <= i < s.len(),
        punct_at(s, i) is Some,
    ensures
        i < (punct_at(s, i)->0).1 <= s.len(),
        spelling((punct_at(s, i)->0).0) == Some(s.subrange(i, (punct_at(s, i)->0).1)),
{
    let (t, e) = punct_at(s, i)->0;
    if e == i + 2 {
        assert(s.subrange(i, e) =~= seq![s[i], s[i + 1]]);
    } else {
        assert(s.subrange(i, e) =~= seq![s[i]]);
    }
}

/// A keyword token spells the word it was read from.
pub proof fn lemma_keyword_spells_its_text(text: Seq<char>)
    requires
        keyword_of(text) is Some,
    ensures
        spelling(keyword_of(text)->0) == Some(text),
{
}

/// What the lexeme that starts at a position is.
pub enum Step {
    /// Whitespace or a comment.
    Skip,
    /// A keyword-free punctuation token.
    Punct(Token),
    /// An identifier or a keyword.
    Word,
    /// An integer literal whose value fits in `i64`.
    Int,
    /// A literal with a fractional part.
    Float,
    /// A complete string literal, quotes included.
    Str,
    /// Text that starts no lexeme.
    Bad,
}

/// The number lexeme that starts at `i` (a digit) and its end.
pub open spec fn number_at(s: Seq<char>, i: int) -> (Step, int) {
    let int_end = if s[i] == '0' { i + 1 } else { digits_end(s, i + 1) };
    if int_end + 1 < s.len() && s[int_end] == '.' && is_digit(s[int_end + 1]) {
        (Step::Float, digits_end(s, int_end + 1))
    } else if decimal_value(s.subrange(i, int_end)) <= i64::MAX {
        (Step::Int, int_end)
    } else {
        (Step::Bad, int_end)
    }
}

/// The lexeme that starts at position `i` and the position where it ends.
pub open spec fn step_at(s: Seq<char>, i: int) -> (Step, int) {
    let c = s[i];
    if is_space(c) {
        (Step::Skip, space_end(s, i))
    } else if is_ident_start(c) {
        (Step::Word, ident_end(s, i))
    } else if is_digit(c) {
        number_at(s, i)
    } else if c == '"' {
        let r = string_end(s, i + 1);
        if r.0 {
            (Step::Str, r.1)
        } else {
            (Step::Bad, r.1)
        }
    } else if c == '/' && next_is(s, i, '/') {
        (Step::Skip, line_end(s, i))
    } else if c == '/' && next_is(s, i, '*') && block_close(s, i + 2) is Some {
        (Step::Skip, block_close(s, i + 2)->0)
    } else {
        match punct_at(s, i) {
            Some(p) => (Step::Punct(p.0), p.1),
            None => (Step::Bad, i + 1),
        }
    }
}

/// The token lexemes of `s` from position `i` on: their kind, start and end.
pub open spec fn tokens_from(s: Seq<char>, i: int) -> Seq<(Step, int, int)>
    decreases s.len() - i,
{
    if i < 0 || i >= s.len() {
        Seq::empty()
    } else {
        let (k, e) = step_at(s, i);
        if e <= i || e > s.len() {
            Seq::empty()
        } else if k is Skip || k is Bad {
            tokens_from(s, e)
        } else {
            seq![(k, i, e)] + tokens_from(s, e)
        }
    }
}

/// Each lexeme of `tokens_from(s, i)` is a token lexeme that starts at its
/// start and ends at its end, inside `s` and after `i`.
pub proof fn lemma_tokens_from_lexemes(s: Seq<char>, i: int, k: int)
    requires
        0 <= k < tokens_from(s, i).len(),
    ensures
        i <= tokens_from(s, i)[k].1 < tokens_from(s, i)[k].2 <= s.len(),
        step_at(s, tokens_from(s, i)[k].1) == (tokens_from(s, i)[k].0, tokens_from(s, i)[k].2),
    decreases s.len() - i,
{
    let (st, e) = step_at(s, i);
    if !(i < 0 || i >= s.len()) && !(e <= i || e > s.len()) {
        if st is Skip || st is Bad {
            lemma_tokens_from_lexemes(s, e, k);
        } else if k > 0 {
            assert(tokens_from(s, i)[k] == tokens_from(s, e)[k - 1]);
            lemma_tokens_from_lexemes(s, e, k - 1);
        }
    }
}

/// Whatever token stands for a lexeme, where the token has a fixed spelling
/// (a keyword or punctuation), it spells exactly the lexeme's text.
pub proof fn lemma_lexeme_token_spelling(s: Seq<char>, k: int, tok: Token)
    requires
        0 <= k < tokens_from(s, 0).len(),
        token_is(tok, tokens_from(s, 0)[k].0, s.subrange(tokens_from(s, 0)[k].1, tokens_from(s, 0)[k].2)),
        spelling(tok) is Some,
    ensures
        spelling(tok) == Some(s.subrange(tokens_from(s, 0)[k].1, tokens_from(s, 0)[k].2)),
{
    let (st, lo, hi) = tokens_from(s, 0)[k];
    lemma_tokens_from_lexemes(s, 0, k);
    let text = s.subrange(lo, hi);
    match st {
        Step::Punct(t) => {
            assert(punct_at(s, lo) == Some((t, hi)));
            lemma_punct_spells_its_text(s, lo);
        },
        Step::Word => {
            if keyword_of(text) is Some {
                lemma_keyword_spells_its_text(text);
            }
        },
        _ => {},
    }
}

/// The erroneous stretches of `s` from position `i` on: their start and end.
pub open spec fn errors_from(s: Seq<char>, i: int) -> Seq<(int, int)>
    decreases s.len() - i,
{
    if i < 0 || i >= s.len() {
        Seq::empty()
    } else {
        let (k, e) = step_at(s, i);
        if e <= i || e > s.len() {
            Seq::empty()
        } else if k is Bad {
            seq![(i, e)] + errors_from(s, e)
        } else {
            errors_from(s, e)
        }
    }
}

/// The 1-based line and column reached after the first `k` characters of `s`.
pub open spec fn line_col(s: Seq<char>, k: int) -> (nat, nat)
    decreases k,
{
    if k <= 0 {
        (1, 1)
    } else {
        let p = line_col(s, k - 1);
        if s[k - 1] == '\n' {
            (p.0 + 1, 1)
        } else {
            (p.0, p.1 + 1)
        }
    }
}

/// The span of the characters `lo..hi` of `s`, in file `sid`.
pub open spec fn span_of(s: Seq<char>, lo: int, hi: int, sid: usize) -> Span {
    Span {
        start: byte_pos(s, lo) as usize,
        end: byte_pos(s, hi) as usize,
        line: line_col(s, lo).0 as usize,
        column: line_col(s, lo).1 as usize,
        source_id: sid,
    }
}

/// The characters a string literal body stands for, escapes decoded: `\\`,
/// `\"`, `\n`, `\r`, `\t` give the escaped character, any other backslash pair
/// is kept as written, and a lone trailing backslash is dropped.
pub open spec fn unescape(t: Seq<char>) -> Seq<char>
    decreases t.len(),
{
    if t.len() == 0 {
        Seq::empty()
    } else if t[0] == '\\' {
        if t.len() == 1 {
            Seq::empty()
        } else {
            escaped(t[1]) + unescape(t.skip(2))
        }
    } else {
        seq![t[0]] + unescape(t.skip(1))
    }
}

pub open spec fn escaped(c: char) -> Seq<char> {
    if c == '\\' {
        seq!['\\']
    } else if c == '"' {
        seq!['"']
    } else if c == 'n' {
        seq!['\n']
    } else if c == 'r' {
        seq!['\r']
    } else if c == 't' {
        seq!['\t']
    } else {
        seq!['\\', c]
    }
}

/// Whether `tok` is the token that the lexeme `text` of kind `step` stands for.
pub open spec fn token_is(tok: Token, step: Step, text: Seq<char>) -> bool {
    match step {
        Step::Punct(t) => tok == t,
        Step::Word => match keyword_of(text) {
            Some(k) => tok == k,
            None => tok matches Token::Identifier(name) && name@ == text,
        },
        Step::Int => tok matches Token::IntLiteral(v) && v == decimal_value(text),
        Step::Float => tok matches Token::FloatLiteral(t) && t@ == text,
        Step::Str => tok matches Token::StringLiteral(v) && v@ == unescape(
            text.subrange(1, text.len() - 1),
        ),
        _ => false,
    }
}

/// Whether `t` is the token, with its span, for the lexeme `lx` of `s`.
pub open spec fn token_ok(t: TokenSpan, lx: (Step, int, int), s: Seq<char>, sid: usize) -> bool {
    &&& t.span == span_of(s, lx.1, lx.2, sid)
    &&& token_is(t.token, lx.0, s.subrange(lx.1, lx.2))
}

/// The message reported for text that starts no lexeme.
pub open spec fn unrecognized_message(text: Seq<char>) -> Seq<char> {
    "unrecognized character: '"@ + text + "'"@
}

/// Whether `d` is the diagnostic for the erroneous stretch `lx` of `s`.
pub open spec fn diag_ok(d: Diagnostic, lx: (int, int), s: Seq<char>, sid: usize) -> bool {
    &&& d.severity == Severity::Error
    &&& d.span == span_of(s, lx.0, lx.1, sid)
    &&& d.message@ == unrecognized_message(s.subrange(lx.0, lx.1))
}

// ==================== scanning ====================

fn peek_is(chars: &[char], i: usize, c: char) -> (b: bool)
    requires
        i < chars@.len(),
    ensures
        b == next_is(chars@, i as int, c),
{
    chars.len() - i > 1 && chars[i + 1] == c
}

fn space_end_exec(chars: &[char], i: usize) -> (e: usize)
    requires
        i <= chars@.len(),
    ensures
        e == space_end(chars@, i as int),
        i <= e <= chars@.len(),
{
    let mut j = i;
    while j < chars.len() && is_space_c(chars[j])
        invariant
            i <= j <= chars@.len(),
            space_end(chars@, i as int) == space_end(chars@, j as int),
        decreases chars@.len() - j,
    {
        j += 1;
    }
    j
}

fn ident_end_exec(chars: &[char], i: usize) -> (e: usize)
    requires
        i <= chars@.len(),
    ensures
        e == ident_end(chars@, i as int),
        i <= e <= chars@.len(),
{
    let mut j = i;
    while j < chars.len() && is_ident_char_c(chars[j])
        invariant
            i <= j <= chars@.len(),
            ident_end(chars@, i as int) == ident_end(chars@, j as int),
        decreases chars@.len() - j,
    {
        j += 1;
    }
    j
}

fn digits_end_exec(chars: &[char], i: usize) -> (e: usize)
    requires
        i <= chars@.len(),
    ensures
        e == digits_end(chars@, i as int),
        i <= e <= chars@.len(),
{
    let mut j = i;
    while j < chars.len() && is_digit_c(chars[j])
        invariant
            i <= j <= chars@.len(),
            digits_end(chars@, i as int) == digits_end(chars@, j as int),
        decreases chars@.len() - j,
    {
        j += 1;
    }
    j
}

fn line_end_exec(chars: &[char], i: usize) -> (e: usize)
    requires
        i <= chars@.len(),
    ensures
        e == line_end(chars@, i as int),
        i <= e <= chars@.len(),
{
    let mut j = i;
    while j < chars.len() && chars[j] != '\n'
        invariant
            i <= j <= chars@.len(),
            line_end(chars@, i as int) == line_end(chars@, j as int),
        decreases chars@.len() - j,
    {
        j += 1;
    }
    j
}

fn block_close_exec(chars: &[char], j: usize) -> (r: Option<usize>)
    requires
        j <= chars@.len(),
    ensures
        r matches Some(e) ==> block_close(chars@, j as int) == Some(e as int) && j + 2 <= e <= chars@.len(),
        r is None ==> block_close(chars@, j as int) is None,
{
    let mut k = j;
    while k < chars.len() && k + 1 < chars.len()
        invariant
            j <= k <= chars@.len(),
            block_close(chars@, j as int) == block_close(chars@, k as int),
        decreases chars@.len() - k,
    {
        if chars[k] == '*' && chars[k + 1] == '/' {
            return Some(k + 2);
        }
        k += 1;
    }
    None
}

fn string_end_exec(chars: &[char], j: usize) -> (r: (bool, usize))
    requires
        j <= chars@.len(),
    ensures
        r.0 == string_end(chars@, j as int).0,
        r.1 == string_end(chars@, j as int).1,
        j <= r.1 <= chars@.len(),
{
    let mut k = j;
    while k < chars.len()
        invariant
            j <= k <= chars@.len(),
            string_end(chars@, j as int) == string_end(chars@, k as int),
        decreases chars@.len() - k,
    {
        let c = chars[k];
        if c == '"' {
            return (true, k + 1);
        } else if c == '\\' {
            if k + 1 < chars.len() && is_escape_code_c(chars[k + 1]) {
                k += 2;
            } else {
                return (false, k + 1);
            }
        } else {
            k += 1;
        }
    }
    (false, chars.len())
}

/// Every prefix of a run of digits has a value no greater than the whole run's.
proof fn lemma_decimal_prefix(t: Seq<char>, m: int)
    requires
        0 <= m <= t.len(),
        forall|k: int| 0 <= k < t.len() ==> is_digit(#[trigger] t[k]),
    ensures
        decimal_value(t.take(m)) <= decimal_value(t),
    decreases t.len(),
{
    if m < t.len() {
        assert(t.drop_last().take(m) =~= t.take(m));
        lemma_decimal_prefix(t.drop_last(), m);
    } else {
        assert(t.take(m) =~= t);
    }
}

/// The value of the digits `chars[lo..hi]`, or `None` when it exceeds `i64::MAX`.
fn parse_decimal(chars: &[char], lo: usize, hi: usize) -> (r: Option<i64>)
    requires
        lo <= hi <= chars@.len(),
        forall|k: int| lo <= k < hi ==> is_digit(#[trigger] chars@[k]),
    ensures
        r matches Some(v) ==> v == decimal_value(chars@.subrange(lo as int, hi as int)),
        r is None <==> decimal_value(chars@.subrange(lo as int, hi as int)) > i64::MAX,
{
    let ghost t = chars@.subrange(lo as int, hi as int);
    let mut v: u64 = 0;
    let mut k = lo;
    assert(chars@.subrange(lo as int, lo as int).len() == 0);
    while k < hi
        invariant
            lo <= k <= hi <= chars@.len(),
            t == chars@.subrange(lo as int, hi as int),
            forall|j: int| lo <= j < hi ==> is_digit(#[trigger] chars@[j]),
            v == decimal_value(chars@.subrange(lo as int, k as int)),
            v <= i64::MAX,
        decreases hi - k,
    {
        let d = (chars[k] as u32 - '0' as u32) as u64;
        let nv: u128 = v as u128 * 10 + d as u128;
        let ghost next = chars@.subrange(lo as int, k + 1);
        assert(next.drop_last() =~= chars@.subrange(lo as int, k as int));
        assert(next.last() == chars@[k as int]);
        if nv > i64::MAX as u128 {
            proof {
                assert(forall|j: int| 0 <= j < t.len() ==> is_digit(#[trigger] t[j])) by {
                    assert forall|j: int| 0 <= j < t.len() implies is_digit(#[trigger] t[j]) by {
                        assert(t[j] == chars@[lo + j]);
                    }
                }
                assert(t.take(k + 1 - lo) =~= next);
                lemma_decimal_prefix(t, k + 1 - lo);
            }
            return None;
        }
        v = nv as u64;
        k += 1;
    }
    Some(v as i64)
}

fn punct_scan(chars: &[char], i: usize) -> (r: Option<(Token, usize)>)
    requires
        i < chars@.len(),
    ensures
        r matches Some(p) ==> punct_at(chars@, i as int) == Some((p.0, p.1 as int)),
        r is None ==> punct_at(chars@, i as int) is None,
{
    let c = chars[i];
    if c == '+' {
        if peek_is(chars, i, '+') {
            Some((Token::PlusPlus, i + 2))
        } else if peek_is(chars, i, '=') {
            Some((Token::PlusAssign, i + 2))
        } else {
            Some((Token::Plus, i + 1))
        }
    } else if c == '-' {
        if peek_is(chars, i, '-') {
            Some((Token::MinusMinus, i + 2))
        } else if peek_is(chars, i, '=') {
            Some((Token::MinusAssign, i + 2))
        } else if peek_is(chars, i, '>') {
            Some((Token::LambdaArrow, i + 2))
        } else {
            Some((Token::Minus, i + 1))
        }
    } else if c == '*' {
        if peek_is(chars, i, '=') {
            Some((Token::StarAssign, i + 2))
        } else {
            Some((Token::Star, i + 1))
        }
    } else if c == '/' {
        if peek_is(chars, i, '=') {
            Some((Token::SlashAssign, i + 2))
        } else {
            Some((Token::Slash, i + 1))
        }
    } else if c == '%' {
        if peek_is(chars, i, '=') {
            Some((Token::PercentAssign, i + 2))
        } else {
            Some((Token::Percent, i + 1))
        }
    } else if c == '=' {
        if peek_is(chars, i, '=') {
            Some((Token::EqualEqual, i + 2))
        } else if peek_is(chars, i, '>') {
            Some((Token::Arrow, i + 2))
        } else {
            Some((Token::Assign, i + 1))
        }
    } else if c == '!' {
        if peek_is(chars, i, '=') {
            Some((Token::NotEqual, i + 2))
        } else {
            Some((Token::Bang, i + 1))
        }
    } else if c == '<' {
        if peek_is(chars, i, '=') {
            Some((Token::LessEqual, i + 2))
        } else {
            Some((Token::Less, i + 1))
        }
    } else if c == '>' {
        if peek_is(chars, i, '=') {
            Some((Token::GreaterEqual, i + 2))
        } else {
            Some((Token::Greater, i + 1))
        }
    } else if c == '&' {
        if peek_is(chars, i, '&') {
            Some((Token::AndAnd, i + 2))
        } else {
            None
        }
    } else if c == '|' {
        if peek_is(chars, i, '|') {
            Some((Token::OrOr, i + 2))
        } else {
            None
        }
    } else if c == ':' {
        if peek_is(chars, i, ':') {
            Some((Token::DoubleColon, i + 2))
        } else {
            Some((Token::Colon, i + 1))
        }
    } else if c == '^' {
        Some((Token::Caret, i + 1))
    } else if c == '.' {
        Some((Token::Dot, i + 1))
    } else if c == ',' {
        Some((Token::Comma, i + 1))
    } else if c == ';' {
        Some((Token::Semicolon, i + 1))
    } else if c == '{' {
        Some((Token::LBrace, i + 1))
    } else if c == '}' {
        Some((Token::RBrace, i + 1))
    } else if c == '(' {
        Some((Token::LParen, i + 1))
    } else if c == ')' {
        Some((Token::RParen, i + 1))
    } else if c == '[' {
        Some((Token::LBracket, i + 1))
    } else if c == ']' {
        Some((Token::RBracket, i + 1))
    } else if c == '?' {
        Some((Token::Question, i + 1))
    } else if c == '@' {
        Some((Token::At, i + 1))
    } else {
        None
    }
}

fn number_scan(chars: &[char], i: usize) -> (r: (Step, usize))
    requires
        i < chars@.len(),
        is_digit(chars@[i as int]),
    ensures
        r.0 == number_at(chars@, i as int).0,
        r.1 == number_at(chars@, i as int).1,
        i < r.1 <= chars@.len(),
{
    let int_end = if chars[i] == '0' { i + 1 } else { digits_end_exec(chars, i + 1) };
    if int_end < chars.len() && int_end + 1 < chars.len() && chars[int_end] == '.' && is_digit_c(chars[int_end + 1]) {
        let e = digits_end_exec(chars, int_end + 1);
        (Step::Float, e)
    } else {
        proof {
            assert forall|k: int| i <= k < int_end implies is_digit(#[trigger] chars@[k]) by {
                if k > i && chars@[i as int] != '0' {
                    lemma_digits_run(chars@, i + 1, k);
                }
            }
        }
        match parse_decimal(chars, i, int_end) {
            Some(_) => (Step::Int, int_end),
            None => (Step::Bad, int_end),
        }
    }
}

/// Every character before the end of a digit run is a digit.
proof fn lemma_digits_run(s: Seq<char>, j: int, k: int)
    requires
        0 <= j <= k < digits_end(s, j),
    ensures
        is_digit(s[k]),
    decreases k - j,
{
    if j < k {
        lemma_digits_run(s, j + 1, k);
    }
}

/// A string body scan stops inside the text, past the closing quote if it found one.
proof fn lemma_string_end_bounds(s: Seq<char>, j: int)
    requires
        0 <= j <= s.len(),
    ensures
        j <= string_end(s, j).1 <= s.len(),
        string_end(s, j).0 ==> j + 1 <= string_end(s, j).1,
    decreases s.len() - j,
{
    if j < s.len() && s[j] != '"' {
        if s[j] == '\\' {
            if j + 1 < s.len() && is_escape_code(s[j + 1]) {
                lemma_string_end_bounds(s, j + 2);
            }
        } else {
            lemma_string_end_bounds(s, j + 1);
        }
    }
}

/// The lexeme that starts at `i`, as `step_at` describes it.
fn scan(chars: &[char], i: usize) -> (r: (Step, usize))
    requires
        i < chars@.len(),
    ensures
        r.0 == step_at(chars@, i as int).0,
        r.1 == step_at(chars@, i as int).1,
        i < r.1 <= chars@.len(),
{
    let c = chars[i];
    if is_space_c(c) {
        let e = space_end_exec(chars, i + 1);
        assert(space_end(chars@, i as int) == space_end(chars@, i + 1));
        (Step::Skip, e)
    } else if is_ident_start_c(c) {
        let e = ident_end_exec(chars, i + 1);
        assert(ident_end(chars@, i as int) == ident_end(chars@, i + 1));
        (Step::Word, e)
    } else if is_digit_c(c) {
        number_scan(chars, i)
    } else if c == '"' {
        let (closed, e) = string_end_exec(chars, i + 1);
        proof {
            lemma_string_end_bounds(chars@, i + 1);
        }
        if closed {
            (Step::Str, e)
        } else {
            (Step::Bad, e)
        }
    } else if c == '/' && peek_is(chars, i, '/') {
        let e = line_end_exec(chars, i + 2);
        assert(line_end(chars@, i as int) == line_end(chars@, i + 1));
        assert(line_end(chars@, i + 1) == line_end(chars@, i + 2));
        (Step::Skip, e)
    } else {
        if c == '/' && peek_is(chars, i, '*') {
            if let Some(e) = block_close_exec(chars, i + 2) {
                return (Step::Skip, e);
            }
        }
        match punct_scan(chars, i) {
            Some((t, e)) => (Step::Punct(t), e),
            None => (Step::Bad, i + 1),
        }
    }
}

/// Decodes the escapes of the string literal body `chars[lo..hi]`.
fn parse_string(chars: &[char], lo: usize, hi: usize) -> (r: Vec<char>)
    requires
        lo <= hi <= chars@.len(),
    ensures
        r@ == unescape(chars@.subrange(lo as int, hi as int)),
{
    let mut out: Vec<char> = Vec::new();
    let mut k = lo;
    while k < hi
        invariant
            lo <= k <= hi <= chars@.len(),
            out@ + unescape(chars@.subrange(k as int, hi as int)) == unescape(
                chars@.subrange(lo as int, hi as int),
            ),
        decreases hi - k,
    {
        let ghost rest = chars@.subrange(k as int, hi as int);
        let c = chars[k];
        if c == '\\' {
            if k + 1 >= hi {
                assert(out@ + unescape(chars@.subrange(hi as int, hi as int)) =~= out@);
                k = hi;
            } else {
                let d = chars[k + 1];
                assert(rest.skip(2) =~= chars@.subrange(k + 2, hi as int));
                let ghost before = out@;
                if d == '\\' {
                    out.push('\\');
                } else if d == '"' {
                    out.push('"');
                } else if d == 'n' {
                    out.push('\n');
                } else if d == 'r' {
                    out.push('\r');
                } else if d == 't' {
                    out.push('\t');
                } else {
                    out.push('\\');
                    out.push(d);
                }
                assert(out@ =~= before + escaped(d));
                k += 2;
            }
        } else {
            assert(rest.skip(1) =~= chars@.subrange(k + 1, hi as int));
            out.push(c);
            k += 1;
        }
    }
    assert(chars@.subrange(hi as int, hi as int).len() == 0);
    out
}

/// The token for the lexeme `chars[lo..hi]` of kind `step`.
fn make_token(chars: &[char], step: Step, lo: usize, hi: usize) -> (t: Token)
    requires
        lo < hi <= chars@.len(),
        step == step_at(chars@, lo as int).0,
        hi == step_at(chars@, lo as int).1,
        !(step is Skip),
        !(step is Bad),
    ensures
        token_is(t, step, chars@.subrange(lo as int, hi as int)),
{
    let ghost s = chars@;
    match step {
        Step::Punct(t) => t,
        Step::Word => {
            match keyword_lookup(chars, lo, hi) {
                Some(k) => k,
                None => {
                    let v = copy_range(chars, lo, hi);
                    Token::Identifier(string_from_chars(&v))
                },
            }
        },
        Step::Int => {
            proof {
                let int_end = if s[lo as int] == '0' { lo + 1 } else { digits_end(s, lo + 1) };
                assert(int_end == hi);
                assert forall|k: int| lo <= k < hi implies is_digit(#[trigger] s[k]) by {
                    if k > lo && s[lo as int] != '0' {
                        lemma_digits_run(s, lo + 1, k);
                    }
                }
            }
            match parse_decimal(chars, lo, hi) {
                Some(v) => Token::IntLiteral(v),
                None => Token::IntLiteral(0),
            }
        },
        Step::Float => {
            let v = copy_range(chars, lo, hi);
            Token::FloatLiteral(string_from_chars(&v))
        },
        _ => {
            proof {
                lemma_string_end_bounds(s, lo + 1);
            }
            let body = parse_string(chars, lo + 1, hi - 1);
            proof {
                assert(chars@.subrange(lo as int, hi as int).subrange(1, (hi - lo) - 1)
                    =~= chars@.subrange(lo + 1, hi - 1));
            }
            Token::StringLiteral(string_from_chars(&body))
        },
    }
}

// ==================== positions ====================

/// Line and column never exceed one more than the number of characters read.
proof fn lemma_line_col_bound(s: Seq<char>, k: int)
    requires
        0 <= k <= s.len(),
    ensures
        1 <= line_col(s, k).0 <= k + 1,
        1 <= line_col(s, k).1 <= k + 1,
    decreases k,
{
    if k > 0 {
        lemma_line_col_bound(s, k - 1);
    }
}

/// Moves a position (byte offset, line, column) from character `i` to character `e`.
fn advance_position(chars: &[char], i: usize, e: usize, byte: usize, line: usize, col: usize) -> (r: (
    usize,
    usize,
    usize,
))
    requires
        i <= e <= chars@.len(),
        byte_len(chars@) < usize::MAX,
        byte == byte_pos(chars@, i as int),
        line == line_col(chars@, i as int).0,
        col == line_col(chars@, i as int).1,
    ensures
        r.0 == byte_pos(chars@, e as int),
        r.1 == line_col(chars@, e as int).0,
        r.2 == line_col(chars@, e as int).1,
{
    let ghost s = chars@;
    let mut byte = byte;
    let mut line = line;
    let mut col = col;
    let mut k = i;
    while k < e
        invariant
            i <= k <= e <= s.len(),
            s == chars@,
            byte_len(s) < usize::MAX,
            byte == byte_pos(s, k as int),
            line == line_col(s, k as int).0,
            col == line_col(s, k as int).1,
        decreases e - k,
    {
        proof {
            lemma_byte_pos_step(s, k as int);
            lemma_byte_pos_mono(s, 0, k + 1);
            lemma_byte_pos_mono(s, k + 1, s.len() as int);
            lemma_line_col_bound(s, k as int);
        }
        let c = chars[k];
        byte = byte + char_width(c);
        if c == '\n' {
            line = line + 1;
            col = 1;
        } else {
            col = col + 1;
        }
        k += 1;
    }
    (byte, line, col)
}

/// The number of characters of `s`, from index `k` on, whose UTF-8 encoding starts before byte `offset`.
pub open spec fn chars_before(s: Seq<char>, offset: int, k: int) -> int
    decreases s.len() - k,
{
    if 0 <= k < s.len() && byte_pos(s, k) < offset {
        chars_before(s, offset, k + 1)
    } else {
        k
    }
}

/// The 1-based line and column of byte `offset` of `s`: lines are counted by
/// the newlines among the characters that start before `offset`, and columns by
/// the characters after the last of those newlines.
pub open spec fn line_column_at(s: Seq<char>, offset: int) -> (nat, nat) {
    line_col(s, chars_before(s, offset, 0))
}

/// At the byte offset of a character, exactly the characters before it count.
pub proof fn lemma_chars_before_char_start(s: Seq<char>, i: int, k: int)
    requires
        0 <= k <= i <= s.len(),
    ensures
        chars_before(s, byte_pos(s, i) as int, k) == i,
    decreases i - k,
{
    if k < i {
        lemma_byte_pos_mono(s, k, i);
        lemma_chars_before_char_start(s, i, k + 1);
    }
}

/// Converts a byte offset into the 1-based line and column of the source.
pub fn offset_to_line_column(source: &str, offset: usize) -> (r: (usize, usize))
    requires
        byte_len(source@) < usize::MAX,
    ensures
        r.0 == line_column_at(source@, offset as int).0,
        r.1 == line_column_at(source@, offset as int).1,
{
    let chars = chars_of(source);
    let ghost s = chars@;
    let mut line: usize = 1;
    let mut col: usize = 1;
    let mut byte: usize = 0;
    let mut k: usize = 0;
    assert(s.take(0) =~= Seq::<char>::empty());
    while k < chars.len() && byte < offset
        invariant
            k <= s.len(),
            s == chars@,
            s == source@,
            byte_len(s) < usize::MAX,
            byte == byte_pos(s, k as int),
            line == line_col(s, k as int).0,
            col == line_col(s, k as int).1,
            chars_before(s, offset as int, 0) == chars_before(s, offset as int, k as int),
        decreases s.len() - k,
    {
        proof {
            lemma_byte_pos_step(s, k as int);
            lemma_byte_pos_mono(s, 0, k + 1);
            lemma_byte_pos_mono(s, k + 1, s.len() as int);
            lemma_line_col_bound(s, k as int);
        }
        let c = chars[k];
        byte = byte + char_width(c);
        if c == '\n' {
            line = line + 1;
            col = 1;
        } else {
            col = col + 1;
        }
        k += 1;
    }
    (line, col)
}

// ==================== the lexer ====================

/// Builds the diagnostic for the erroneous text `chars[lo..hi]`.
fn unrecognized(chars: &[char], lo: usize, hi: usize, span: Span) -> (d: Diagnostic)
    requires
        lo <= hi <= chars@.len(),
    ensures
        d.severity == Severity::Error,
        d.span == span,
        d.message@ == unrecognized_message(chars@.subrange(lo as int, hi as int)),
{
    let mut m = chars_of("unrecognized character: '");
    let mut text = copy_range(chars, lo, hi);
    let mut close = chars_of("'");
    m.append(&mut text);
    m.append(&mut close);
    Diagnostic::error(span, string_from_chars(&m))
}

/// Splits `source` into tokens.
///
/// Returns the tokens, each with its span (byte offsets, and the line and
/// column of its first character, in file `source_id`), and one diagnostic per
/// stretch of text that starts no lexeme. Whitespace and comments are dropped.
pub fn tokenize(source: &str, source_id: usize) -> (r: (Vec<TokenSpan>, Vec<Diagnostic>))
    requires
        byte_len(source@) < usize::MAX,
    ensures
        r.0@.len() == tokens_from(source@, 0).len(),
        forall|k: int|
            0 <= k < r.0@.len() ==> token_ok(
                #[trigger] r.0@[k],
                tokens_from(source@, 0)[k],
                source@,
                source_id,
            ),
        forall|k: int|
            0 <= k < r.0@.len() && spelling((#[trigger] r.0@[k]).token) is Some ==> spelling(r.0@[k].token)
                == Some(source@.subrange(tokens_from(source@, 0)[k].1, tokens_from(source@, 0)[k].2)),
        r.1@.len() == errors_from(source@, 0).len(),
        forall|k: int|
            0 <= k < r.1@.len() ==> diag_ok(
                #[trigger] r.1@[k],
                errors_from(source@, 0)[k],
                source@,
                source_id,
            ),
{
    let chars = chars_of(source);
    let ghost s = chars@;
    let n = chars.len();
    let mut tokens: Vec<TokenSpan> = Vec::new();
    let mut diags: Vec<Diagnostic> = Vec::new();
    let ghost mut done_t: Seq<(Step, int, int)> = Seq::empty();
    let ghost mut done_e: Seq<(int, int)> = Seq::empty();
    let mut i: usize = 0;
    let mut byte: usize = 0;
    let mut line: usize = 1;
    let mut col: usize = 1;
    assert(s.take(0) =~= Seq::<char>::empty());
    assert(done_t + tokens_from(s, 0) =~= tokens_from(s, 0));
    assert(done_e + errors_from(s, 0) =~= errors_from(s, 0));
    while i < n
        invariant
            s == chars@,
            s == source@,
            n == s.len(),
            i <= n,
            byte_len(s) < usize::MAX,
            byte == byte_pos(s, i as int),
            line == line_col(s, i as int).0,
            col == line_col(s, i as int).1,
            done_t + tokens_from(s, i as int) == tokens_from(s, 0),
            done_e + errors_from(s, i as int) == errors_from(s, 0),
            tokens@.len() == done_t.len(),
            diags@.len() == done_e.len(),
            forall|k: int| 0 <= k < tokens@.len() ==> token_ok(#[trigger] tokens@[k], done_t[k], s, source_id),
            forall|k: int| 0 <= k < diags@.len() ==> diag_ok(#[trigger] diags@[k], done_e[k], s, source_id),
        decreases n - i,
    {
        let (step, e) = scan(&chars, i);
        let (nbyte, nline, ncol) = advance_position(&chars, i, e, byte, line, col);
        proof {
            lemma_byte_pos_mono(s, e as int, s.len() as int);
        }
        let span = Span::new(byte, nbyte, line, col, source_id);
        assert(span == span_of(s, i as int, e as int, source_id));
        match step {
            Step::Skip => {
                assert(tokens_from(s, i as int) == tokens_from(s, e as int));
                assert(errors_from(s, i as int) == errors_from(s, e as int));
            },
            Step::Bad => {
                assert(tokens_from(s, i as int) == tokens_from(s, e as int));
                assert(errors_from(s, i as int) == seq![(i as int, e as int)] + errors_from(s, e as int));
                let d = unrecognized(&chars, i, e, span);
                diags.push(d);
                proof {
                    let old_e = done_e;
                    done_e = done_e.push((i as int, e as int));
                    assert(done_e + errors_from(s, e as int) =~= old_e + errors_from(s, i as int));
                }
            },
            _ => {
                assert(tokens_from(s, i as int) == seq![(step, i as int, e as int)] + tokens_from(s, e as int));
                assert(errors_from(s, i as int) == errors_from(s, e as int));
                let ghost st = step;
                let tok = make_token(&chars, step, i, e);
                tokens.push(TokenSpan { token: tok, span });
                proof {
                    let old_t = done_t;
                    done_t = done_t.push((st, i as int, e as int));
                    assert(done_t + tokens_from(s, e as int) =~= old_t + tokens_from(s, i as int));
                }
            },
        }
        i = e;
        byte = nbyte;
        line = nline;
        col = ncol;
    }
    assert(done_t =~= tokens_from(s, 0));
    assert(done_e =~= errors_from(s, 0));
    proof {
        assert forall|k: int|
            0 <= k < tokens@.len() && spelling((#[trigger] tokens@[k]).token) is Some implies spelling(tokens@[k].token)
                == Some(s.subrange(tokens_from(s, 0)[k].1, tokens_from(s, 0)[k].2)) by {
            assert(token_ok(tokens@[k], done_t[k], s, source_id));
            lemma_lexeme_token_spelling(s, k, tokens@[k].token);
        }
    }
    (tokens, diags)
}

// ==================== laws ====================

/// The token lexemes from position `i` on lie inside `s`, after `i`, each
/// non-empty, in order and without overlap.
pub proof fn lemma_tokens_from_ordered(s: Seq<char>, i: int)
    requires
        0 <= i,
    ensures
        forall|k: int|
            0 <= k < tokens_from(s, i).len() ==> i <= (#[trigger] tokens_from(s, i)[k]).1
                < tokens_from(s, i)[k].2 <= s.len(),
        forall|j: int, k: int|
            0 <= j < k < tokens_from(s, i).len() ==> (#[trigger] tokens_from(s, i)[j]).2
                <= (#[trigger] tokens_from(s, i)[k]).1,
    decreases s.len() - i,
{
    if i < s.len() {
        let (k, e) = step_at(s, i);
        if e > i && e <= s.len() {
            lemma_tokens_from_ordered(s, e);
            let rest = tokens_from(s, e);
            if !(k is Skip || k is Bad) {
                let all = tokens_from(s, i);
                assert(all == seq![(k, i, e)] + rest);
                assert forall|m: int| 0 < m < all.len() implies all[m] == rest[m - 1] by {}
            }
        }
    }
}

/// Law: the tokens of a source come in source order, do not overlap, and each
/// covers a non-empty stretch of bytes inside the source.
pub proof fn law_token_spans_ordered(s: Seq<char>, sid: usize, j: int, k: int)
    requires
        byte_len(s) < usize::MAX,
        0 <= j < k < tokens_from(s, 0).len(),
    ensures
        span_of(s, tokens_from(s, 0)[j].1, tokens_from(s, 0)[j].2, sid).start
            < span_of(s, tokens_from(s, 0)[j].1, tokens_from(s, 0)[j].2, sid).end,
        span_of(s, tokens_from(s, 0)[j].1, tokens_from(s, 0)[j].2, sid).end
            <= span_of(s, tokens_from(s, 0)[k].1, tokens_from(s, 0)[k].2, sid).start,
        span_of(s, tokens_from(s, 0)[k].1, tokens_from(s, 0)[k].2, sid).end <= byte_len(s),
{
    lemma_tokens_from_ordered(s, 0);
    let a = tokens_from(s, 0)[j];
    let b = tokens_from(s, 0)[k];
    lemma_byte_pos_mono(s, a.1, a.2);
    lemma_byte_pos_mono(s, a.2, b.1);
    lemma_byte_pos_mono(s, b.1, b.2);
    lemma_byte_pos_mono(s, b.2, s.len() as int);
}

/// Law: the line and column recorded in a token's span are those that
/// `offset_to_line_column` gives for the token's start offset.
pub proof fn law_token_line_column(s: Seq<char>, sid: usize, k: int)
    requires
        byte_len(s) < usize::MAX,
        0 <= k < tokens_from(s, 0).len(),
    ensures
        ({
            let sp = span_of(s, tokens_from(s, 0)[k].1, tokens_from(s, 0)[k].2, sid);
            sp.line == line_column_at(s, sp.start as int).0 && sp.column == line_column_at(
                s,
                sp.start as int,
            ).1
        }),
{
    lemma_tokens_from_ordered(s, 0);
    let a = tokens_from(s, 0)[k];
    assert(s.take(0) =~= Seq::<char>::empty());
    lemma_byte_pos_mono(s, 0, s.len() as int);
    lemma_byte_pos_mono(s, a.1, s.len() as int);
    lemma_chars_before_char_start(s, a.1, 0);
    lemma_line_col_bound(s, a.1);
    let sp = span_of(s, a.1, a.2, sid);
    assert(sp.start as int == byte_pos(s, a.1));
    assert(line_column_at(s, sp.start as int) == line_col(s, a.1));
}

} // verus!
