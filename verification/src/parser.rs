//! The parser: from the lexer's tokens to the syntax tree, by recursive
//! descent, with expressions by precedence climbing.
//!
//! Every parsing step keeps the token list, never moves back before the
//! position where it started, and keeps the diagnostics reported before it;
//! a step that succeeds on an expression, a statement or a type has
//! consumed at least one token.
//!
//! What a successful step returns is described by the tokens that write it:
//! types, parameter lists and injector fields exactly (`type_written` and its
//! relatives); expressions down to their operands, operators, arguments and
//! entries, lambdas' bodies and constructor calls' injector fields aside
//! (`expression_top`, `prefix_node`, `infix_node`), with where an expression
//! stops; and of a statement, the node that its first token starts
//! (`statement_node`).

use vstd::prelude::*;
use vstd::string::StringExecFns;
use crate::ast::{
    Annotation, AssignmentOp, AssignmentTarget, BinaryOp, BreakTarget, CaseBlock, ClassDeclaration,
    ClassMember, ConstructorDeclaration, EnumDeclaration, EnumValue, Expression, FieldDeclaration,
    InjectorDeclaration, InjectorField, InterfaceDeclaration, LambdaBody, Literal, MetadataEntry,
    MethodDeclaration, MethodSignature, Modifier, Parameter, QualifiedName, SourceFile, Statement,
    TopLevelMember, TypeRef, UnaryOp, UsingDirective,
};
use crate::lexer::{Token, TokenSpan};
use crate::span::{Diagnostic, Diagnostics, Severity, Span};
use crate::text::{chars_of, copy_range, string_from_chars};

verus! {

/// No binding power: ends an expression.
pub const PREC_NONE: u8 = 0;
/// `=`, `+=`, `-=`, `*=`, `/=`, `%=`
pub const PREC_ASSIGNMENT: u8 = 1;
/// `?:`
pub const PREC_CONDITIONAL: u8 = 2;
/// `||`
pub const PREC_LOGICAL_OR: u8 = 3;
/// `&&`
pub const PREC_LOGICAL_AND: u8 = 4;
/// `==`, `!=`
pub const PREC_EQUALITY: u8 = 5;
/// `<`, `<=`, `>`, `>=`
pub const PREC_COMPARISON: u8 = 6;
/// `+`, `-`
pub const PREC_ADDITION: u8 = 7;
/// `*`, `/`, `%`
pub const PREC_MULTIPLICATION: u8 = 8;
/// Prefix `-`, `!` and casts.
pub const PREC_UNARY: u8 = 9;
/// Postfix `.`, `()`, `[]`, `^`, `++`, `--`.
pub const PREC_POSTFIX: u8 = 10;
/// Literals, names, `new` and the like.
pub const PREC_PRIMARY: u8 = 11;

pub open spec fn tag_of(t: Token) -> u8 {
    match t {
        Token::KwClass => 0,
        Token::KwInterface => 1,
        Token::KwEnum => 2,
        Token::KwExtends => 3,
        Token::KwNative => 4,
        Token::KwStatic => 5,
        Token::KwThis => 6,
        Token::KwSuper => 7,
        Token::KwNew => 8,
        Token::KwInjector => 9,
        Token::KwInject => 10,
        Token::KwInvokes => 11,
        Token::KwIf => 12,
        Token::KwElse => 13,
        Token::KwWhile => 14,
        Token::KwDo => 15,
        Token::KwFor => 16,
        Token::KwSwitch => 17,
        Token::KwCase => 18,
        Token::KwDefault => 19,
        Token::KwBreak => 20,
        Token::KwContinue => 21,
        Token::KwReturn => 22,
        Token::KwUsing => 23,
        Token::KwNamespace => 24,
        Token::KwDelegate => 25,
        Token::KwTrue => 26,
        Token::KwFalse => 27,
        Token::KwNull => 28,
        Token::KwAuto => 29,
        Token::TypeInt => 30,
        Token::TypeFloat => 31,
        Token::TypeBool => 32,
        Token::TypeString => 33,
        Token::TypeVoid => 34,
        Token::TypeObject => 35,
        Token::IntLiteral(_) => 36,
        Token::FloatLiteral(_) => 37,
        Token::StringLiteral(_) => 38,
        Token::Identifier(_) => 39,
        Token::Plus => 40,
        Token::Minus => 41,
        Token::Star => 42,
        Token::Slash => 43,
        Token::Percent => 44,
        Token::Assign => 45,
        Token::EqualEqual => 46,
        Token::NotEqual => 47,
        Token::Less => 48,
        Token::LessEqual => 49,
        Token::Greater => 50,
        Token::GreaterEqual => 51,
        Token::AndAnd => 52,
        Token::OrOr => 53,
        Token::Bang => 54,
        Token::Caret => 55,
        Token::LambdaArrow => 56,
        Token::Dot => 57,
        Token::Comma => 58,
        Token::Colon => 59,
        Token::DoubleColon => 60,
        Token::Semicolon => 61,
        Token::LBrace => 62,
        Token::RBrace => 63,
        Token::LParen => 64,
        Token::RParen => 65,
        Token::LBracket => 66,
        Token::RBracket => 67,
        Token::Question => 68,
        Token::At => 69,
        Token::Arrow => 70,
        Token::PlusPlus => 71,
        Token::MinusMinus => 72,
        Token::PlusAssign => 73,
        Token::MinusAssign => 74,
        Token::StarAssign => 75,
        Token::SlashAssign => 76,
        Token::PercentAssign => 77,
    }
}

pub fn token_tag(t: &Token) -> (r: u8)
    ensures
        r == tag_of(*t),
{
    match t {
        Token::KwClass => 0,
        Token::KwInterface => 1,
        Token::KwEnum => 2,
        Token::KwExtends => 3,
        Token::KwNative => 4,
        Token::KwStatic => 5,
        Token::KwThis => 6,
        Token::KwSuper => 7,
        Token::KwNew => 8,
        Token::KwInjector => 9,
        Token::KwInject => 10,
        Token::KwInvokes => 11,
        Token::KwIf => 12,
        Token::KwElse => 13,
        Token::KwWhile => 14,
        Token::KwDo => 15,
        Token::KwFor => 16,
        Token::KwSwitch => 17,
        Token::KwCase => 18,
        Token::KwDefault => 19,
        Token::KwBreak => 20,
        Token::KwContinue => 21,
        Token::KwReturn => 22,
        Token::KwUsing => 23,
        Token::KwNamespace => 24,
        Token::KwDelegate => 25,
        Token::KwTrue => 26,
        Token::KwFalse => 27,
        Token::KwNull => 28,
        Token::KwAuto => 29,
        Token::TypeInt => 30,
        Token::TypeFloat => 31,
        Token::TypeBool => 32,
        Token::TypeString => 33,
        Token::TypeVoid => 34,
        Token::TypeObject => 35,
        Token::IntLiteral(_) => 36,
        Token::FloatLiteral(_) => 37,
        Token::StringLiteral(_) => 38,
        Token::Identifier(_) => 39,
        Token::Plus => 40,
        Token::Minus => 41,
        Token::Star => 42,
        Token::Slash => 43,
        Token::Percent => 44,
        Token::Assign => 45,
        Token::EqualEqual => 46,
        Token::NotEqual => 47,
        Token::Less => 48,
        Token::LessEqual => 49,
        Token::Greater => 50,
        Token::GreaterEqual => 51,
        Token::AndAnd => 52,
        Token::OrOr => 53,
        Token::Bang => 54,
        Token::Caret => 55,
        Token::LambdaArrow => 56,
        Token::Dot => 57,
        Token::Comma => 58,
        Token::Colon => 59,
        Token::DoubleColon => 60,
        Token::Semicolon => 61,
        Token::LBrace => 62,
        Token::RBrace => 63,
        Token::LParen => 64,
        Token::RParen => 65,
        Token::LBracket => 66,
        Token::RBracket => 67,
        Token::Question => 68,
        Token::At => 69,
        Token::Arrow => 70,
        Token::PlusPlus => 71,
        Token::MinusMinus => 72,
        Token::PlusAssign => 73,
        Token::MinusAssign => 74,
        Token::StarAssign => 75,
        Token::SlashAssign => 76,
        Token::PercentAssign => 77,
    }
}


/// The name of the kind of token `t`, as messages show it.
pub open spec fn token_kind_text(t: Token) -> Seq<char> {
    match t {
        Token::KwClass => "KwClass"@,
        Token::KwInterface => "KwInterface"@,
        Token::KwEnum => "KwEnum"@,
        Token::KwExtends => "KwExtends"@,
        Token::KwNative => "KwNative"@,
        Token::KwStatic => "KwStatic"@,
        Token::KwThis => "KwThis"@,
        Token::KwSuper => "KwSuper"@,
        Token::KwNew => "KwNew"@,
        Token::KwInjector => "KwInjector"@,
        Token::KwInject => "KwInject"@,
        Token::KwInvokes => "KwInvokes"@,
        Token::KwIf => "KwIf"@,
        Token::KwElse => "KwElse"@,
        Token::KwWhile => "KwWhile"@,
        Token::KwDo => "KwDo"@,
        Token::KwFor => "KwFor"@,
        Token::KwSwitch => "KwSwitch"@,
        Token::KwCase => "KwCase"@,
        Token::KwDefault => "KwDefault"@,
        Token::KwBreak => "KwBreak"@,
        Token::KwContinue => "KwContinue"@,
        Token::KwReturn => "KwReturn"@,
        Token::KwUsing => "KwUsing"@,
        Token::KwNamespace => "KwNamespace"@,
        Token::KwDelegate => "KwDelegate"@,
        Token::KwTrue => "KwTrue"@,
        Token::KwFalse => "KwFalse"@,
        Token::KwNull => "KwNull"@,
        Token::KwAuto => "KwAuto"@,
        Token::TypeInt => "TypeInt"@,
        Token::TypeFloat => "TypeFloat"@,
        Token::TypeBool => "TypeBool"@,
        Token::TypeString => "TypeString"@,
        Token::TypeVoid => "TypeVoid"@,
        Token::TypeObject => "TypeObject"@,
        Token::IntLiteral(_) => "IntLiteral"@,
        Token::FloatLiteral(_) => "FloatLiteral"@,
        Token::StringLiteral(_) => "StringLiteral"@,
        Token::Identifier(_) => "Identifier"@,
        Token::Plus => "Plus"@,
        Token::Minus => "Minus"@,
        Token::Star => "Star"@,
        Token::Slash => "Slash"@,
        Token::Percent => "Percent"@,
        Token::Assign => "Assign"@,
        Token::EqualEqual => "EqualEqual"@,
        Token::NotEqual => "NotEqual"@,
        Token::Less => "Less"@,
        Token::LessEqual => "LessEqual"@,
        Token::Greater => "Greater"@,
        Token::GreaterEqual => "GreaterEqual"@,
        Token::AndAnd => "AndAnd"@,
        Token::OrOr => "OrOr"@,
        Token::Bang => "Bang"@,
        Token::Caret => "Caret"@,
        Token::LambdaArrow => "LambdaArrow"@,
        Token::Dot => "Dot"@,
        Token::Comma => "Comma"@,
        Token::Colon => "Colon"@,
        Token::DoubleColon => "DoubleColon"@,
        Token::Semicolon => "Semicolon"@,
        Token::LBrace => "LBrace"@,
        Token::RBrace => "RBrace"@,
        Token::LParen => "LParen"@,
        Token::RParen => "RParen"@,
        Token::LBracket => "LBracket"@,
        Token::RBracket => "RBracket"@,
        Token::Question => "Question"@,
        Token::At => "At"@,
        Token::Arrow => "Arrow"@,
        Token::PlusPlus => "PlusPlus"@,
        Token::MinusMinus => "MinusMinus"@,
        Token::PlusAssign => "PlusAssign"@,
        Token::MinusAssign => "MinusAssign"@,
        Token::StarAssign => "StarAssign"@,
        Token::SlashAssign => "SlashAssign"@,
        Token::PercentAssign => "PercentAssign"@,
    }
}

/// The name of a token's kind, as messages show it.
fn token_kind_name(t: &Token) -> (r: &'static str)
    ensures
        r@ == token_kind_text(*t),
{
    match t {
        Token::KwClass => "KwClass",
        Token::KwInterface => "KwInterface",
        Token::KwEnum => "KwEnum",
        Token::KwExtends => "KwExtends",
        Token::KwNative => "KwNative",
        Token::KwStatic => "KwStatic",
        Token::KwThis => "KwThis",
        Token::KwSuper => "KwSuper",
        Token::KwNew => "KwNew",
        Token::KwInjector => "KwInjector",
        Token::KwInject => "KwInject",
        Token::KwInvokes => "KwInvokes",
        Token::KwIf => "KwIf",
        Token::KwElse => "KwElse",
        Token::KwWhile => "KwWhile",
        Token::KwDo => "KwDo",
        Token::KwFor => "KwFor",
        Token::KwSwitch => "KwSwitch",
        Token::KwCase => "KwCase",
        Token::KwDefault => "KwDefault",
        Token::KwBreak => "KwBreak",
        Token::KwContinue => "KwContinue",
        Token::KwReturn => "KwReturn",
        Token::KwUsing => "KwUsing",
        Token::KwNamespace => "KwNamespace",
        Token::KwDelegate => "KwDelegate",
        Token::KwTrue => "KwTrue",
        Token::KwFalse => "KwFalse",
        Token::KwNull => "KwNull",
        Token::KwAuto => "KwAuto",
        Token::TypeInt => "TypeInt",
        Token::TypeFloat => "TypeFloat",
        Token::TypeBool => "TypeBool",
        Token::TypeString => "TypeString",
        Token::TypeVoid => "TypeVoid",
        Token::TypeObject => "TypeObject",
        Token::IntLiteral(_) => "IntLiteral",
        Token::FloatLiteral(_) => "FloatLiteral",
        Token::StringLiteral(_) => "StringLiteral",
        Token::Identifier(_) => "Identifier",
        Token::Plus => "Plus",
        Token::Minus => "Minus",
        Token::Star => "Star",
        Token::Slash => "Slash",
        Token::Percent => "Percent",
        Token::Assign => "Assign",
        Token::EqualEqual => "EqualEqual",
        Token::NotEqual => "NotEqual",
        Token::Less => "Less",
        Token::LessEqual => "LessEqual",
        Token::Greater => "Greater",
        Token::GreaterEqual => "GreaterEqual",
        Token::AndAnd => "AndAnd",
        Token::OrOr => "OrOr",
        Token::Bang => "Bang",
        Token::Caret => "Caret",
        Token::LambdaArrow => "LambdaArrow",
        Token::Dot => "Dot",
        Token::Comma => "Comma",
        Token::Colon => "Colon",
        Token::DoubleColon => "DoubleColon",
        Token::Semicolon => "Semicolon",
        Token::LBrace => "LBrace",
        Token::RBrace => "RBrace",
        Token::LParen => "LParen",
        Token::RParen => "RParen",
        Token::LBracket => "LBracket",
        Token::RBracket => "RBracket",
        Token::Question => "Question",
        Token::At => "At",
        Token::Arrow => "Arrow",
        Token::PlusPlus => "PlusPlus",
        Token::MinusMinus => "MinusMinus",
        Token::PlusAssign => "PlusAssign",
        Token::MinusAssign => "MinusAssign",
        Token::StarAssign => "StarAssign",
        Token::SlashAssign => "SlashAssign",
        Token::PercentAssign => "PercentAssign",
    }
}


/// A copy of token `t`.
pub fn clone_token(t: &Token) -> (r: Token)
    ensures
        r == *t,
{
    match t {
        Token::KwClass => Token::KwClass,
        Token::KwInterface => Token::KwInterface,
        Token::KwEnum => Token::KwEnum,
        Token::KwExtends => Token::KwExtends,
        Token::KwNative => Token::KwNative,
        Token::KwStatic => Token::KwStatic,
        Token::KwThis => Token::KwThis,
        Token::KwSuper => Token::KwSuper,
        Token::KwNew => Token::KwNew,
        Token::KwInjector => Token::KwInjector,
        Token::KwInject => Token::KwInject,
        Token::KwInvokes => Token::KwInvokes,
        Token::KwIf => Token::KwIf,
        Token::KwElse => Token::KwElse,
        Token::KwWhile => Token::KwWhile,
        Token::KwDo => Token::KwDo,
        Token::KwFor => Token::KwFor,
        Token::KwSwitch => Token::KwSwitch,
        Token::KwCase => Token::KwCase,
        Token::KwDefault => Token::KwDefault,
        Token::KwBreak => Token::KwBreak,
        Token::KwContinue => Token::KwContinue,
        Token::KwReturn => Token::KwReturn,
        Token::KwUsing => Token::KwUsing,
        Token::KwNamespace => Token::KwNamespace,
        Token::KwDelegate => Token::KwDelegate,
        Token::KwTrue => Token::KwTrue,
        Token::KwFalse => Token::KwFalse,
        Token::KwNull => Token::KwNull,
        Token::KwAuto => Token::KwAuto,
        Token::TypeInt => Token::TypeInt,
        Token::TypeFloat => Token::TypeFloat,
        Token::TypeBool => Token::TypeBool,
        Token::TypeString => Token::TypeString,
        Token::TypeVoid => Token::TypeVoid,
        Token::TypeObject => Token::TypeObject,
        Token::IntLiteral(v) => Token::IntLiteral(*v),
        Token::FloatLiteral(v) => Token::FloatLiteral(v.clone()),
        Token::StringLiteral(v) => Token::StringLiteral(v.clone()),
        Token::Identifier(v) => Token::Identifier(v.clone()),
        Token::Plus => Token::Plus,
        Token::Minus => Token::Minus,
        Token::Star => Token::Star,
        Token::Slash => Token::Slash,
        Token::Percent => Token::Percent,
        Token::Assign => Token::Assign,
        Token::EqualEqual => Token::EqualEqual,
        Token::NotEqual => Token::NotEqual,
        Token::Less => Token::Less,
        Token::LessEqual => Token::LessEqual,
        Token::Greater => Token::Greater,
        Token::GreaterEqual => Token::GreaterEqual,
        Token::AndAnd => Token::AndAnd,
        Token::OrOr => Token::OrOr,
        Token::Bang => Token::Bang,
        Token::Caret => Token::Caret,
        Token::LambdaArrow => Token::LambdaArrow,
        Token::Dot => Token::Dot,
        Token::Comma => Token::Comma,
        Token::Colon => Token::Colon,
        Token::DoubleColon => Token::DoubleColon,
        Token::Semicolon => Token::Semicolon,
        Token::LBrace => Token::LBrace,
        Token::RBrace => Token::RBrace,
        Token::LParen => Token::LParen,
        Token::RParen => Token::RParen,
        Token::LBracket => Token::LBracket,
        Token::RBracket => Token::RBracket,
        Token::Question => Token::Question,
        Token::At => Token::At,
        Token::Arrow => Token::Arrow,
        Token::PlusPlus => Token::PlusPlus,
        Token::MinusMinus => Token::MinusMinus,
        Token::PlusAssign => Token::PlusAssign,
        Token::MinusAssign => Token::MinusAssign,
        Token::StarAssign => Token::StarAssign,
        Token::SlashAssign => Token::SlashAssign,
        Token::PercentAssign => Token::PercentAssign,
    }
}

/// The binding power of `t` as an infix or postfix operator.
pub open spec fn infix_precedence(t: Token) -> u8 {
    match t {
        Token::Assign | Token::PlusAssign | Token::MinusAssign | Token::StarAssign
        | Token::SlashAssign | Token::PercentAssign => PREC_ASSIGNMENT,
        Token::Question => PREC_CONDITIONAL,
        Token::OrOr => PREC_LOGICAL_OR,
        Token::AndAnd => PREC_LOGICAL_AND,
        Token::EqualEqual | Token::NotEqual => PREC_EQUALITY,
        Token::Less | Token::LessEqual | Token::Greater | Token::GreaterEqual => PREC_COMPARISON,
        Token::Plus | Token::Minus => PREC_ADDITION,
        Token::Star | Token::Slash | Token::Percent => PREC_MULTIPLICATION,
        Token::Dot | Token::LParen | Token::LBracket | Token::Caret | Token::PlusPlus
        | Token::MinusMinus => PREC_POSTFIX,
        _ => PREC_NONE,
    }
}

/// The binary operator that token `t` writes (`+` for a token that writes none).
pub open spec fn binary_op_of(t: Token) -> BinaryOp {
    match t {
        Token::Plus => BinaryOp::Add,
        Token::Minus => BinaryOp::Subtract,
        Token::Star => BinaryOp::Multiply,
        Token::Slash => BinaryOp::Divide,
        Token::Percent => BinaryOp::Modulo,
        Token::Less => BinaryOp::Less,
        Token::LessEqual => BinaryOp::LessEqual,
        Token::Greater => BinaryOp::Greater,
        Token::GreaterEqual => BinaryOp::GreaterEqual,
        Token::EqualEqual => BinaryOp::Equal,
        Token::NotEqual => BinaryOp::NotEqual,
        Token::AndAnd => BinaryOp::LogicAnd,
        Token::OrOr => BinaryOp::LogicOr,
        _ => BinaryOp::Add,
    }
}

/// The text that writes binary operator `op` in source.
pub open spec fn binary_op_text(op: BinaryOp) -> Seq<char> {
    match op {
        BinaryOp::Add => seq!['+'],
        BinaryOp::Subtract => seq!['-'],
        BinaryOp::Multiply => seq!['*'],
        BinaryOp::Divide => seq!['/'],
        BinaryOp::Modulo => seq!['%'],
        BinaryOp::Less => seq!['<'],
        BinaryOp::LessEqual => seq!['<', '='],
        BinaryOp::Greater => seq!['>'],
        BinaryOp::GreaterEqual => seq!['>', '='],
        BinaryOp::Equal => seq!['=', '='],
        BinaryOp::NotEqual => seq!['!', '='],
        BinaryOp::LogicAnd => seq!['&', '&'],
        BinaryOp::LogicOr => seq!['|', '|'],
    }
}

/// The binary operator read from an operator token is the one spelled the
/// same way: the token's text is the operator's text.
pub proof fn lemma_binary_op_spelled_by_token(t: Token)
    requires
        is_binary_token(t),
    ensures
        crate::lexer::spelling(t) == Some(binary_op_text(binary_op_of(t))),
{
}

/// The text that writes assignment operator `op` in source.
pub open spec fn assignment_op_text(op: AssignmentOp) -> Seq<char> {
    match op {
        AssignmentOp::Assign => seq!['='],
        AssignmentOp::PlusAssign => seq!['+', '='],
        AssignmentOp::MinusAssign => seq!['-', '='],
        AssignmentOp::StarAssign => seq!['*', '='],
        AssignmentOp::SlashAssign => seq!['/', '='],
    }
}

/// The assignment operator read from `=`, `+=`, `-=`, `*=` or `/=` is the one
/// spelled the same way.
pub proof fn lemma_assignment_op_spelled_by_token(t: Token)
    requires
        t is Assign || t is PlusAssign || t is MinusAssign || t is StarAssign || t is SlashAssign,
    ensures
        crate::lexer::spelling(t) == Some(assignment_op_text(assignment_op_of(t))),
{
}

/// The text that writes unary operator `op` in source.
pub open spec fn unary_op_text(op: UnaryOp) -> Seq<char> {
    match op {
        UnaryOp::Negate => seq!['-'],
        UnaryOp::Not => seq!['!'],
        UnaryOp::PreIncrement => seq!['+', '+'],
        UnaryOp::PostIncrement => seq!['+', '+'],
        UnaryOp::PreDecrement => seq!['-', '-'],
        UnaryOp::PostDecrement => seq!['-', '-'],
    }
}

/// The operator of a binary or postfix expression built at operator token
/// `p` is the one that token spells.
pub proof fn lemma_infix_operator_spelled(tokens: Seq<TokenSpan>, p: int, e: int, left: Expression, x: Expression)
    requires
        0 <= p < tokens.len(),
        infix_node(tokens, p, e, left, x),
    ensures
        is_binary_token(tokens[p].token) ==> (x matches Expression::Binary { operator, .. }
            ==> crate::lexer::spelling(tokens[p].token) == Some(binary_op_text(operator))),
        x matches Expression::Unary { operator, .. } ==> crate::lexer::spelling(tokens[p].token) == Some(
            unary_op_text(operator),
        ),
{
    if is_binary_token(tokens[p].token) {
        lemma_binary_op_spelled_by_token(tokens[p].token);
    }
}

/// The operator of a prefix expression is the one its first token spells.
pub proof fn lemma_prefix_operator_spelled(tokens: Seq<TokenSpan>, p: int, e: int, x: Expression)
    requires
        0 <= p < tokens.len(),
        prefix_node(tokens, p, e, x),
        tokens[p].token is Minus || tokens[p].token is Bang || tokens[p].token is PlusPlus || tokens[p].token is MinusMinus,
    ensures
        x matches Expression::Unary { operator, .. } && crate::lexer::spelling(tokens[p].token) == Some(
            unary_op_text(operator),
        ),
{
}

/// Different operator tokens give different binary operators.
pub proof fn lemma_binary_op_of_injective(t1: Token, t2: Token)
    requires
        is_binary_token(t1),
        is_binary_token(t2),
        binary_op_of(t1) == binary_op_of(t2),
    ensures
        t1 == t2,
{
    lemma_binary_op_spelled_by_token(t1);
    lemma_binary_op_spelled_by_token(t2);
}

/// The assignment operator that token `t` writes; `%=` assigns plainly, and
/// so does a token that writes no assignment.
pub open spec fn assignment_op_of(t: Token) -> AssignmentOp {
    match t {
        Token::PlusAssign => AssignmentOp::PlusAssign,
        Token::MinusAssign => AssignmentOp::MinusAssign,
        Token::StarAssign => AssignmentOp::StarAssign,
        Token::SlashAssign => AssignmentOp::SlashAssign,
        _ => AssignmentOp::Assign,
    }
}

/// The binary operator that token `token` writes.
pub fn token_to_binary_op(token: &Token) -> (op: BinaryOp)
    ensures
        op == binary_op_of(*token),
        is_binary_token(*token) ==> crate::lexer::spelling(*token) == Some(binary_op_text(op)),
{
    proof {
        if is_binary_token(*token) {
            lemma_binary_op_spelled_by_token(*token);
        }
    }
    match token {
        Token::Plus => BinaryOp::Add,
        Token::Minus => BinaryOp::Subtract,
        Token::Star => BinaryOp::Multiply,
        Token::Slash => BinaryOp::Divide,
        Token::Percent => BinaryOp::Modulo,
        Token::Less => BinaryOp::Less,
        Token::LessEqual => BinaryOp::LessEqual,
        Token::Greater => BinaryOp::Greater,
        Token::GreaterEqual => BinaryOp::GreaterEqual,
        Token::EqualEqual => BinaryOp::Equal,
        Token::NotEqual => BinaryOp::NotEqual,
        Token::AndAnd => BinaryOp::LogicAnd,
        Token::OrOr => BinaryOp::LogicOr,
        _ => BinaryOp::Add,
    }
}

/// The assignment operator that token `token` writes.
pub fn token_to_assignment_op(token: &Token) -> (op: AssignmentOp)
    ensures
        op == assignment_op_of(*token),
{
    match token {
        Token::Assign => AssignmentOp::Assign,
        Token::PlusAssign => AssignmentOp::PlusAssign,
        Token::MinusAssign => AssignmentOp::MinusAssign,
        Token::StarAssign => AssignmentOp::StarAssign,
        Token::SlashAssign => AssignmentOp::SlashAssign,
        Token::PercentAssign => AssignmentOp::Assign,
        _ => AssignmentOp::Assign,
    }
}

/// The rest of `member` after a leading `^`, if it has one.
fn strip_caret(member: &String) -> (r: Option<String>)
    ensures
        match r {
            Some(f) => member@.len() > 0 && member@[0] == '^' && f@ == member@.subrange(
                1,
                member@.len() as int,
            ),
            None => !(member@.len() > 0 && member@[0] == '^'),
        },
{
    let cs = chars_of(member.as_str());
    if cs.len() > 0 && cs[0] == '^' {
        let rest = copy_range(&cs, 1, cs.len());
        Some(string_from_chars(&rest))
    } else {
        None
    }
}

/// The name of modifier `m`, as messages show it.
pub open spec fn modifier_debug_text(m: Modifier) -> Seq<char> {
    match m {
        Modifier::Native => "Native"@,
        Modifier::Static => "Static"@,
        Modifier::Abstract => "Abstract"@,
        Modifier::Injector => "Injector"@,
    }
}

/// The name of a modifier, as messages show it.
fn modifier_debug_name(m: Modifier) -> (r: &'static str)
    ensures
        r@ == modifier_debug_text(m),
{
    match m {
        Modifier::Native => "Native",
        Modifier::Static => "Static",
        Modifier::Abstract => "Abstract",
        Modifier::Injector => "Injector",
    }
}

/// A copy of `d`.
fn copy_diagnostics(d: &Diagnostics) -> (r: Diagnostics)
    ensures
        r.items@ == d.items@,
{
    let mut items: Vec<Diagnostic> = Vec::new();
    let mut k: usize = 0;
    while k < d.items.len()
        invariant
            k <= d.items@.len(),
            items@ == d.items@.subrange(0, k as int),
        decreases d.items.len() - k,
    {
        let x = &d.items[k];
        items.push(Diagnostic { severity: x.severity, span: x.span, message: x.message.clone() });
        k = k + 1;
        assert(items@ =~= d.items@.subrange(0, k as int));
    }
    assert(d.items@.subrange(0, d.items@.len() as int) =~= d.items@);
    Diagnostics { items }
}

/// The text of type `t` as written: `Name`, `Name<A, B>`, `T[]`, `T^`,
/// `delegate<R:P1:P2>`.
pub open spec fn type_source_text(t: TypeRef) -> Seq<char>
    decreases t,
{
    match t {
        TypeRef::Simple { name, .. } => name@,
        TypeRef::Generic { name, type_args, .. } => name@ + "<"@ + type_source_texts(type_args@)
            + ">"@,
        TypeRef::Array { element_type, .. } => type_source_text(*element_type) + "[]"@,
        TypeRef::Injector { base_type, .. } => type_source_text(*base_type) + "^"@,
        TypeRef::Delegate { return_type, param_types, .. } => "delegate<"@ + type_source_text(
            *return_type,
        ) + param_source_texts(param_types@) + ">"@,
    }
}

/// The texts of `ts` as written, joined by `, `.
pub open spec fn type_source_texts(ts: Seq<TypeRef>) -> Seq<char>
    decreases ts,
{
    if ts.len() == 0 {
        Seq::empty()
    } else if ts.len() == 1 {
        type_source_text(ts[0])
    } else {
        type_source_texts(ts.drop_last()) + ", "@ + type_source_text(ts.last())
    }
}

/// The texts of `ts` as written, each after a `:`.
pub open spec fn param_source_texts(ts: Seq<TypeRef>) -> Seq<char>
    decreases ts,
{
    if ts.len() == 0 {
        Seq::empty()
    } else {
        param_source_texts(ts.drop_last()) + ":"@ + type_source_text(ts.last())
    }
}

/// Appends to `out` the text of type `t` as written.
#[verifier::loop_isolation(false)]
fn push_type_ref_text(t: &TypeRef, out: &mut Vec<char>)
    ensures
        final(out)@ == old(out)@ + type_source_text(*t),
    decreases t,
{
    proof {
        reveal_strlit("[]");
        reveal_strlit("^");
        reveal_strlit("<");
        reveal_strlit(", ");
        reveal_strlit(":");
        reveal_strlit(">");
    }
    match t {
        TypeRef::Simple { name, .. } => {
            let mut cs = chars_of(name.as_str());
            out.append(&mut cs);
        },
        TypeRef::Generic { name, type_args, .. } => {
            let mut cs = chars_of(name.as_str());
            out.append(&mut cs);
            out.push('<');
            let ghost head = out@;
            let mut i: usize = 0;
            while i < type_args.len()
                invariant
                    i <= type_args@.len(),
                    out@ == head + type_source_texts(type_args@.take(i as int)),
                decreases type_args.len() - i,
            {
                if i > 0 {
                    out.push(',');
                    out.push(' ');
                }
                proof {
                    assert(decreases_to!(*t => type_args@[i as int]));
                }
                push_type_ref_text(&type_args[i], out);
                proof {
                    let tk = type_args@.take(i + 1);
                    assert(tk.drop_last() =~= type_args@.take(i as int));
                    assert(tk.last() == type_args@[i as int]);
                    if i == 0 {
                        assert(tk.len() == 1 && tk[0] == type_args@[0]);
                    }
                    assert(out@ =~= head + type_source_texts(tk));
                }
                i = i + 1;
            }
            out.push('>');
            proof {
                assert(type_args@.take(type_args@.len() as int) =~= type_args@);
                assert(out@ =~= old(out)@ + type_source_text(*t));
            }
        },
        TypeRef::Array { element_type, .. } => {
            push_type_ref_text(element_type, out);
            out.push('[');
            out.push(']');
            assert(out@ =~= old(out)@ + type_source_text(*t));
        },
        TypeRef::Injector { base_type, .. } => {
            push_type_ref_text(base_type, out);
            out.push('^');
            assert(out@ =~= old(out)@ + type_source_text(*t));
        },
        TypeRef::Delegate { return_type, param_types, .. } => {
            let mut cs = chars_of("delegate<");
            out.append(&mut cs);
            push_type_ref_text(return_type, out);
            let ghost head = out@;
            let mut i: usize = 0;
            while i < param_types.len()
                invariant
                    i <= param_types@.len(),
                    out@ == head + param_source_texts(param_types@.take(i as int)),
                decreases param_types.len() - i,
            {
                out.push(':');
                proof {
                    assert(decreases_to!(*t => param_types@[i as int]));
                }
                push_type_ref_text(&param_types[i], out);
                proof {
                    let tk = param_types@.take(i + 1);
                    assert(tk.drop_last() =~= param_types@.take(i as int));
                    assert(tk.last() == param_types@[i as int]);
                    assert(out@ =~= head + param_source_texts(tk));
                }
                i = i + 1;
            }
            out.push('>');
            proof {
                assert(param_types@.take(param_types@.len() as int) =~= param_types@);
                assert(out@ =~= old(out)@ + type_source_text(*t));
            }
        },
    }
}

/// The text of type `t` as written.
fn type_ref_text(t: &TypeRef) -> (r: String)
    ensures
        r@ == type_source_text(*t),
{
    let mut out: Vec<char> = Vec::new();
    push_type_ref_text(t, &mut out);
    assert(out@ =~= type_source_text(*t));
    string_from_chars(&out)
}

/// The modifier that token `t` writes, if it is a modifier keyword.
pub open spec fn modifier_of(t: Token) -> Option<Modifier> {
    match t {
        Token::KwNative => Some(Modifier::Native),
        Token::KwStatic => Some(Modifier::Static),
        Token::KwInjector => Some(Modifier::Injector),
        _ => None,
    }
}

/// The modifiers written by the run of modifier keywords at `pos`.
pub open spec fn modifier_run(tokens: Seq<TokenSpan>, pos: int) -> Seq<Modifier>
    decreases tokens.len() - pos,
{
    if 0 <= pos < tokens.len() && modifier_of(tokens[pos].token) is Some {
        seq![modifier_of(tokens[pos].token).unwrap()] + modifier_run(tokens, pos + 1)
    } else {
        Seq::empty()
    }
}

/// The number of modifiers of `ms` that repeat one before them.
pub open spec fn repeated_modifiers(ms: Seq<Modifier>) -> nat
    decreases ms.len(),
{
    if ms.len() == 0 {
        0
    } else {
        repeated_modifiers(ms.drop_last()) + if ms.drop_last().contains(ms.last()) {
            1nat
        } else {
            0nat
        }
    }
}

/// Whether `target` is what token `t` gives as a `break` target: a layer
/// count from an integer (a negative one counting none, a larger one cut to
/// its low 32 bits), or a loop or branch keyword by its word.
pub open spec fn break_target_of(t: Token, target: BreakTarget) -> bool {
    match t {
        Token::IntLiteral(n) => target == BreakTarget::ByLayer(
            if n < 0 {
                0u32
            } else {
                n as u32
            },
        ),
        Token::KwFor => target matches BreakTarget::ByKeyword(w) && w@ == "for"@,
        Token::KwWhile => target matches BreakTarget::ByKeyword(w) && w@ == "while"@,
        Token::KwSwitch => target matches BreakTarget::ByKeyword(w) && w@ == "switch"@,
        Token::KwDo => target matches BreakTarget::ByKeyword(w) && w@ == "do"@,
        Token::KwIf => target matches BreakTarget::ByKeyword(w) && w@ == "if"@,
        Token::KwElse => target matches BreakTarget::ByKeyword(w) && w@ == "else"@,
        _ => false,
    }
}

/// Whether token `t` can be a `break` target.
pub open spec fn is_break_target(t: Token) -> bool {
    ||| t is IntLiteral
    ||| t is KwFor
    ||| t is KwWhile
    ||| t is KwSwitch
    ||| t is KwDo
    ||| t is KwIf
    ||| t is KwElse
}

/// The number of tokens from `pos` on that can be `break` targets, in a row.
pub open spec fn break_run_len(tokens: Seq<TokenSpan>, pos: int) -> nat
    decreases tokens.len() - pos,
{
    if 0 <= pos < tokens.len() && is_break_target(tokens[pos].token) {
        1 + break_run_len(tokens, pos + 1)
    } else {
        0
    }
}

/// The name that token `p` writes, where it is an identifier.
pub open spec fn ident_at(tokens: Seq<TokenSpan>, p: int) -> Seq<char> {
    match tokens[p].token {
        Token::Identifier(n) => n@,
        _ => Seq::empty(),
    }
}

/// Whether token `p` is an identifier.
pub open spec fn is_ident_at(tokens: Seq<TokenSpan>, p: int) -> bool {
    0 <= p < tokens.len() && tokens[p].token is Identifier
}

/// Whether token `p` is of the kind of `t`.
pub open spec fn kind_at(tokens: Seq<TokenSpan>, p: int, t: Token) -> bool {
    0 <= p < tokens.len() && tag_of(tokens[p].token) == tag_of(t)
}

/// From `p`, the names of a run of `sep name` pairs, and where the run ends;
/// `None` where a separator is not followed by an identifier.
pub open spec fn separated_names(tokens: Seq<TokenSpan>, p: int, sep: Token) -> Option<(Seq<Seq<char>>, int)>
    decreases tokens.len() - p,
{
    if 0 <= p && kind_at(tokens, p, sep) {
        if is_ident_at(tokens, p + 1) {
            match separated_names(tokens, p + 2, sep) {
                Some((rest, e)) => Some((seq![ident_at(tokens, p + 1)] + rest, e)),
                None => None,
            }
        } else {
            None
        }
    } else {
        Some((Seq::empty(), p))
    }
}

/// `done` put before the names of `tail`.
pub open spec fn names_after(done: Seq<Seq<char>>, tail: Option<(Seq<Seq<char>>, int)>) -> Option<
    (Seq<Seq<char>>, int),
> {
    match tail {
        Some((rest, e)) => Some((done + rest, e)),
        None => None,
    }
}

/// The names of `v`.
pub open spec fn string_views(v: Seq<String>) -> Seq<Seq<char>> {
    v.map_values(|s: String| s@)
}

/// The span of token `p`; the placeholder span where there is none.
pub open spec fn span_at(tokens: Seq<TokenSpan>, p: int) -> Span {
    if 0 <= p < tokens.len() {
        tokens[p].span
    } else {
        Span::dummy_spec()
    }
}

/// The name of the built-in type (or `auto`) that token `p` writes.
pub open spec fn builtin_type_at(tokens: Seq<TokenSpan>, p: int) -> Option<Seq<char>> {
    if kind_at(tokens, p, Token::TypeInt) {
        Some("int"@)
    } else if kind_at(tokens, p, Token::TypeFloat) {
        Some("float"@)
    } else if kind_at(tokens, p, Token::TypeBool) {
        Some("bool"@)
    } else if kind_at(tokens, p, Token::TypeString) {
        Some("string"@)
    } else if kind_at(tokens, p, Token::TypeVoid) {
        Some("void"@)
    } else if kind_at(tokens, p, Token::TypeObject) {
        Some("object"@)
    } else if kind_at(tokens, p, Token::KwAuto) {
        Some("auto"@)
    } else {
        None
    }
}

/// Whether tokens `p..e` are identifiers joined by dots: `A`, `A.B`, ...
pub open spec fn dotted_at(tokens: Seq<TokenSpan>, p: int, e: int) -> bool
    decreases e - p,
{
    if e == p + 1 {
        is_ident_at(tokens, p)
    } else if e >= p + 3 {
        dotted_at(tokens, p, e - 2) && kind_at(tokens, e - 2, Token::Dot) && is_ident_at(tokens, e - 1)
    } else {
        false
    }
}

/// The name that the dotted identifiers `p..e` write, dots included.
pub open spec fn dotted_name(tokens: Seq<TokenSpan>, p: int, e: int) -> Seq<char>
    decreases e - p,
{
    if e >= p + 3 {
        dotted_name(tokens, p, e - 2) + "."@ + ident_at(tokens, e - 1)
    } else {
        ident_at(tokens, p)
    }
}

/// Whether token `q` separates two types of a list: a `,`, or where
/// `colon_too`, a `:`.
pub open spec fn separator_at(tokens: Seq<TokenSpan>, q: int, colon_too: bool) -> bool {
    kind_at(tokens, q, Token::Comma) || (colon_too && kind_at(tokens, q, Token::Colon))
}

/// Whether `t` is the type that tokens `p..e` write: a built-in type, a
/// dotted name, a dotted name with type arguments `<A, B>`,
/// `delegate<R:P...>`, or one of these followed by `[]` and `^` suffixes;
/// every part carries the span of the token it starts at.
pub open spec fn type_written(tokens: Seq<TokenSpan>, p: int, e: int, t: TypeRef) -> bool
    decreases t,
{
    match t {
        TypeRef::Simple { name, span } => {
            &&& span == span_at(tokens, p)
            &&& (e == p + 1 && builtin_type_at(tokens, p) == Some(name@)) || (builtin_type_at(
                tokens,
                p,
            ) is None && dotted_at(tokens, p, e) && name@ == dotted_name(tokens, p, e))
        },
        TypeRef::Generic { name, type_args, span } => {
            &&& span == span_at(tokens, p)
            &&& builtin_type_at(tokens, p) is None
            &&& kind_at(tokens, e - 1, Token::Greater)
            &&& exists|q: int|
                #![trigger dotted_at(tokens, p, q)]
                p < q < e && dotted_at(tokens, p, q) && name@ == dotted_name(tokens, p, q) && kind_at(
                    tokens,
                    q,
                    Token::Less,
                ) && list_written(tokens, q + 1, e - 1, type_args@, false)
        },
        TypeRef::Array { element_type, span } => {
            &&& span == span_at(tokens, p)
            &&& kind_at(tokens, e - 2, Token::LBracket)
            &&& kind_at(tokens, e - 1, Token::RBracket)
            &&& type_written(tokens, p, e - 2, *element_type)
        },
        TypeRef::Injector { base_type, span } => {
            &&& span == span_at(tokens, p)
            &&& kind_at(tokens, e - 1, Token::Caret)
            &&& type_written(tokens, p, e - 1, *base_type)
        },
        TypeRef::Delegate { return_type, param_types, span } => {
            &&& span == span_at(tokens, p)
            &&& kind_at(tokens, p, Token::KwDelegate)
            &&& kind_at(tokens, p + 1, Token::Less)
            &&& kind_at(tokens, e - 1, Token::Greater)
            &&& exists|q: int|
                #![trigger closes_or_separates(tokens, q)]
                closes_or_separates(tokens, q) && type_written(tokens, p + 2, q, *return_type)
                    && params_written(tokens, q, e - 1, param_types@)
        },
    }
}

/// Whether token `q` is a `>`, a `,` or a `:`: where the return type of a
/// delegate type can end.
pub open spec fn closes_or_separates(tokens: Seq<TokenSpan>, q: int) -> bool {
    kind_at(tokens, q, Token::Greater) || separator_at(tokens, q, true)
}

/// Whether `ts` are the types that tokens `a..b` write, each after a `:` or
/// a `,`.
pub open spec fn params_written(tokens: Seq<TokenSpan>, a: int, b: int, ts: Seq<TypeRef>) -> bool
    decreases ts,
{
    if ts.len() == 0 {
        a == b
    } else {
        exists|q: int|
            #![trigger separator_at(tokens, q, true)]
            params_written(tokens, a, q, ts.drop_last()) && separator_at(tokens, q, true) && type_written(
                tokens,
                q + 1,
                b,
                ts.last(),
            )
    }
}

/// Whether `ts` (at least one) are the types that tokens `a..b` write, one
/// after another with a separator between two.
pub open spec fn list_written(tokens: Seq<TokenSpan>, a: int, b: int, ts: Seq<TypeRef>, colon_too: bool) -> bool
    decreases ts,
{
    if ts.len() == 0 {
        false
    } else if ts.len() == 1 {
        type_written(tokens, a, b, ts[0])
    } else {
        exists|q: int|
            #![trigger separator_at(tokens, q, colon_too)]
            list_written(tokens, a, q, ts.drop_last(), colon_too) && separator_at(tokens, q, colon_too)
                && type_written(tokens, q + 1, b, ts.last())
    }
}

/// Whether `target` is what an assignment to `left` writes to: a variable,
/// a field (an injector field where the member starts with `^`, which the
/// field's name leaves out) or an array element.
pub open spec fn assignment_target_of(left: Expression, target: AssignmentTarget) -> bool {
    match left {
        Expression::Identifier(name, s) => target == AssignmentTarget::Variable(name, s),
        Expression::MemberAccess { object, member, span } => if member@.len() > 0 && member@[0]
            == '^' {
            target matches AssignmentTarget::InjectorField { object: o, field, span: s } && o == object
                && field@ == member@.subrange(1, member@.len() as int) && s == span
        } else {
            target == AssignmentTarget::Field { object, field: member, span }
        },
        Expression::ArrayAccess { array, index, span } => target == AssignmentTarget::ArrayElement {
            array,
            index,
            span,
        },
        _ => false,
    }
}

/// Whether `xs` (at least one) are the expressions that tokens `a..b`
/// write, separated by commas.
pub open spec fn argument_items(tokens: Seq<TokenSpan>, a: int, b: int, xs: Seq<Expression>) -> bool
    decreases b - a, 3int,
{
    if xs.len() == 0 {
        false
    } else if xs.len() == 1 {
        a < b && expression_top(tokens, a, b, PREC_ASSIGNMENT, xs[0])
    } else {
        exists|c: int|
            #![trigger separator_at(tokens, c, false)]
            a < c && c + 1 < b && argument_items(tokens, a, c, xs.drop_last()) && separator_at(
                tokens,
                c,
                false,
            ) && expression_top(tokens, c + 1, b, PREC_ASSIGNMENT, xs.last())
    }
}

/// Whether `xs` are the arguments that tokens `a..b` write: none where a
/// `)` or `]` comes first, else expressions separated by commas, with a
/// comma after the last allowed where `)` or `]` follows it.
pub open spec fn arguments_written(tokens: Seq<TokenSpan>, a: int, b: int, xs: Seq<Expression>) -> bool
    decreases b - a, 4int,
{
    if xs.len() == 0 {
        a == b && (kind_at(tokens, a, Token::RParen) || kind_at(tokens, a, Token::RBracket))
    } else {
        ||| argument_items(tokens, a, b, xs)
        ||| a < b - 1 && kind_at(tokens, b - 1, Token::Comma) && argument_items(tokens, a, b - 1, xs)
            && (kind_at(tokens, b, Token::RParen) || kind_at(tokens, b, Token::RBracket))
    }
}

/// Whether `f` is the entry `key: value` that tokens `a..b` write.
pub open spec fn entry_written(tokens: Seq<TokenSpan>, a: int, b: int, f: (String, Expression)) -> bool
    decreases b - a, 3int,
{
    &&& is_ident_at(tokens, a)
    &&& f.0@ == ident_at(tokens, a)
    &&& kind_at(tokens, a + 1, Token::Colon)
    &&& a + 2 < b
    &&& expression_top(tokens, a + 2, b, PREC_ASSIGNMENT, f.1)
}

/// Whether `fs` (at least one) are the entries that tokens `a..b` write,
/// separated by commas.
pub open spec fn entries_written(tokens: Seq<TokenSpan>, a: int, b: int, fs: Seq<(String, Expression)>) -> bool
    decreases b - a, 4int,
{
    if fs.len() == 0 {
        false
    } else if fs.len() == 1 {
        a < b && entry_written(tokens, a, b, fs[0])
    } else {
        exists|c: int|
            #![trigger separator_at(tokens, c, false)]
            a < c && c + 1 < b && entries_written(tokens, a, c, fs.drop_last()) && separator_at(
                tokens,
                c,
                false,
            ) && entry_written(tokens, c + 1, b, fs.last())
    }
}

/// Whether `x`, ending before token `e`, is what the infix or postfix
/// operator at `p` makes of the operand `left` before it: the node it builds,
/// its operator, its operand `left`, its span (that of the operator, but for
/// a binary operation, which spans both operands), and the operands after
/// the operator as the tokens up to `e` write them.
pub open spec fn infix_node(tokens: Seq<TokenSpan>, p: int, e: int, left: Expression, x: Expression) -> bool
    decreases e - p, 1int,
{
    let tok = tokens[p].token;
    let span = tokens[p].span;
    let ls = left.spec_span();
    match tok {
        Token::Plus | Token::Minus | Token::Star | Token::Slash | Token::Percent | Token::Less
        | Token::LessEqual | Token::Greater | Token::GreaterEqual | Token::EqualEqual
        | Token::NotEqual | Token::AndAnd | Token::OrOr => x matches Expression::Binary {
            left: l,
            operator,
            right,
            span: s,
        } && *l == left && operator == binary_op_of(tok) && s == (Span {
            start: ls.start,
            end: right.spec_span().end,
            line: ls.line,
            column: ls.column,
            source_id: ls.source_id,
        }) && binary_op_precedence(operator) == infix_precedence(tok) && (!kind_at(
            tokens,
            p + 1,
            Token::LParen,
        ) ==> (*right matches Expression::Binary { operator: o2, .. } ==> binary_op_precedence(o2)
            > binary_op_precedence(operator))) && p + 1 < e && expression_top(
            tokens,
            p + 1,
            e,
            (infix_precedence(tok) + 1) as u8,
            *right,
        ),
        Token::Assign | Token::PlusAssign | Token::MinusAssign | Token::StarAssign
        | Token::SlashAssign | Token::PercentAssign => x matches Expression::Assignment {
            target,
            operator,
            value,
            span: s,
        } && assignment_target_of(left, target) && operator == assignment_op_of(tok) && s == span
            && p + 1 < e && expression_top(tokens, p + 1, e, infix_precedence(tok), *value),
        Token::Question => x matches Expression::Conditional {
            condition,
            then_branch,
            else_branch,
            span: s,
        } && *condition == left && s == span && else_branch is Some && exists|c: int|
            #![trigger kind_at(tokens, c, Token::Colon)]
            p + 1 < c && c + 1 < e && kind_at(tokens, c, Token::Colon) && expression_top(
                tokens,
                p + 1,
                c,
                PREC_ASSIGNMENT,
                *then_branch,
            ) && expression_top(tokens, c + 1, e, PREC_CONDITIONAL, *else_branch.unwrap()),
        Token::Dot => x matches Expression::MemberAccess { object, member, span: s } && *object
            == left && s == span && if kind_at(tokens, p + 1, Token::Caret) {
            member@ == "^"@ + ident_at(tokens, p + 2) && is_ident_at(tokens, p + 2) && e == p + 3
        } else {
            member@ == ident_at(tokens, p + 1) && is_ident_at(tokens, p + 1) && e == p + 2
        },
        Token::LParen => kind_at(tokens, e - 1, Token::RParen) && p + 1 <= e - 1 && match left {
            Expression::Identifier(name, _) => x matches Expression::StaticMethodCall {
                class_name,
                method,
                arguments,
                span: s,
            } && class_name@ == Seq::<char>::empty() && method == name && s == span
                && arguments_written(tokens, p + 1, e - 1, arguments@),
            Expression::MemberAccess { object, member, .. } => x matches Expression::MethodCall {
                receiver,
                method,
                arguments,
                span: s,
            } && receiver == object && method == member && s == span && arguments_written(
                tokens,
                p + 1,
                e - 1,
                arguments@,
            ),
            _ => x matches Expression::MethodCall { receiver, method, arguments, span: s } && *receiver
                == left && method@ == Seq::<char>::empty() && s == span && arguments_written(
                tokens,
                p + 1,
                e - 1,
                arguments@,
            ),
        },
        Token::LBracket => x matches Expression::ArrayAccess { array, index, span: s } && *array
            == left && s == span && kind_at(tokens, e - 1, Token::RBracket) && p + 1 < e - 1
            && expression_top(tokens, p + 1, e - 1, PREC_ASSIGNMENT, *index),
        Token::PlusPlus => x matches Expression::Unary { operator, operand, span: s } && operator
            == UnaryOp::PostIncrement && *operand == left && s == span && e == p + 1,
        Token::MinusMinus => x matches Expression::Unary { operator, operand, span: s } && operator
            == UnaryOp::PostDecrement && *operand == left && s == span && e == p + 1,
        Token::Caret => x matches Expression::MemberAccess { object, member, span: s } && *object
            == left && member@ == "^"@ && s == span && e == p + 1,
        Token::Colon => if kind_at(tokens, p + 1, Token::LParen) {
            x matches Expression::Lambda { span: s, .. } && s == span
        } else {
            &&& kind_at(tokens, p + 1, Token::LBrace)
            &&& x is InjectorObject || x is InjectorArray
            &&& x.spec_span() == span
            &&& x matches Expression::InjectorObject { class_name, .. } ==> class_name@ == match left {
                Expression::Identifier(name, _) => name@,
                _ => Seq::<char>::empty(),
            }
        },
        _ => false,
    }
}

/// Where a run of `[]` pairs from `q` ends.
pub open spec fn skip_bracket_pairs(tokens: Seq<TokenSpan>, q: int) -> int
    decreases tokens.len() - q,
{
    if kind_at(tokens, q, Token::LBracket) && kind_at(tokens, q + 1, Token::RBracket) {
        skip_bracket_pairs(tokens, q + 2)
    } else {
        q
    }
}

/// Where a run of `^` from `q` ends.
pub open spec fn skip_carets(tokens: Seq<TokenSpan>, q: int) -> int
    decreases tokens.len() - q,
{
    if kind_at(tokens, q, Token::Caret) {
        skip_carets(tokens, q + 1)
    } else {
        q
    }
}

/// Whether a name followed by the tokens from `q` starts a typed lambda
/// `Name[]^:(params) -> body`: `[]` pairs, then carets, then `:(`.
pub open spec fn typed_lambda_after(tokens: Seq<TokenSpan>, q: int) -> bool {
    let r = skip_carets(tokens, skip_bracket_pairs(tokens, q));
    kind_at(tokens, r, Token::Colon) && kind_at(tokens, r + 1, Token::LParen)
}

/// Whether token `r` can start the operand of a cast to a named type.
pub open spec fn starts_cast_operand(tokens: Seq<TokenSpan>, r: int) -> bool {
    0 <= r < tokens.len() && match tokens[r].token {
        Token::Identifier(_) | Token::IntLiteral(_) | Token::FloatLiteral(_)
        | Token::StringLiteral(_) | Token::KwTrue | Token::KwFalse | Token::LParen | Token::KwThis
        | Token::KwNew | Token::Bang => true,
        _ => false,
    }
}

/// Whether the tokens from `q` (just after a `(`) make a cast: a primitive
/// type other than `void` and `)`, or a name and `)` followed by a token
/// that starts an operand.
pub open spec fn cast_ahead(tokens: Seq<TokenSpan>, q: int) -> bool {
    let builtin = kind_at(tokens, q, Token::TypeInt) || kind_at(tokens, q, Token::TypeFloat)
        || kind_at(tokens, q, Token::TypeBool) || kind_at(tokens, q, Token::TypeString)
        || kind_at(tokens, q, Token::TypeObject);
    &&& builtin || is_ident_at(tokens, q)
    &&& kind_at(tokens, q + 1, Token::RParen)
    &&& is_ident_at(tokens, q) ==> starts_cast_operand(tokens, q + 2)
}

/// The dotted identifiers `p..e` of more than one name have a dot second.
proof fn lemma_dotted_second(tokens: Seq<TokenSpan>, p: int, e: int)
    requires
        dotted_at(tokens, p, e),
        e >= p + 3,
    ensures
        kind_at(tokens, p + 1, Token::Dot),
    decreases e - p,
{
    if e - 2 >= p + 3 {
        lemma_dotted_second(tokens, p, e - 2);
    } else {
        assert(!dotted_at(tokens, p, p + 2));
    }
}

/// A type written from `q` that a `)` follows at once, and that is no
/// delegate type, is one token long.
proof fn lemma_type_single_token(tokens: Seq<TokenSpan>, q: int, e: int, t: TypeRef)
    requires
        type_written(tokens, q, e, t),
        kind_at(tokens, q + 1, Token::RParen),
        !kind_at(tokens, q, Token::KwDelegate),
    ensures
        e == q + 1,
    decreases t,
{
    match t {
        TypeRef::Simple { .. } => {
            if e >= q + 3 {
                lemma_dotted_second(tokens, q, e);
            }
        },
        TypeRef::Generic { name, type_args, .. } => {
            let w = choose|w: int|
                #![trigger dotted_at(tokens, q, w)]
                q < w < e && dotted_at(tokens, q, w) && name@ == dotted_name(tokens, q, w) && kind_at(
                    tokens,
                    w,
                    Token::Less,
                ) && list_written(tokens, w + 1, e - 1, type_args@, false);
            if w >= q + 3 {
                lemma_dotted_second(tokens, q, w);
            }
        },
        TypeRef::Array { element_type, .. } => {
            lemma_type_single_token(tokens, q, e - 2, *element_type);
        },
        TypeRef::Injector { base_type, .. } => {
            lemma_type_single_token(tokens, q, e - 1, *base_type);
        },
        TypeRef::Delegate { .. } => {},
    }
}

/// Whether `x` is what a primitive type keyword written `word` at `p` starts:
/// a typed lambda where `:(` follows, the keyword as a name otherwise.
pub open spec fn keyword_operand(tokens: Seq<TokenSpan>, p: int, word: Seq<char>, x: Expression) -> bool {
    let span = tokens[p].span;
    if kind_at(tokens, p + 1, Token::Colon) && kind_at(tokens, p + 2, Token::LParen) {
        x matches Expression::Lambda { span: s, .. } && s == span
    } else {
        x matches Expression::Identifier(n, s) && n@ == word && s == span
    }
}

/// Whether `x` is what `new` makes of the tokens from `q` (just after it),
/// with `span` the span of `new`: an object built by an injector field after
/// `^`; after a type, an object of that type or an array (a call of
/// `new_array`); else an object of the class that an operand names.
pub open spec fn new_node(tokens: Seq<TokenSpan>, q: int, e: int, span: Span, x: Expression) -> bool
    decreases e - q, 1int,
{
    if kind_at(tokens, q, Token::Caret) {
        x matches Expression::InjectorNew { injector_field, args, span: s } && injector_field@
            == ident_at(tokens, q + 1) && is_ident_at(tokens, q + 1) && s == span && if kind_at(
            tokens,
            q + 2,
            Token::LParen,
        ) {
            q + 3 <= e - 1 && kind_at(tokens, e - 1, Token::RParen) && arguments_written(
                tokens,
                q + 3,
                e - 1,
                args@,
            )
        } else {
            args@.len() == 0 && e == q + 2
        }
    } else if 0 <= q < tokens.len() && match tokens[q].token {
        Token::TypeInt | Token::TypeFloat | Token::TypeBool | Token::TypeString | Token::TypeVoid
        | Token::TypeObject | Token::KwDelegate | Token::Identifier(_) => true,
        _ => false,
    } {
        ||| x matches Expression::New { class_type, arguments, injector, span: s } && s == span
            && exists|t: int|
            #![trigger type_written(tokens, q, t, class_type)]
            q < t && type_written(tokens, q, t, class_type) && kind_at(tokens, t, Token::LParen) && (
            injector is None ==> t + 1 <= e - 1 && kind_at(tokens, e - 1, Token::RParen)
                && arguments_written(tokens, t + 1, e - 1, arguments@))
        ||| x matches Expression::StaticMethodCall { class_name, method, arguments, span: s } && method@
            == "new_array"@ && s == span && arguments@.len() >= 1 && exists|t: int, ty: TypeRef, m: int|
            #![trigger type_written(tokens, q, t, ty), kind_at(tokens, m, Token::RBracket)]
            q < t && t + 1 < m < e && type_written(tokens, q, t, ty) && kind_at(tokens, t, Token::LBracket)
                && expression_top(tokens, t + 1, m, PREC_ASSIGNMENT, arguments@[0]) && kind_at(
                tokens,
                m,
                Token::RBracket,
            ) && class_name@ == match ty {
                TypeRef::Simple { name, .. } => name@,
                _ => "array"@,
            }
    } else {
        ||| x matches Expression::InjectorNew { span: s, .. } && s == span
        ||| x matches Expression::StaticMethodCall { method, span: s, .. } && method@
            == Seq::<char>::empty() && s == span
    }
}

/// `new T[size] ..` written from `q` to `e`: the array creation node.
proof fn lemma_new_array_node(
    tokens: Seq<TokenSpan>,
    q: int,
    t: int,
    m: int,
    e: int,
    span: Span,
    ty: TypeRef,
    x: Expression,
)
    requires
        0 <= q < tokens.len(),
        match tokens[q].token {
            Token::TypeInt | Token::TypeFloat | Token::TypeBool | Token::TypeString | Token::TypeVoid
            | Token::TypeObject | Token::KwDelegate | Token::Identifier(_) => true,
            _ => false,
        },
        q < t,
        t + 1 < m < e,
        type_written(tokens, q, t, ty),
        kind_at(tokens, t, Token::LBracket),
        kind_at(tokens, m, Token::RBracket),
        x matches Expression::StaticMethodCall { class_name, method, arguments, span: s } && method@
            == "new_array"@ && s == span && arguments@.len() >= 1 && expression_top(
            tokens,
            t + 1,
            m,
            PREC_ASSIGNMENT,
            arguments@[0],
        ) && class_name@ == match ty {
            TypeRef::Simple { name, .. } => name@,
            _ => "array"@,
        },
    ensures
        new_node(tokens, q, e, span, x),
{
    assert(!kind_at(tokens, q, Token::Caret));
    let args = x->StaticMethodCall_arguments;
    assert(expression_top(tokens, t + 1, m, PREC_ASSIGNMENT, args@[0]));
    assert(kind_at(tokens, m, Token::RBracket));
}

/// Whether `prm` is the parameter `name` of a lambda `name => body` at
/// `span`: of type `var`.
pub open spec fn untyped_parameter(prm: Parameter, name: String, span: Span) -> bool {
    &&& prm.name == name
    &&& prm.span == span
    &&& prm.param_type matches TypeRef::Simple { name: tn, span: ts } && tn@ == "var"@ && ts == span
}

/// Whether `x` is the operand that token `p` starts and that ends before
/// token `e`: a literal, `null`, `this`, `super` or `^name`; a name, or the
/// lambda it starts; a primitive type keyword as a name, or the typed lambda
/// it starts; a prefix operator applied to the operand after it; `new`; an
/// injector object `{ .. }` or array `[ .. ]`; and after `(` a cast where
/// the tokens make one, else the expression inside the parentheses.
pub open spec fn prefix_node(tokens: Seq<TokenSpan>, p: int, e: int, x: Expression) -> bool
    decreases e - p, 1int,
{
    let span = tokens[p].span;
    match tokens[p].token {
        Token::IntLiteral(v) => x == Expression::Literal(Literal::Int(v), span) && e == p + 1,
        Token::FloatLiteral(v) => x == Expression::Literal(Literal::Float(v), span) && e == p + 1,
        Token::StringLiteral(v) => x == Expression::Literal(Literal::String(v), span) && e == p + 1,
        Token::KwTrue => x == Expression::Literal(Literal::Bool(true), span) && e == p + 1,
        Token::KwFalse => x == Expression::Literal(Literal::Bool(false), span) && e == p + 1,
        Token::KwNull => x == Expression::Null(span) && e == p + 1,
        Token::KwThis => x == Expression::This(span) && e == p + 1,
        Token::KwSuper => x == Expression::Super(span) && e == p + 1,
        Token::Caret => x matches Expression::InjectorFieldRef(name, s) && name@ == ident_at(
            tokens,
            p + 1,
        ) && s == span && is_ident_at(tokens, p + 1) && e == p + 2,
        Token::Identifier(name) => if kind_at(tokens, p + 1, Token::Arrow) {
            x matches Expression::Lambda { parameters, body, span: s } && s == span
                && parameters@.len() == 1 && untyped_parameter(parameters@[0], name, span)
                && (body matches LambdaBody::Expression(b) ==> p + 2 < e && expression_top(
                tokens,
                p + 2,
                e,
                PREC_ASSIGNMENT,
                *b,
            ))
        } else if typed_lambda_after(tokens, p + 1) {
            x matches Expression::Lambda { parameters, body, span: s } && s == span && exists|c: int|
                #![trigger kind_at(tokens, c, Token::RParen)]
                p < c && kind_at(tokens, c, Token::RParen) && kind_at(tokens, c + 1, Token::LambdaArrow) && parameters_written(
                    tokens,
                    skip_carets(tokens, skip_bracket_pairs(tokens, p + 1)) + 2,
                    c,
                    parameters@,
                ) && (body matches LambdaBody::Expression(b) ==> c + 2 < e && expression_top(
                    tokens,
                    c + 2,
                    e,
                    PREC_ASSIGNMENT,
                    *b,
                ))
        } else {
            x == Expression::Identifier(name, span) && e == p + 1
        },
        Token::TypeInt => keyword_operand(tokens, p, "int"@, x) && (x is Identifier ==> e == p + 1),
        Token::TypeFloat => keyword_operand(tokens, p, "float"@, x) && (x is Identifier ==> e == p + 1),
        Token::TypeBool => keyword_operand(tokens, p, "bool"@, x) && (x is Identifier ==> e == p + 1),
        Token::TypeString => keyword_operand(tokens, p, "string"@, x) && (x is Identifier ==> e == p + 1),
        Token::TypeVoid => keyword_operand(tokens, p, "void"@, x) && (x is Identifier ==> e == p + 1),
        Token::TypeObject => keyword_operand(tokens, p, "object"@, x) && (x is Identifier ==> e == p + 1),
        Token::Minus => x matches Expression::Unary { operator, operand, span: s } && operator
            == UnaryOp::Negate && s == span && p + 1 < e && expression_top(tokens, p + 1, e, PREC_UNARY, *operand),
        Token::Bang => x matches Expression::Unary { operator, operand, span: s } && operator
            == UnaryOp::Not && s == span && p + 1 < e && expression_top(tokens, p + 1, e, PREC_UNARY, *operand),
        Token::PlusPlus => x matches Expression::Unary { operator, operand, span: s } && operator
            == UnaryOp::PreIncrement && s == span && p + 1 < e && expression_top(tokens, p + 1, e, PREC_UNARY, *operand),
        Token::MinusMinus => x matches Expression::Unary { operator, operand, span: s } && operator
            == UnaryOp::PreDecrement && s == span && p + 1 < e && expression_top(tokens, p + 1, e, PREC_UNARY, *operand),
        Token::LParen => if cast_ahead(tokens, p + 1) {
            x matches Expression::Cast { target_type, expression, span: s } && s == span && type_written(
                tokens,
                p + 1,
                p + 2,
                target_type,
            ) && kind_at(tokens, p + 2, Token::RParen) && p + 3 < e && expression_top(
                tokens,
                p + 3,
                e,
                PREC_UNARY,
                *expression,
            )
        } else {
            p + 1 < e - 1 && kind_at(tokens, e - 1, Token::RParen) && expression_top(
                tokens,
                p + 1,
                e - 1,
                PREC_ASSIGNMENT,
                x,
            )
        },
        Token::KwNew => p + 1 < e && new_node(tokens, p + 1, e, span, x),
        Token::LBrace => x matches Expression::InjectorObject { class_name, fields, span: s }
            && class_name@ == Seq::<char>::empty() && s == span && kind_at(tokens, e - 1, Token::RBrace)
            && if fields@.len() == 0 {
            e == p + 2
        } else {
            ||| p + 1 < e - 1 && entries_written(tokens, p + 1, e - 1, fields@)
            ||| p + 1 < e - 2 && kind_at(tokens, e - 2, Token::Comma) && entries_written(
                tokens,
                p + 1,
                e - 2,
                fields@,
            )
        },
        Token::LBracket => x matches Expression::InjectorArray { elements, span: s } && s == span
            && kind_at(tokens, e - 1, Token::RBracket) && p + 1 <= e - 1 && arguments_written(
            tokens,
            p + 1,
            e - 1,
            elements@,
        ),
        _ => false,
    }
}

/// Whether an expression parsed at binding power `min_prec` ends before
/// token `q`: at the end of the tokens; at a `:` that neither `{` nor `(`
/// follows, where colons are not suppressed; or at a token that binds less
/// than `min_prec` as an infix operator.
pub open spec fn expression_stops(tokens: Seq<TokenSpan>, q: int, min_prec: u8, suppressed: bool) -> bool {
    ||| q >= tokens.len()
    ||| !suppressed && kind_at(tokens, q, Token::Colon) && !kind_at(tokens, q + 1, Token::LBrace)
        && !kind_at(tokens, q + 1, Token::LParen)
    ||| !(!suppressed && kind_at(tokens, q, Token::Colon)) && infix_precedence(tokens[q].token)
        < min_prec
}

/// Whether `x` is an expression that tokens `p..e` write at binding power
/// `min_prec`: the operand at `p`, or the node that an infix or postfix
/// operator within them builds of the expression before it (itself written
/// by the tokens from `p` up to the operator), where the operator binds at
/// least as tightly as `min_prec` or is a `:` that continues the expression.
pub open spec fn expression_top(tokens: Seq<TokenSpan>, p: int, e: int, min_prec: u8, x: Expression) -> bool
    decreases e - p, 2int,
{
    ||| prefix_node(tokens, p, e, x)
    ||| exists|q: int, l: Expression|
        #![trigger left_binds_as_tightly(tokens, p, q, l)]
        p < q < e && infix_node(tokens, q, e, l, x) && (infix_precedence(tokens[q].token)
            >= min_prec || kind_at(tokens, q, Token::Colon)) && left_binds_as_tightly(tokens, p, q, l)
            && expression_top(tokens, p, q, min_prec, l)
}

/// Whether token `t` writes a binary operator.
pub open spec fn is_binary_token(t: Token) -> bool {
    match t {
        Token::Plus | Token::Minus | Token::Star | Token::Slash | Token::Percent | Token::Less
        | Token::LessEqual | Token::Greater | Token::GreaterEqual | Token::EqualEqual
        | Token::NotEqual | Token::AndAnd | Token::OrOr => true,
        _ => false,
    }
}

/// Whether a binary operation `l`, built from the expression at `p` (one that
/// does not start with `(`) before the binary operator at `q`, binds at
/// least as tightly as that operator.
pub open spec fn left_binds_as_tightly(tokens: Seq<TokenSpan>, p: int, q: int, l: Expression) -> bool {
    l matches Expression::Binary { operator: o1, .. } ==> (!kind_at(tokens, p, Token::LParen)
        && is_binary_token(tokens[q].token) ==> infix_precedence(tokens[q].token)
        <= binary_op_precedence(o1))
}

/// The binding power of binary operator `o`.
pub open spec fn binary_op_precedence(o: BinaryOp) -> u8 {
    match o {
        BinaryOp::LogicOr => PREC_LOGICAL_OR,
        BinaryOp::LogicAnd => PREC_LOGICAL_AND,
        BinaryOp::Equal | BinaryOp::NotEqual => PREC_EQUALITY,
        BinaryOp::Less | BinaryOp::LessEqual | BinaryOp::Greater | BinaryOp::GreaterEqual => PREC_COMPARISON,
        BinaryOp::Add | BinaryOp::Subtract => PREC_ADDITION,
        BinaryOp::Multiply | BinaryOp::Divide | BinaryOp::Modulo => PREC_MULTIPLICATION,
    }
}

/// Operators bind in the usual order: `* / %` tighter than `+ -`, tighter
/// than `< <= > >=`, tighter than `== !=`, tighter than `&&`, tighter than
/// `||`, tighter than `?:`, tighter than assignment; operators of one group
/// bind alike, and a binary expression takes the binding power of its token.
pub proof fn lemma_operator_binding_order(t: Token)
    ensures
        infix_precedence(Token::Star) == infix_precedence(Token::Slash) == infix_precedence(Token::Percent),
        infix_precedence(Token::Plus) == infix_precedence(Token::Minus),
        infix_precedence(Token::Less) == infix_precedence(Token::LessEqual) == infix_precedence(Token::Greater)
            == infix_precedence(Token::GreaterEqual),
        infix_precedence(Token::EqualEqual) == infix_precedence(Token::NotEqual),
        infix_precedence(Token::Star) > infix_precedence(Token::Plus),
        infix_precedence(Token::Plus) > infix_precedence(Token::Less),
        infix_precedence(Token::Less) > infix_precedence(Token::EqualEqual),
        infix_precedence(Token::EqualEqual) > infix_precedence(Token::AndAnd),
        infix_precedence(Token::AndAnd) > infix_precedence(Token::OrOr),
        infix_precedence(Token::OrOr) > infix_precedence(Token::Question),
        infix_precedence(Token::Question) > infix_precedence(Token::Assign),
        infix_precedence(Token::Assign) > PREC_NONE,
        is_binary_token(t) ==> binary_op_precedence(binary_op_of(t)) == infix_precedence(t),
{
}

/// An operand that is a binary operation starts with `(`.
proof fn lemma_prefix_not_binary(tokens: Seq<TokenSpan>, p: int, e: int, x: Expression)
    requires
        0 <= p < tokens.len(),
        prefix_node(tokens, p, e, x),
        x is Binary,
    ensures
        kind_at(tokens, p, Token::LParen),
{
    match tokens[p].token {
        Token::Identifier(_) => {
            assert(!kind_at(tokens, p + 1, Token::Arrow) && !typed_lambda_after(tokens, p + 1));
        },
        Token::KwNew => {
            assert(new_node(tokens, p + 1, e, tokens[p].span, x));
        },
        Token::LParen => {},
        _ => {},
    }
}

/// Law: where an expression that does not start with `(` is a binary
/// operation whose left operand is one too, the left operand binds at least
/// as tightly: operators of equal binding power group to the left.
pub proof fn law_binary_left_operand_binds_as_tightly(
    tokens: Seq<TokenSpan>,
    p: int,
    e: int,
    min_prec: u8,
    x: Expression,
)
    requires
        expression_top(tokens, p, e, min_prec, x),
        !kind_at(tokens, p, Token::LParen),
        0 <= p < tokens.len(),
    ensures
        x matches Expression::Binary { left, operator, .. } ==> (*left matches Expression::Binary {
            operator: o1,
            ..
        } ==> binary_op_precedence(o1) >= binary_op_precedence(operator)),
{
    if x is Binary {
        if prefix_node(tokens, p, e, x) {
            lemma_prefix_not_binary(tokens, p, e, x);
        } else {
            let (q, l) = choose|q: int, l: Expression|
                #![trigger left_binds_as_tightly(tokens, p, q, l)]
                p < q < e && infix_node(tokens, q, e, l, x) && (infix_precedence(tokens[q].token)
                    >= min_prec || kind_at(tokens, q, Token::Colon)) && left_binds_as_tightly(
                    tokens,
                    p,
                    q,
                    l,
                ) && expression_top(tokens, p, q, min_prec, l);
            assert(infix_node(tokens, q, e, l, x));
        }
    }
}

/// Law: the top binary operation of an expression parsed at binding power
/// `min_prec`, unless the expression starts with `(`, binds at least as
/// tightly as `min_prec`.
pub proof fn law_binary_top_binds_tightly(tokens: Seq<TokenSpan>, p: int, e: int, min_prec: u8, x: Expression)
    requires
        expression_top(tokens, p, e, min_prec, x),
        !kind_at(tokens, p, Token::LParen),
        0 <= p < tokens.len(),
    ensures
        x matches Expression::Binary { operator, .. } ==> binary_op_precedence(operator) >= min_prec,
{
    if x is Binary {
        if prefix_node(tokens, p, e, x) {
            lemma_prefix_not_binary(tokens, p, e, x);
        } else {
            let (q, l) = choose|q: int, l: Expression|
                #![trigger left_binds_as_tightly(tokens, p, q, l)]
                p < q < e && infix_node(tokens, q, e, l, x) && (infix_precedence(tokens[q].token)
                    >= min_prec || kind_at(tokens, q, Token::Colon)) && left_binds_as_tightly(
                    tokens,
                    p,
                    q,
                    l,
                ) && expression_top(tokens, p, q, min_prec, l);
            assert(infix_node(tokens, q, e, l, x));
        }
    }
}



/// Whether `ts` are the targets that the tokens from `q` give a `break` or
/// `continue`: one for each token of the run of targets there, or one level
/// where the run is empty.
pub open spec fn break_targets_written(tokens: Seq<TokenSpan>, q: int, ts: Seq<BreakTarget>) -> bool {
    let n = break_run_len(tokens, q);
    if n == 0 {
        ts == seq![BreakTarget::ByLayer(1)]
    } else {
        &&& ts.len() == n
        &&& forall|k: int| 0 <= k < n ==> break_target_of(tokens[q + k].token, #[trigger] ts[k])
    }
}

/// Whether `condition` is the expression that the keyword at `p` takes in
/// parentheses: `(` after the keyword, the expression, then `)`.
pub open spec fn condition_written(tokens: Seq<TokenSpan>, p: int, condition: Expression) -> bool {
    &&& kind_at(tokens, p + 1, Token::LParen)
    &&& exists|c: int|
        #![trigger kind_at(tokens, c, Token::RParen)]
        p + 2 < c && kind_at(tokens, c, Token::RParen) && expression_top(
            tokens,
            p + 2,
            c,
            PREC_ASSIGNMENT,
            condition,
        )
}

/// Whether `st`, parsed from tokens `p..e`, is a declaration `Type name
/// [= value];` (spanning the token after its name) or an expression
/// statement `expr;` (spanning its expression).
pub open spec fn plain_statement(tokens: Seq<TokenSpan>, p: int, e: int, st: Statement) -> bool {
    ||| st matches Statement::Expression(x, s) && s == x.spec_span() && expression_top(
        tokens,
        p,
        e - 1,
        PREC_ASSIGNMENT,
        x,
    ) && kind_at(tokens, e - 1, Token::Semicolon)
    ||| st matches Statement::VariableDeclaration { var_type, name, initializer, span: s } && exists|q: int|
        #![trigger type_written(tokens, p, q, var_type)]
        type_written(tokens, p, q, var_type) && is_ident_at(tokens, q) && name@ == ident_at(tokens, q)
            && s == span_at(tokens, q + 1) && initializer_written(tokens, q + 1, e, initializer)
}

/// Whether, from token `a` (after a declared name) to `e`, the tokens write
/// `= initializer;`, or only `;` where there is no initializer.
pub open spec fn initializer_written(tokens: Seq<TokenSpan>, a: int, e: int, initializer: Option<Expression>) -> bool {
    &&& kind_at(tokens, e - 1, Token::Semicolon)
    &&& match initializer {
        None => e == a + 1,
        Some(v) => kind_at(tokens, a, Token::Assign) && a + 1 < e - 1 && expression_top(
            tokens,
            a + 1,
            e - 1,
            PREC_ASSIGNMENT,
            v,
        ),
    }
}

/// Whether `st`, parsed from tokens `p..e`, is the statement that token `p`
/// starts: a block (spanning its closing `}`), `if`, `do`, `while`, `for`,
/// `switch` (at their keyword), `return` (with a value unless `;` follows),
/// `break` and `continue` with their targets and `;`, a declaration
/// `auto name ...` of type `var`, or else a declaration or an expression
/// statement spanning its expression.
pub open spec fn statement_node(tokens: Seq<TokenSpan>, p: int, e: int, st: Statement) -> bool
    decreases e - p, 2int, 0int,
{
    let span = tokens[p].span;
    match tokens[p].token {
        Token::LBrace => st matches Statement::Block { statements, span: s } && s == tokens[e - 1].span
            && p + 1 <= e - 1 && statements_written(tokens, p + 1, e - 1, statements@),
        Token::KwIf => st matches Statement::If { condition, then_branch, else_branch, span: s } && s == span
            && condition_written(tokens, p, condition) && branches_written(tokens, p, e, condition, *then_branch, else_branch),
        Token::KwDo => st matches Statement::DoWhile { body, condition, span: s } && s == span
            && do_written(tokens, p, e, *body, condition),
        Token::KwWhile => st matches Statement::While { condition, body, span: s } && s == span
            && condition_written(tokens, p, condition) && body_written(tokens, p, e, condition, *body),
        Token::KwFor => st matches Statement::For { condition, update, body, span: s, .. } && s == span
            && for_written(tokens, p, e, condition, update, *body),
        Token::KwSwitch => st matches Statement::Switch { span: s, .. } && s == span,
        Token::KwReturn => st matches Statement::Return { value, span: s } && s == span && (value is None
            <==> kind_at(tokens, p + 1, Token::Semicolon)) && kind_at(tokens, e - 1, Token::Semicolon)
            && (value matches Some(v) ==> p + 1 < e - 1 && expression_top(tokens, p + 1, e - 1, PREC_ASSIGNMENT, v)),
        Token::KwBreak => st matches Statement::Break { targets, span: s } && s == span
            && break_targets_written(tokens, p + 1, targets@) && e == p + 2 + break_run_len(tokens, p + 1),
        Token::KwContinue => st matches Statement::Continue { targets, span: s } && s == span
            && break_targets_written(tokens, p + 1, targets@) && e == p + 2 + break_run_len(tokens, p + 1),
        Token::KwAuto => st matches Statement::VariableDeclaration { var_type, name, initializer, span: s }
            && name@ == ident_at(tokens, p + 1) && s == span_at(tokens, p + 2) && var_type
            == TypeRef::Simple { name: var_type->Simple_name, span: s } && var_type->Simple_name@ == "var"@
            && initializer_written(tokens, p + 2, e, initializer),
        _ => plain_statement(tokens, p, e, st),
    }
}

/// Whether, after `keyword (condition)` at `p`, tokens up to `e` write the
/// statement `body`.
pub open spec fn body_written(tokens: Seq<TokenSpan>, p: int, e: int, condition: Expression, body: Statement) -> bool
    decreases e - p, 0int, 0int,
{
    exists|c: int|
        #![trigger kind_at(tokens, c, Token::RParen)]
        p + 2 < c && c + 1 < e && kind_at(tokens, c, Token::RParen) && expression_top(
            tokens,
            p + 2,
            c,
            PREC_ASSIGNMENT,
            condition,
        ) && statement_node(tokens, c + 1, e, body)
}

/// Whether, after `if (condition)` at `p`, tokens up to `e` write the then
/// branch and, after `else`, the else branch (none where no `else` follows).
pub open spec fn branches_written(
    tokens: Seq<TokenSpan>,
    p: int,
    e: int,
    condition: Expression,
    then_branch: Statement,
    else_branch: Option<Box<Statement>>,
) -> bool
    decreases e - p, 0int, 0int,
{
    exists|c: int, m: int|
        #![trigger kind_at(tokens, c, Token::RParen), tokens[m]]
        p + 2 < c && c + 1 < m <= e && kind_at(tokens, c, Token::RParen) && expression_top(
            tokens,
            p + 2,
            c,
            PREC_ASSIGNMENT,
            condition,
        ) && statement_node(tokens, c + 1, m, then_branch) && match else_branch {
            Some(eb) => kind_at(tokens, m, Token::KwElse) && m + 1 < e && statement_node(tokens, m + 1, e, *eb),
            None => m == e && !kind_at(tokens, m, Token::KwElse),
        }
}

/// Whether, after `do` at `p`, tokens up to `e` write `body while (condition);`.
pub open spec fn do_written(tokens: Seq<TokenSpan>, p: int, e: int, body: Statement, condition: Expression) -> bool
    decreases e - p, 0int, 0int,
{
    exists|m: int|
        #![trigger kind_at(tokens, m, Token::KwWhile)]
        p + 1 < m && m + 2 < e - 2 && kind_at(tokens, m, Token::KwWhile) && statement_node(tokens, p + 1, m, body)
            && kind_at(tokens, m + 1, Token::LParen) && expression_top(tokens, m + 2, e - 2, PREC_ASSIGNMENT, condition)
            && kind_at(tokens, e - 2, Token::RParen) && kind_at(tokens, e - 1, Token::Semicolon)
}

/// Whether, after `for (` at `p`, tokens up to `e` write an initializer, `;`,
/// the condition (if any), `;`, the update (if any), `)` and `body`.
pub open spec fn for_written(
    tokens: Seq<TokenSpan>,
    p: int,
    e: int,
    condition: Option<Expression>,
    update: Option<Expression>,
    body: Statement,
) -> bool
    decreases e - p, 0int, 0int,
{
    exists|s1: int, s2: int, c: int|
        #![trigger kind_at(tokens, s1, Token::Semicolon), kind_at(tokens, s2, Token::Semicolon), kind_at(tokens, c, Token::RParen)]
        p < s1 < s2 < c && c + 1 < e && kind_at(tokens, s1, Token::Semicolon) && kind_at(tokens, s2, Token::Semicolon)
            && kind_at(tokens, c, Token::RParen) && match condition {
            None => s2 == s1 + 1,
            Some(x) => s1 + 1 < s2 && expression_top(tokens, s1 + 1, s2, PREC_ASSIGNMENT, x),
        } && match update {
            None => c == s2 + 1,
            Some(u) => s2 + 1 < c && expression_top(tokens, s2 + 1, c, PREC_ASSIGNMENT, u),
        } && statement_node(tokens, c + 1, e, body)
}

/// Whether `sts` are the statements that tokens `a..b` write, one after another.
pub open spec fn statements_written(tokens: Seq<TokenSpan>, a: int, b: int, sts: Seq<Statement>) -> bool
    decreases b - a, 3int, sts.len(),
{
    if sts.len() == 0 {
        a == b
    } else {
        exists|q: int|
            #![trigger tokens[q]]
            a <= q < b && statements_written(tokens, a, q, sts.drop_last()) && statement_node(
                tokens,
                q,
                b,
                sts.last(),
            )
    }
}

/// Whether `prm` is the parameter `Type name` that tokens `a..b` write,
/// spanning the token after its name.
pub open spec fn parameter_written(tokens: Seq<TokenSpan>, a: int, b: int, prm: Parameter) -> bool {
    &&& type_written(tokens, a, b - 1, prm.param_type)
    &&& is_ident_at(tokens, b - 1)
    &&& prm.name@ == ident_at(tokens, b - 1)
    &&& prm.span == span_at(tokens, b)
}

/// Whether `ps` are the parameters that tokens `a..b` write, separated by
/// commas (none where `a == b`).
pub open spec fn parameters_written(tokens: Seq<TokenSpan>, a: int, b: int, ps: Seq<Parameter>) -> bool
    decreases ps.len(),
{
    if ps.len() == 0 {
        a == b
    } else if ps.len() == 1 {
        parameter_written(tokens, a, b, ps[0])
    } else {
        exists|q: int|
            #![trigger separator_at(tokens, q, false)]
            parameters_written(tokens, a, q, ps.drop_last()) && separator_at(tokens, q, false)
                && parameter_written(tokens, q + 1, b, ps.last())
    }
}

/// Whether `f` is the injector field `Type name;` that tokens `a..b` write,
/// spanning its `;`.
pub open spec fn injector_field_written(tokens: Seq<TokenSpan>, a: int, b: int, f: InjectorField) -> bool {
    &&& type_written(tokens, a, b - 2, f.field_type)
    &&& is_ident_at(tokens, b - 2)
    &&& f.name@ == ident_at(tokens, b - 2)
    &&& kind_at(tokens, b - 1, Token::Semicolon)
    &&& f.span == span_at(tokens, b - 1)
}

/// Whether `fs` are the injector fields that tokens `a..b` write, one after
/// another.
pub open spec fn injector_fields_written(tokens: Seq<TokenSpan>, a: int, b: int, fs: Seq<InjectorField>) -> bool
    decreases fs.len(),
{
    if fs.len() == 0 {
        a == b
    } else {
        exists|q: int|
            #![trigger injector_field_written(tokens, q, b, fs.last())]
            injector_fields_written(tokens, a, q, fs.drop_last()) && injector_field_written(
                tokens,
                q,
                b,
                fs.last(),
            )
    }
}

/// The name that token `p` gives an annotation: an identifier's, or
/// `Inject`, `Injector`, `Delegate` for those keywords.
pub open spec fn annotation_name_at(tokens: Seq<TokenSpan>, p: int) -> Option<Seq<char>> {
    if 0 <= p < tokens.len() {
        match tokens[p].token {
            Token::Identifier(n) => Some(n@),
            Token::KwInject => Some("Inject"@),
            Token::KwInjector => Some("Injector"@),
            Token::KwDelegate => Some("Delegate"@),
            _ => None,
        }
    } else {
        None
    }
}

/// Whether a type written from `p` ends with one token: a built-in type, or
/// a name that no `.` or `<` follows; in both cases with no `[]` or `^`
/// after it.
pub open spec fn one_token_type_at(tokens: Seq<TokenSpan>, p: int) -> bool {
    &&& builtin_type_at(tokens, p) is Some || (is_ident_at(tokens, p) && !kind_at(tokens, p + 1, Token::Dot)
        && !kind_at(tokens, p + 1, Token::Less))
    &&& !(kind_at(tokens, p + 1, Token::LBracket) && kind_at(tokens, p + 2, Token::RBracket))
    &&& !kind_at(tokens, p + 1, Token::Caret)
}

/// Whether token `p` is an operand on its own: a literal, `true`, `false`,
/// `null`, `this`, `super`, or a name that neither `=>` nor a typed
/// lambda's `:(` follows.
pub open spec fn atom_at(tokens: Seq<TokenSpan>, p: int) -> bool {
    0 <= p < tokens.len() && match tokens[p].token {
        Token::IntLiteral(_) | Token::FloatLiteral(_) | Token::StringLiteral(_) | Token::KwTrue
        | Token::KwFalse | Token::KwNull | Token::KwThis | Token::KwSuper => true,
        Token::Identifier(_) => !kind_at(tokens, p + 1, Token::Arrow) && !typed_lambda_after(
            tokens,
            p + 1,
        ),
        _ => false,
    }
}

/// Where the operand written from token `p` ends: prefix `-` and `!` signs,
/// then an operand on its own, a cast `(Type)` of such an operand, or such
/// an expression in parentheses; -1 where the tokens write no such operand.
pub open spec fn flat_operand(tokens: Seq<TokenSpan>, p: int) -> int
    decreases tokens.len() - p,
{
    if p < 0 || p >= tokens.len() {
        -1
    } else if tokens[p].token is Minus || tokens[p].token is Bang {
        flat_operand(tokens, p + 1)
    } else if atom_at(tokens, p) {
        p + 1
    } else if tokens[p].token is LParen && cast_ahead(tokens, p + 1) {
        if one_token_type_at(tokens, p + 1) {
            flat_operand(tokens, p + 3)
        } else {
            -1
        }
    } else if tokens[p].token is LParen {
        let o = flat_operand(tokens, p + 1);
        if p + 1 < o <= tokens.len() && flat_tail(tokens, o) {
            let e = flat_end(tokens, o, PREC_ASSIGNMENT);
            if o <= e < tokens.len() && kind_at(tokens, e, Token::RParen) {
                e + 1
            } else {
                -1
            }
        } else {
            -1
        }
    } else {
        -1
    }
}

/// Whether the tokens from `q` are binary operators each followed by such an
/// operand, then the end of the tokens or a token that continues no
/// expression.
pub open spec fn flat_tail(tokens: Seq<TokenSpan>, q: int) -> bool
    decreases tokens.len() - q,
{
    if q < 0 {
        false
    } else if q >= tokens.len() {
        true
    } else if is_binary_token(tokens[q].token) {
        let o = flat_operand(tokens, q + 1);
        if q < o <= tokens.len() {
            flat_tail(tokens, o)
        } else {
            false
        }
    } else {
        infix_precedence(tokens[q].token) == PREC_NONE && !(tokens[q].token is Colon)
    }
}

/// Whether the tokens from `p` write an expression of operands with prefix
/// `-` and `!` signs joined by binary operators, ended as `flat_tail` says.
pub open spec fn flat_expression(tokens: Seq<TokenSpan>, p: int) -> bool {
    flat_operand(tokens, p) >= 0 && flat_tail(tokens, flat_operand(tokens, p))
}

/// Where an expression at binding power `min` that continues from `q` along
/// such a tail ends: at the first binary operator that binds less tightly
/// than `min`, or where the tail ends.
pub open spec fn flat_end(tokens: Seq<TokenSpan>, q: int, min: u8) -> int
    decreases tokens.len() - q,
{
    if 0 <= q < tokens.len() && is_binary_token(tokens[q].token) && infix_precedence(tokens[q].token) >= min {
        let o = flat_operand(tokens, q + 1);
        if q < o <= tokens.len() {
            flat_end(tokens, o, min)
        } else {
            q
        }
    } else {
        q
    }
}

/// An operand ends after its first token.
pub proof fn lemma_flat_operand_after(tokens: Seq<TokenSpan>, p: int)
    ensures
        flat_operand(tokens, p) >= 0 ==> p < flat_operand(tokens, p) <= tokens.len(),
    decreases tokens.len() - p,
{
    if 0 <= p < tokens.len() && (tokens[p].token is Minus || tokens[p].token is Bang) {
        lemma_flat_operand_after(tokens, p + 1);
    } else if 0 <= p < tokens.len() && !atom_at(tokens, p) && tokens[p].token is LParen && cast_ahead(
        tokens,
        p + 1,
    ) {
        lemma_flat_operand_after(tokens, p + 3);
    }
}

/// Where such an expression ends, the tail goes on.
pub proof fn lemma_flat_end_tail(tokens: Seq<TokenSpan>, q: int, k: u8)
    requires
        flat_tail(tokens, q),
    ensures
        flat_tail(tokens, flat_end(tokens, q, k)),
    decreases tokens.len() - q,
{
    if 0 <= q < tokens.len() && is_binary_token(tokens[q].token) && infix_precedence(tokens[q].token) >= k
        && q < flat_operand(tokens, q + 1) <= tokens.len() {
        lemma_flat_end_tail(tokens, flat_operand(tokens, q + 1), k);
    }
}

/// Ending at binding power `k` and then at a looser `min` ends where ending
/// at `min` does.
pub proof fn lemma_flat_end_twice(tokens: Seq<TokenSpan>, q: int, k: u8, min: u8)
    requires
        min <= k,
    ensures
        flat_end(tokens, flat_end(tokens, q, k), min) == flat_end(tokens, q, min),
    decreases tokens.len() - q,
{
    if 0 <= q < tokens.len() && is_binary_token(tokens[q].token) && infix_precedence(tokens[q].token) >= k
        && q < flat_operand(tokens, q + 1) <= tokens.len() {
        lemma_flat_end_twice(tokens, flat_operand(tokens, q + 1), k, min);
    }
}

/// Where an argument list of such expressions from `p`, separated by commas
/// (a trailing comma allowed), ends: at its `)` or `]`; -1 where the tokens
/// write no such list.
pub open spec fn flat_args(tokens: Seq<TokenSpan>, p: int) -> int
    decreases tokens.len() - p,
{
    if kind_at(tokens, p, Token::RParen) || kind_at(tokens, p, Token::RBracket) {
        p
    } else if flat_expression(tokens, p) {
        let e = flat_end(tokens, flat_operand(tokens, p), PREC_ASSIGNMENT);
        if p < e < tokens.len() {
            if kind_at(tokens, e, Token::Comma) {
                if kind_at(tokens, e + 1, Token::RParen) || kind_at(tokens, e + 1, Token::RBracket) {
                    e + 1
                } else {
                    flat_args(tokens, e + 1)
                }
            } else if kind_at(tokens, e, Token::RParen) || kind_at(tokens, e, Token::RBracket) {
                e
            } else {
                -1
            }
        } else {
            -1
        }
    } else {
        -1
    }
}

/// Whether token `p` starts a field `int name;` with one modifier keyword
/// before it.
pub open spec fn modifier_field_at(tokens: Seq<TokenSpan>, p: int) -> bool {
    &&& 0 <= p < tokens.len()
    &&& modifier_of(tokens[p].token) is Some
    &&& kind_at(tokens, p + 1, Token::TypeInt)
    &&& is_ident_at(tokens, p + 2)
    &&& kind_at(tokens, p + 3, Token::Semicolon)
}

/// Whether token `p` starts `Name {` and then such a field.
pub open spec fn modifier_field_class_body_at(tokens: Seq<TokenSpan>, p: int) -> bool {
    &&& is_ident_at(tokens, p)
    &&& kind_at(tokens, p + 1, Token::LBrace)
    &&& modifier_field_at(tokens, p + 2)
}

/// Where the run of fields `int name;` that starts at token `p` ends.
pub open spec fn int_fields_end(tokens: Seq<TokenSpan>, p: int) -> int
    decreases tokens.len() - p,
{
    if 0 <= p < tokens.len() && kind_at(tokens, p, Token::TypeInt) && is_ident_at(tokens, p + 1) && kind_at(
        tokens,
        p + 2,
        Token::Semicolon,
    ) {
        int_fields_end(tokens, p + 3)
    } else {
        p
    }
}

pub proof fn lemma_int_fields_end_after(tokens: Seq<TokenSpan>, p: int)
    ensures
        int_fields_end(tokens, p) >= p,
    decreases tokens.len() - p,
{
    if 0 <= p < tokens.len() && kind_at(tokens, p, Token::TypeInt) && is_ident_at(tokens, p + 1) && kind_at(
        tokens,
        p + 2,
        Token::Semicolon,
    ) {
        lemma_int_fields_end_after(tokens, p + 3);
    }
}

/// Whether token `p` starts `class Name {`, fields `int name;`, and `}`.
pub open spec fn simple_class_at(tokens: Seq<TokenSpan>, p: int) -> bool {
    &&& kind_at(tokens, p, Token::KwClass)
    &&& is_ident_at(tokens, p + 1)
    &&& kind_at(tokens, p + 2, Token::LBrace)
    &&& kind_at(tokens, int_fields_end(tokens, p + 3), Token::RBrace)
}

/// The token after such a class.
pub open spec fn simple_class_next(tokens: Seq<TokenSpan>, p: int) -> int {
    int_fields_end(tokens, p + 3) + 1
}

pub proof fn lemma_separated_names_after(tokens: Seq<TokenSpan>, p: int, sep: Token)
    requires
        p >= 0,
    ensures
        separated_names(tokens, p, sep) matches Some((_, e)) ==> e >= p,
    decreases tokens.len() - p,
{
    if 0 <= p && kind_at(tokens, p, sep) && is_ident_at(tokens, p + 1) {
        lemma_separated_names_after(tokens, p + 2, sep);
    }
}

/// Whether token `p` starts `using A.B;` with at least one name, and where it ends.
pub open spec fn plain_using_end(tokens: Seq<TokenSpan>, p: int) -> Option<int> {
    if kind_at(tokens, p, Token::KwUsing) && is_ident_at(tokens, p + 1) && !kind_at(tokens, p + 2, Token::Assign) {
        match separated_names(tokens, p + 2, Token::Dot) {
            Some((_, e)) => if kind_at(tokens, e, Token::Semicolon) {
                Some(e + 1)
            } else {
                None
            },
            None => None,
        }
    } else {
        None
    }
}

/// The names that `using A.B;` at `p` writes.
pub open spec fn plain_using_names(tokens: Seq<TokenSpan>, p: int) -> Seq<Seq<char>> {
    seq![ident_at(tokens, p + 1)] + separated_names(tokens, p + 2, Token::Dot).unwrap().0
}

/// Whether the tokens from `p` to the end are, one after another, only
/// `namespace Name;` and `class Name { int a; .. }` declarations.
pub open spec fn simple_file(tokens: Seq<TokenSpan>, p: int) -> bool
    decreases tokens.len() - p,
{
    if p < 0 || p > tokens.len() {
        false
    } else if p == tokens.len() {
        true
    } else if kind_at(tokens, p, Token::KwNamespace) && is_ident_at(tokens, p + 1) && kind_at(
        tokens,
        p + 2,
        Token::Semicolon,
    ) {
        simple_file(tokens, p + 3)
    } else if plain_using_end(tokens, p) is Some {
        proof {
            lemma_separated_names_after(tokens, p + 2, Token::Dot);
        }
        simple_file(tokens, plain_using_end(tokens, p).unwrap())
    } else if simple_class_at(tokens, p) {
        proof {
            lemma_int_fields_end_after(tokens, p + 3);
        }
        simple_file(tokens, simple_class_next(tokens, p))
    } else {
        false
    }
}

/// The names of the classes that such tokens declare, in order.
pub open spec fn simple_file_classes(tokens: Seq<TokenSpan>, p: int) -> Seq<Seq<char>>
    decreases tokens.len() - p,
{
    if p < 0 || p >= tokens.len() {
        Seq::empty()
    } else if kind_at(tokens, p, Token::KwNamespace) && is_ident_at(tokens, p + 1) && kind_at(
        tokens,
        p + 2,
        Token::Semicolon,
    ) {
        simple_file_classes(tokens, p + 3)
    } else if plain_using_end(tokens, p) is Some {
        proof {
            lemma_separated_names_after(tokens, p + 2, Token::Dot);
        }
        simple_file_classes(tokens, plain_using_end(tokens, p).unwrap())
    } else if simple_class_at(tokens, p) {
        proof {
            lemma_int_fields_end_after(tokens, p + 3);
        }
        seq![ident_at(tokens, p + 1)] + simple_file_classes(tokens, simple_class_next(tokens, p))
    } else {
        Seq::empty()
    }
}

/// The namespace that such tokens name: the last `namespace` declaration's.
pub open spec fn simple_file_namespace(tokens: Seq<TokenSpan>, p: int) -> Option<Seq<Seq<char>>>
    decreases tokens.len() - p,
{
    if p < 0 || p >= tokens.len() {
        None
    } else if kind_at(tokens, p, Token::KwNamespace) && is_ident_at(tokens, p + 1) && kind_at(
        tokens,
        p + 2,
        Token::Semicolon,
    ) {
        match simple_file_namespace(tokens, p + 3) {
            Some(later) => Some(later),
            None => Some(seq![ident_at(tokens, p + 1)]),
        }
    } else if plain_using_end(tokens, p) is Some {
        proof {
            lemma_separated_names_after(tokens, p + 2, Token::Dot);
        }
        simple_file_namespace(tokens, plain_using_end(tokens, p).unwrap())
    } else if simple_class_at(tokens, p) {
        proof {
            lemma_int_fields_end_after(tokens, p + 3);
        }
        simple_file_namespace(tokens, simple_class_next(tokens, p))
    } else {
        None
    }
}

/// The names of the `using` directives that such tokens write, in order.
pub open spec fn simple_file_usings(tokens: Seq<TokenSpan>, p: int) -> Seq<Seq<Seq<char>>>
    decreases tokens.len() - p,
{
    if p < 0 || p >= tokens.len() {
        Seq::empty()
    } else if kind_at(tokens, p, Token::KwNamespace) && is_ident_at(tokens, p + 1) && kind_at(
        tokens,
        p + 2,
        Token::Semicolon,
    ) {
        simple_file_usings(tokens, p + 3)
    } else if plain_using_end(tokens, p) is Some {
        proof {
            lemma_separated_names_after(tokens, p + 2, Token::Dot);
        }
        seq![plain_using_names(tokens, p)] + simple_file_usings(tokens, plain_using_end(tokens, p).unwrap())
    } else if simple_class_at(tokens, p) {
        proof {
            lemma_int_fields_end_after(tokens, p + 3);
        }
        simple_file_usings(tokens, simple_class_next(tokens, p))
    } else {
        Seq::empty()
    }
}

/// The names of `using` directives `us`, each without an alias.
pub open spec fn using_names(us: Seq<UsingDirective>) -> Seq<Seq<Seq<char>>> {
    us.map_values(|u: UsingDirective| string_views(u.name.parts@))
}

/// The name that a top-level member declares.
pub open spec fn member_name(m: TopLevelMember) -> Seq<char> {
    match m {
        TopLevelMember::Class(d) => d.name@,
        TopLevelMember::Interface(d) => d.name@,
        TopLevelMember::Enum(d) => d.name@,
    }
}

/// The parts of namespace `ns`, if any.
pub open spec fn namespace_parts(ns: Option<QualifiedName>) -> Option<Seq<Seq<char>>> {
    match ns {
        Some(q) => Some(string_views(q.parts@)),
        None => None,
    }
}

/// `r` is the file that such tokens from `p` write: its classes, in order,
/// no `using` directive, and the last namespace named.
pub open spec fn simple_file_parsed(tokens: Seq<TokenSpan>, p: int, r: Result<SourceFile, Diagnostics>) -> bool {
    match r {
        Ok(sf) => {
            &&& sf.members@.map_values(|m: TopLevelMember| member_name(m)) == simple_file_classes(tokens, p)
            &&& forall|k: int| 0 <= k < sf.members@.len() ==> #[trigger] sf.members@[k] is Class
            &&& using_names(sf.usings@) == simple_file_usings(tokens, p)
            &&& forall|k: int| 0 <= k < sf.usings@.len() ==> (#[trigger] sf.usings@[k]).alias is None
            &&& namespace_parts(sf.namespace) == simple_file_namespace(tokens, p)
        },
        Err(_) => false,
    }
}

/// What parsing a file gives, with `reported` the diagnostics reported by
/// then: the file where none is an error (its namespace and `using`
/// directives named by at least one part), else those diagnostics.
pub open spec fn file_outcome(reported: Seq<Diagnostic>, r: Result<SourceFile, Diagnostics>) -> bool {
    match r {
        Ok(sf) => {
            &&& no_errors(reported)
            &&& sf.namespace matches Some(q) ==> q.parts@.len() >= 1
            &&& forall|k: int| 0 <= k < sf.usings@.len() ==> (#[trigger] sf.usings@[k]).span == Span::dummy_spec()
            &&& forall|k: int| 0 <= k < sf.usings@.len() ==> (#[trigger] sf.usings@[k]).name.parts@.len() >= 1
            &&& sf.span == Span::dummy_spec()
        },
        Err(d) => {
            &&& d.items@ == reported
            &&& exists|k: int| 0 <= k < d.items@.len() && (#[trigger] d.items@[k]).severity == Severity::Error
        },
    }
}

/// Whether no diagnostic of `ds` is an error.
pub open spec fn no_errors(ds: Seq<Diagnostic>) -> bool {
    forall|k: int| 0 <= k < ds.len() ==> (#[trigger] ds[k]).severity != Severity::Error
}

/// A parser over a list of tokens, with the diagnostics it has reported.
pub struct Parser {
    tokens: Vec<TokenSpan>,
    pos: usize,
    diagnostics: Diagnostics,
    /// While set, a `:` does not continue an expression (inside `?:`).
    suppress_colon_precheck: bool,
}

impl Parser {
    /// The tokens being parsed.
    pub closed spec fn token_list(&self) -> Seq<TokenSpan> {
        self.tokens@
    }

    /// The index of the next token.
    pub closed spec fn position(&self) -> int {
        self.pos as int
    }

    /// Whether a `:` is kept from continuing an expression.
    pub closed spec fn colon_suppressed(&self) -> bool {
        self.suppress_colon_precheck
    }

    /// How many tokens are left to parse.
    pub closed spec fn remaining(&self) -> int {
        self.tokens@.len() - self.pos
    }

    /// The diagnostics reported so far.
    pub closed spec fn reported(&self) -> Seq<Diagnostic> {
        self.diagnostics.items@
    }

    /// The position lies within the tokens (or just after the last).
    pub closed spec fn wf(&self) -> bool {
        &&& self.pos <= self.tokens@.len()
        &&& self.tokens@.len() <= usize::MAX
    }

    /// `self` is `old` parsed on: the same tokens, a position not before
    /// `old`'s and within the tokens, and `old`'s diagnostics kept in front of
    /// the errors reported since.
    pub closed spec fn follows(&self, old: Parser) -> bool {
        &&& self.tokens@ == old.tokens@
        &&& old.pos <= self.pos <= self.tokens@.len()
        &&& self.tokens@.len() <= usize::MAX
        &&& old.diagnostics.items@.len() <= self.diagnostics.items@.len()
        &&& forall|k: int|
            0 <= k < old.diagnostics.items@.len() ==> #[trigger] self.diagnostics.items@[k]
                == old.diagnostics.items@[k]
        &&& forall|k: int|
            old.diagnostics.items@.len() <= k < self.diagnostics.items@.len()
                ==> (#[trigger] self.diagnostics.items@[k]).severity == Severity::Error
    }

    /// Whether the next token is of the kind of `t`.
    pub closed spec fn at_kind(&self, t: Token) -> bool {
        self.pos < self.tokens.len() && tag_of(self.tokens@[self.pos as int].token) == tag_of(t)
    }

    /// Whether the token `n` places ahead is of the kind of `t`.
    pub closed spec fn ahead_kind(&self, n: int, t: Token) -> bool {
        self.pos + n < self.tokens@.len() && tag_of(self.tokens@[self.pos + n].token) == tag_of(t)
    }

    /// A parser at the first of `tokens`, with nothing reported.
    pub fn new(tokens: Vec<TokenSpan>) -> (p: Self)
        ensures
            p.wf(),
            p.token_list() == tokens@,
            p.position() == 0,
            p.reported().len() == 0,
    {
        let n: usize = tokens.len();
        assert(tokens@.len() == n);
        Parser { tokens, pos: 0, diagnostics: Diagnostics::new(), suppress_colon_precheck: false }
    }

    /// The diagnostics reported so far.
    pub fn diagnostics(&self) -> (d: &Diagnostics)
        ensures
            d.items@ == self.reported(),
    {
        &self.diagnostics
    }

    /// The diagnostics reported, the parser given up.
    pub fn into_diagnostics(self) -> (d: Diagnostics)
        ensures
            d.items@ == self.reported(),
    {
        self.diagnostics
    }

    proof fn lemma_follows_refl(&self)
        requires
            self.wf(),
        ensures
            self.follows(*self),
    {
    }

    proof fn lemma_follows_trans(a: Parser, b: Parser, c: Parser)
        requires
            b.follows(a),
            c.follows(b),
        ensures
            c.follows(a),
    {
    }

    fn is_at_end(&self) -> (r: bool)
        ensures
            r == (self.pos >= self.tokens@.len()),
    {
        self.pos >= self.tokens.len()
    }

    /// Whether the next token is of the kind of `token`.
    fn check(&self, token: &Token) -> (r: bool)
        ensures
            r == self.at_kind(*token),
    {
        if self.pos < self.tokens.len() {
            token_tag(&self.tokens[self.pos].token) == token_tag(token)
        } else {
            false
        }
    }

    /// Whether the token `n` places ahead is of the kind of `token`.
    fn check_ahead(&self, n: usize, token: &Token) -> (r: bool)
        requires
            self.wf(),
        ensures
            r == self.ahead_kind(n as int, *token),
    {
        if n < self.tokens.len() - self.pos {
            token_tag(&self.tokens[self.pos + n].token) == token_tag(token)
        } else {
            false
        }
    }

    /// Whether the next token is an identifier.
    fn check_identifier(&self) -> (r: bool)
        ensures
            r == (self.pos < self.tokens@.len() && self.tokens@[self.pos as int].token is Identifier),
    {
        self.pos < self.tokens.len() && matches!(self.tokens[self.pos].token, Token::Identifier(_))
    }

    /// Moves past the next token, if there is one.
    fn advance(&mut self)
        requires
            old(self).wf(),
        ensures
            final(self).follows(*old(self)),
            final(self).reported() == old(self).reported(),
            final(self).suppress_colon_precheck == old(self).suppress_colon_precheck,
            final(self).pos == if old(self).pos < old(self).tokens@.len() {
                old(self).pos + 1
            } else {
                old(self).pos as int
            },
    {
        if self.pos < self.tokens.len() {
            self.pos = self.pos + 1;
        }
        proof {
            self.lemma_follows_refl();
        }
    }

    /// Moves past the next token if it is of the kind of `token`.
    fn match_token(&mut self, token: &Token) -> (r: bool)
        requires
            old(self).wf(),
        ensures
            r == old(self).at_kind(*token),
            final(self).follows(*old(self)),
            final(self).reported() == old(self).reported(),
            final(self).suppress_colon_precheck == old(self).suppress_colon_precheck,
            final(self).pos == old(self).pos + if r { 1int } else { 0int },
    {
        if self.check(token) {
            self.pos = self.pos + 1;
            proof {
                self.lemma_follows_refl();
            }
            true
        } else {
            proof {
                self.lemma_follows_refl();
            }
            false
        }
    }

    /// The name of the next token and moves past it, if it is an identifier.
    fn match_identifier(&mut self) -> (r: Option<String>)
        requires
            old(self).wf(),
        ensures
            final(self).follows(*old(self)),
            final(self).reported() == old(self).reported(),
            final(self).suppress_colon_precheck == old(self).suppress_colon_precheck,
            match r {
                Some(n) => {
                    &&& old(self).pos < old(self).tokens@.len()
                    &&& old(self).tokens@[old(self).pos as int].token matches Token::Identifier(m)
                        && m@ == n@
                    &&& final(self).pos == old(self).pos + 1
                },
                None => {
                    &&& !(old(self).pos < old(self).tokens@.len()
                        && old(self).tokens@[old(self).pos as int].token is Identifier)
                    &&& final(self).pos == old(self).pos
                },
            },
    {
        proof {
            self.lemma_follows_refl();
        }
        if self.pos < self.tokens.len() {
            match &self.tokens[self.pos].token {
                Token::Identifier(name) => {
                    let n = name.clone();
                    self.pos = self.pos + 1;
                    Some(n)
                },
                _ => None,
            }
        } else {
            None
        }
    }

    /// The span of the next token; the placeholder span at the end.
    fn current_span(&self) -> (s: Span)
        ensures
            s == if self.pos < self.tokens@.len() {
                self.tokens@[self.pos as int].span
            } else {
                Span::dummy_spec()
            },
    {
        if self.pos < self.tokens.len() {
            self.tokens[self.pos].span
        } else {
            Span::dummy()
        }
    }

    /// The span of the token before the position; the placeholder span at the start.
    fn last_span(&self) -> (s: Span)
        requires
            self.wf(),
        ensures
            s == if self.pos > 0 {
                self.tokens@[self.pos - 1].span
            } else {
                Span::dummy_spec()
            },
    {
        if self.pos > 0 {
            self.tokens[self.pos - 1].span
        } else {
            Span::dummy()
        }
    }

    /// Reports error `message` at `span`.
    fn report(&mut self, span: Span, message: String)
        requires
            old(self).wf(),
        ensures
            final(self).follows(*old(self)),
            final(self).pos == old(self).pos,
            final(self).suppress_colon_precheck == old(self).suppress_colon_precheck,
            final(self).reported().len() == old(self).reported().len() + 1,
            final(self).reported().last().severity == Severity::Error,
            final(self).reported().last().span == span,
            final(self).reported().last().message@ == message@,
    {
        let ghost before = self.diagnostics.items@;
        self.diagnostics.emit_error(span, message);
        proof {
            assert forall|k: int| 0 <= k < before.len() implies #[trigger] self.diagnostics.items@[k]
                == before[k] by {
                assert(self.diagnostics.items@.take(before.len() as int)[k] == self.diagnostics.items@[k]);
            }
        }
    }

    /// Reports error `message` at `span`.
    fn error(&mut self, span: Span, message: &str)
        requires
            old(self).wf(),
        ensures
            final(self).follows(*old(self)),
            final(self).pos == old(self).pos,
            final(self).suppress_colon_precheck == old(self).suppress_colon_precheck,
            final(self).reported().len() == old(self).reported().len() + 1,
            final(self).reported().last().span == span,
            final(self).reported().last().message@ == message@,
    {
        self.report(span, message.to_owned());
    }

    /// Reports an error at the next token.
    fn error_here(&mut self, message: &str)
        requires
            old(self).wf(),
        ensures
            final(self).follows(*old(self)),
            final(self).pos == old(self).pos,
            final(self).suppress_colon_precheck == old(self).suppress_colon_precheck,
            final(self).reported().len() == old(self).reported().len() + 1,
            final(self).reported().last().message@ == message@,
    {
        let span = self.current_span();
        self.error(span, message);
    }

    /// Moves past the next token if it is of the kind of `expected`; reports
    /// an error otherwise.
    fn expect_token(&mut self, expected: &Token) -> (r: Result<(), ()>)
        requires
            old(self).wf(),
        ensures
            r is Ok == old(self).at_kind(*expected),
            final(self).follows(*old(self)),
            final(self).suppress_colon_precheck == old(self).suppress_colon_precheck,
            r is Ok ==> final(self).pos == old(self).pos + 1 && final(self).reported()
                == old(self).reported(),
            r is Err ==> final(self).pos == old(self).pos && final(self).reported().len()
                == old(self).reported().len() + 1,
    {
        if self.check(expected) {
            self.pos = self.pos + 1;
            proof {
                self.lemma_follows_refl();
            }
            Ok(())
        } else {
            let span = self.current_span();
            let m = String::from_str("期望 ");
            let m = m.concat(token_kind_name(expected));
            let m = m.concat("，但遇到了其他 token");
            self.report(span, m);
            Err(())
        }
    }

    /// Parses a type: a primitive type or `auto`, `delegate<R:P,...>`, or a
    /// dotted name with optional generic arguments `<A, B>`; then any run of
    /// `[]` (array) and `^` (injector) suffixes.
    #[verifier::spinoff_prover]
    pub fn parse_type_ref(&mut self) -> (r: Result<TypeRef, ()>)
        requires
            old(self).wf(),
        ensures
            final(self).follows(*old(self)),
            final(self).colon_suppressed() == old(self).colon_suppressed(),
            r is Ok ==> final(self).position() > old(self).position(),
            match r {
                Ok(t) => {
                    let toks = old(self).token_list();
                    let e = final(self).position();
                    &&& type_written(toks, old(self).position(), e, t)
                    &&& final(self).reported() == old(self).reported()
                    &&& !(kind_at(toks, e, Token::LBracket) && kind_at(toks, e + 1, Token::RBracket))
                    &&& !kind_at(toks, e, Token::Caret)
                },
                Err(_) => final(self).reported().len() > old(self).reported().len(),
            },
            one_token_type_at(old(self).token_list(), old(self).position()) ==> r is Ok
                && final(self).position() == old(self).position() + 1,
        decreases old(self).remaining(),
    {
        proof {
            self.lemma_follows_refl();
        }
        let ghost start = *self;
        let ghost toks = self.tokens@;
        let ghost p = self.pos as int;
        let span = self.current_span();
        assert(span == span_at(toks, p));
        let ghost one = one_token_type_at(toks, p);
        let mut result: TypeRef;
        if self.match_token(&Token::TypeInt) {
            result = TypeRef::simple("int".to_owned(), span);
        } else if self.match_token(&Token::TypeFloat) {
            result = TypeRef::simple("float".to_owned(), span);
        } else if self.match_token(&Token::TypeBool) {
            result = TypeRef::simple("bool".to_owned(), span);
        } else if self.match_token(&Token::TypeString) {
            result = TypeRef::simple("string".to_owned(), span);
        } else if self.match_token(&Token::TypeVoid) {
            result = TypeRef::simple("void".to_owned(), span);
        } else if self.match_token(&Token::TypeObject) {
            result = TypeRef::simple("object".to_owned(), span);
        } else if self.match_token(&Token::KwAuto) {
            result = TypeRef::simple("auto".to_owned(), span);
        } else if self.match_token(&Token::KwDelegate) {
            proof {
                assert(!one);
            }
            let ghost s1 = *self;
            let r1 = self.expect_token(&Token::Less);
            proof {
                Parser::lemma_follows_trans(start, s1, *self);
            }
            r1?;
            let ghost s2 = *self;
            let return_type = self.parse_type_ref();
            proof {
                Parser::lemma_follows_trans(start, s2, *self);
            }
            let return_type = return_type?;
            let ghost q = self.pos as int;
            let mut param_types: Vec<TypeRef> = Vec::new();
            loop
                invariant
                    self.wf(),
                    self.follows(start),
                    self.pos > start.pos,
                    self.suppress_colon_precheck == start.suppress_colon_precheck,
                    start == *old(self),
                    toks == self.tokens@,
                    self.reported() == start.reported(),
                    !one,
                    one == one_token_type_at(toks, p),
                    p == start.pos,
                    params_written(toks, q, self.pos as int, param_types@),
                    param_types@.len() > 0 ==> separator_at(toks, q, true),
                decreases self.tokens@.len() - self.pos,
            {
                let ghost s3 = *self;
                let more = if self.match_token(&Token::Colon) {
                    true
                } else {
                    self.match_token(&Token::Comma)
                };
                proof {
                    Parser::lemma_follows_trans(start, s3, *self);
                }
                if !more {
                    break;
                }
                let ghost s4 = *self;
                let ghost before = param_types@;
                let t = self.parse_type_ref();
                proof {
                    Parser::lemma_follows_trans(start, s4, *self);
                }
                let t = t?;
                param_types.push(t);
                proof {
                    let ts = param_types@;
                    assert(ts.drop_last() =~= before);
                    assert(ts.last() == t);
                    assert(params_written(toks, q, s3.pos as int, ts.drop_last()));
                    assert(separator_at(toks, s3.pos as int, true));
                    assert(params_written(toks, q, self.pos as int, ts));
                }
            }
            let ghost s5 = *self;
            let r5 = self.expect_token(&Token::Greater);
            proof {
                Parser::lemma_follows_trans(start, s5, *self);
            }
            r5?;
            result = TypeRef::Delegate { return_type: Box::new(return_type), param_types, span };
            proof {
                assert(params_written(toks, q, self.pos - 1, param_types@));
                assert(closes_or_separates(toks, q));
            }
        } else {
            let first = match self.match_identifier() {
                Some(n) => n,
                None => {
                    self.error_here("期望类型名称");
                    return Err(());
                },
            };
            assert(builtin_type_at(toks, p) is None);
            let mut name = first;
            let mut saved_pos = self.pos;
            assert(dotted_at(toks, p, saved_pos as int));
            loop
                invariant
                    self.wf(),
                    self.follows(start),
                    self.pos > start.pos,
                    start.pos < saved_pos <= self.pos,
                    self.pos == saved_pos,
                    self.suppress_colon_precheck == start.suppress_colon_precheck,
                    self.reported() == start.reported(),
                    toks == self.tokens@,
                    p == start.pos,
                    dotted_at(toks, p, saved_pos as int),
                    name@ == dotted_name(toks, p, saved_pos as int),
                    one == one_token_type_at(toks, p),
                    one ==> self.pos == p + 1 && !kind_at(toks, p + 1, Token::Dot),
                decreases self.tokens@.len() - self.pos,
            {
                if !self.match_token(&Token::Dot) {
                    break;
                }
                match self.match_identifier() {
                    Some(next) => {
                        let ghost before = name@;
                        name.append(".");
                        name.append(next.as_str());
                        saved_pos = self.pos;
                        proof {
                            assert(name@ == before + "."@ + next@);
                        }
                    },
                    None => {
                        self.pos = saved_pos;
                        break;
                    },
                }
            }
            let ghost lt = self.pos as int;
            if self.match_token(&Token::Less) {
                proof {
                    assert(!one);
                }
                let mut type_args: Vec<TypeRef> = Vec::new();
                let ghost mut last_end: int = lt + 1;
                loop
                    invariant_except_break
                        type_args@.len() == 0 ==> self.pos == lt + 1,
                        type_args@.len() > 0 ==> list_written(toks, lt + 1, last_end, type_args@, false)
                            && self.pos == last_end + 1 && kind_at(toks, last_end, Token::Comma),
                    invariant
                        self.wf(),
                        self.follows(start),
                        self.pos > start.pos,
                        self.suppress_colon_precheck == start.suppress_colon_precheck,
                        start == *old(self),
                        toks == self.tokens@,
                        self.reported() == start.reported(),
                        self.pos > lt,
                        !one,
                        one == one_token_type_at(toks, p),
                        p == start.pos,
                    ensures
                        type_args@.len() > 0,
                        list_written(toks, lt + 1, self.pos as int, type_args@, false),
                    decreases self.tokens@.len() - self.pos,
                {
                    let ghost s6 = *self;
                    let ghost before = type_args@;
                    let t = self.parse_type_ref();
                    proof {
                        Parser::lemma_follows_trans(start, s6, *self);
                    }
                    let t = t?;
                    type_args.push(t);
                    proof {
                        let ts = type_args@;
                        assert(ts.drop_last() =~= before);
                        if before.len() > 0 {
                            assert(list_written(toks, lt + 1, last_end, ts.drop_last(), false));
                            assert(separator_at(toks, last_end, false));
                        } else {
                            assert(ts[0] == t);
                        }
                        assert(list_written(toks, lt + 1, self.pos as int, ts, false));
                        last_end = self.pos as int;
                    }
                    if !self.match_token(&Token::Comma) {
                        break;
                    }
                }
                let ghost s7 = *self;
                let r7 = self.expect_token(&Token::Greater);
                proof {
                    Parser::lemma_follows_trans(start, s7, *self);
                }
                r7?;
                result = TypeRef::Generic { name, type_args, span };
                proof {
                    assert(dotted_at(toks, p, lt));
                }
            } else {
                result = TypeRef::simple(name, span);
            }
        }
        loop
            invariant
                self.wf(),
                self.follows(start),
                self.pos > start.pos,
                self.suppress_colon_precheck == start.suppress_colon_precheck,
                self.reported() == start.reported(),
                toks == self.tokens@,
                p == start.pos,
                span == span_at(toks, p),
                type_written(toks, p, self.pos as int, result),
                one == one_token_type_at(toks, p),
                one ==> self.pos == p + 1,
            ensures
                !(kind_at(toks, self.pos as int, Token::LBracket) && kind_at(toks, self.pos + 1, Token::RBracket)),
                !kind_at(toks, self.pos as int, Token::Caret),
            decreases self.tokens@.len() - self.pos,
        {
            if self.check(&Token::LBracket) && self.check_ahead(1, &Token::RBracket) {
                self.pos = self.pos + 2;
                result = TypeRef::Array { element_type: Box::new(result), span };
            } else if self.match_token(&Token::Caret) {
                result = TypeRef::Injector { base_type: Box::new(result), span };
            } else {
                break;
            }
        }
        Ok(result)
    }

    /// Parses a dotted name `A.B.C`.
    fn parse_qualified_name(&mut self) -> (r: Result<QualifiedName, ()>)
        requires
            old(self).wf(),
        ensures
            final(self).follows(*old(self)),
            final(self).suppress_colon_precheck == old(self).suppress_colon_precheck,
            r is Ok <==> is_ident_at(old(self).tokens@, old(self).pos as int) && separated_names(
                old(self).tokens@,
                old(self).pos + 1,
                Token::Dot,
            ) is Some,
            r matches Ok(q) ==> {
                let tail = separated_names(old(self).tokens@, old(self).pos + 1, Token::Dot).unwrap();
                &&& string_views(q.parts@) == seq![ident_at(old(self).tokens@, old(self).pos as int)]
                    + tail.0
                &&& final(self).pos == tail.1
                &&& final(self).reported() == old(self).reported()
            },
            r is Err ==> final(self).reported().len() == old(self).reported().len() + 1,
            r is Ok ==> final(self).pos > old(self).pos,
            r matches Ok(q) ==> q.parts@.len() >= 1,
    {
        let ghost start = *self;
        let span = self.current_span();
        let mut parts: Vec<String> = Vec::new();
        let first = match self.match_identifier() {
            Some(n) => n,
            None => {
                self.error_here("期望限定名");
                return Err(());
            },
        };
        parts.push(first);
        proof {
            assert(string_views(parts@) =~= seq![ident_at(start.tokens@, start.pos as int)]);
            assert(names_after(Seq::empty(), separated_names(self.tokens@, self.pos as int, Token::Dot))
                =~= separated_names(start.tokens@, start.pos + 1, Token::Dot));
        }
        loop
            invariant
                self.wf(),
                self.follows(start),
                self.pos > start.pos,
                parts@.len() >= 1,
                self.suppress_colon_precheck == start.suppress_colon_precheck,
                start == *old(self),
                self.reported() == start.reported(),
                string_views(parts@)[0] == ident_at(start.tokens@, start.pos as int),
                is_ident_at(start.tokens@, start.pos as int),
                separated_names(start.tokens@, start.pos + 1, Token::Dot) == names_after(
                    string_views(parts@).drop_first(),
                    separated_names(self.tokens@, self.pos as int, Token::Dot),
                ),
            ensures
                separated_names(start.tokens@, start.pos + 1, Token::Dot) == Some(
                    (string_views(parts@).drop_first(), self.pos as int),
                ),
                string_views(parts@) =~= seq![ident_at(start.tokens@, start.pos as int)]
                    + string_views(parts@).drop_first(),
            decreases self.tokens@.len() - self.pos,
        {
            let ghost s1 = *self;
            if !self.match_token(&Token::Dot) {
                proof {
                    assert(separated_names(self.tokens@, self.pos as int, Token::Dot) == Some(
                        (Seq::<Seq<char>>::empty(), self.pos as int),
                    ));
                    assert(string_views(parts@).drop_first() + Seq::<Seq<char>>::empty()
                        =~= string_views(parts@).drop_first());
                    assert(string_views(parts@) =~= seq![ident_at(start.tokens@, start.pos as int)]
                        + string_views(parts@).drop_first());
                }
                break;
            }
            match self.match_identifier() {
                Some(part) => {
                    let ghost before = parts@;
                    parts.push(part);
                    proof {
                        Parser::lemma_follows_trans(start, s1, *self);
                        assert(string_views(parts@).drop_first() =~= string_views(before).drop_first().push(
                            part@,
                        ));
                        assert(string_views(parts@)[0] == string_views(before)[0]);
                        let rest = separated_names(self.tokens@, self.pos as int, Token::Dot);
                        match rest {
                            Some((r2, e)) => {
                                assert(string_views(before).drop_first() + (seq![part@] + r2)
                                    =~= string_views(parts@).drop_first() + r2);
                            },
                            None => {},
                        }
                    }
                },
                None => {
                    self.error_here("期望标识符");
                    proof {
                        Parser::lemma_follows_trans(start, s1, *self);
                    }
                    return Err(());
                },
            }
        }
        Ok(QualifiedName { parts, span })
    }

    // ==================== expressions ====================

    /// Parses an expression.
    pub fn parse_expression(&mut self) -> (r: Result<Expression, ()>)
        requires
            old(self).wf(),
        ensures
            final(self).wf(),
            final(self).follows(*old(self)),
            r is Ok ==> final(self).position() > old(self).position(),
            r matches Ok(x) ==> expression_top(
                old(self).token_list(),
                old(self).position(),
                final(self).position(),
                PREC_ASSIGNMENT,
                x,
            ) && expression_stops(
                old(self).token_list(),
                final(self).position(),
                PREC_ASSIGNMENT,
                final(self).colon_suppressed(),
            ),
            atom_at(old(self).token_list(), old(self).position()) && expression_stops(
                old(self).token_list(),
                old(self).position() + 1,
                PREC_ASSIGNMENT,
                old(self).colon_suppressed(),
            ) ==> r is Ok && final(self).position() == old(self).position() + 1 && final(self).reported()
                == old(self).reported(),
            flat_expression(old(self).token_list(), old(self).position()) ==> r is Ok && final(self).position()
                == flat_end(
                old(self).token_list(),
                flat_operand(old(self).token_list(), old(self).position()),
                PREC_ASSIGNMENT,
            ),
        decreases old(self).remaining(), 30int,
    {
        self.parse_expression_with_precedence(PREC_ASSIGNMENT)
    }

    /// Parses an operand, then binds every following infix or postfix
    /// operator whose binding power is at least `min_precedence`. A `:`
    /// continues the expression only when `{` or `(` follows it, and never
    /// while colons are suppressed.
    fn parse_expression_with_precedence(&mut self, min_precedence: u8) -> (r: Result<Expression, ()>)
        requires
            old(self).wf(),
        ensures
            final(self).wf(),
            final(self).follows(*old(self)),
            r is Ok ==> final(self).pos > old(self).pos,
            r matches Ok(x) ==> expression_top(old(self).tokens@, old(self).pos as int, final(self).pos as int, min_precedence, x)
                && expression_stops(
                old(self).tokens@,
                final(self).pos as int,
                min_precedence,
                final(self).suppress_colon_precheck,
            ),
            atom_at(old(self).tokens@, old(self).pos as int) && expression_stops(
                old(self).tokens@,
                old(self).pos + 1,
                min_precedence,
                old(self).suppress_colon_precheck,
            ) ==> r is Ok && final(self).pos == old(self).pos + 1 && final(self).reported()
                == old(self).reported(),
            flat_expression(old(self).tokens@, old(self).pos as int) && min_precedence > PREC_NONE ==> r is Ok
                && final(self).pos == flat_end(
                old(self).tokens@,
                flat_operand(old(self).tokens@, old(self).pos as int),
                min_precedence,
            ),
        decreases old(self).remaining(), 29int,
    {
        let ghost start = *self;
        let mut left = self.parse_prefix()?;
        let ghost after_prefix = *self;
        proof {
            if left is Binary && !kind_at(start.tokens@, start.pos as int, Token::LParen) {
                lemma_prefix_not_binary(start.tokens@, start.pos as int, self.pos as int, left);
            }
        }
        while !self.is_at_end()
            invariant
                self.wf(),
                self.follows(start),
                self.pos > start.pos,
                start == *old(self),
                expression_top(start.tokens@, start.pos as int, self.pos as int, min_precedence, left),
                left matches Expression::Binary { operator: o1, .. } ==> (!kind_at(start.tokens@, start.pos as int, Token::LParen)
                    && self.pos < self.tokens@.len() && !(!self.suppress_colon_precheck && kind_at(
                    self.tokens@,
                    self.pos as int,
                    Token::Colon,
                )) ==> infix_precedence(self.tokens@[self.pos as int].token) <= binary_op_precedence(o1)),
                expression_stops(start.tokens@, after_prefix.pos as int, min_precedence, after_prefix.suppress_colon_precheck)
                    ==> *self == after_prefix,
                atom_at(start.tokens@, start.pos as int) ==> after_prefix.pos == start.pos + 1
                    && after_prefix.suppress_colon_precheck == start.suppress_colon_precheck
                    && after_prefix.reported() == start.reported(),
                flat_expression(start.tokens@, start.pos as int) && min_precedence > PREC_NONE ==> flat_tail(
                    start.tokens@,
                    self.pos as int,
                ) && flat_end(start.tokens@, self.pos as int, min_precedence) == flat_end(
                    start.tokens@,
                    flat_operand(start.tokens@, start.pos as int),
                    min_precedence,
                ),
            ensures
                flat_expression(start.tokens@, start.pos as int) && min_precedence > PREC_NONE ==> self.pos
                    == flat_end(start.tokens@, flat_operand(start.tokens@, start.pos as int), min_precedence),
                expression_top(start.tokens@, start.pos as int, self.pos as int, min_precedence, left),
                expression_stops(start.tokens@, self.pos as int, min_precedence, self.suppress_colon_precheck),
                expression_stops(start.tokens@, after_prefix.pos as int, min_precedence, after_prefix.suppress_colon_precheck)
                    ==> *self == after_prefix,
            decreases self.tokens@.len() - self.pos,
        {
            let ghost q = self.pos as int;
            let ghost l = left;
            if !self.suppress_colon_precheck && self.check(&Token::Colon) {
                if self.check_ahead(1, &Token::LBrace) || self.check_ahead(1, &Token::LParen) {
                    left = self.parse_infix(left, PREC_POSTFIX)?;
                    proof {
                        assert(infix_node(start.tokens@, q, self.pos as int, l, left));
                        assert(left_binds_as_tightly(start.tokens@, start.pos as int, q, l));
                    }
                    continue;
                }
                break;
            }
            let precedence = self.current_infix_precedence();
            if precedence < min_precedence {
                break;
            }
            proof {
                if flat_expression(start.tokens@, start.pos as int) && min_precedence > PREC_NONE {
                    lemma_flat_operand_after(start.tokens@, q + 1);
                    assert(is_binary_token(start.tokens@[q].token));
                }
            }
            left = self.parse_infix(left, precedence)?;
            proof {
                assert(infix_node(start.tokens@, q, self.pos as int, l, left));
                assert(left_binds_as_tightly(start.tokens@, start.pos as int, q, l));
                if flat_expression(start.tokens@, start.pos as int) && min_precedence > PREC_NONE {
                    let o = flat_operand(start.tokens@, q + 1);
                    lemma_flat_end_tail(start.tokens@, o, (precedence + 1) as u8);
                    lemma_flat_end_twice(start.tokens@, o, (precedence + 1) as u8, min_precedence);
                }
            }
        }
        Ok(left)
    }

    /// The binding power of the next token as an infix operator.
    fn current_infix_precedence(&self) -> (p: u8)
        ensures
            p == if self.pos < self.tokens@.len() {
                infix_precedence(self.tokens@[self.pos as int].token)
            } else {
                PREC_NONE
            },
            p <= PREC_POSTFIX,
    {
        if self.pos >= self.tokens.len() {
            return PREC_NONE;
        }
        match &self.tokens[self.pos].token {
            Token::Assign | Token::PlusAssign | Token::MinusAssign | Token::StarAssign
            | Token::SlashAssign | Token::PercentAssign => PREC_ASSIGNMENT,
            Token::Question => PREC_CONDITIONAL,
            Token::OrOr => PREC_LOGICAL_OR,
            Token::AndAnd => PREC_LOGICAL_AND,
            Token::EqualEqual | Token::NotEqual => PREC_EQUALITY,
            Token::Less | Token::LessEqual | Token::Greater | Token::GreaterEqual => PREC_COMPARISON,
            Token::Plus | Token::Minus => PREC_ADDITION,
            Token::Star | Token::Slash | Token::Percent => PREC_MULTIPLICATION,
            Token::Dot | Token::LParen | Token::LBracket | Token::Caret | Token::PlusPlus
            | Token::MinusMinus => PREC_POSTFIX,
            _ => PREC_NONE,
        }
    }

    /// After a consumed `(`: parses a cast `(Type) operand` where the tokens
    /// make one (a primitive type name and `)`, or a name and `)` followed by
    /// a token that starts an operand); `None`, consuming nothing, where they
    /// do not.
    fn try_parse_cast(&mut self, span: Span) -> (r: Result<Option<Expression>, ()>)
        requires
            old(self).wf(),
        ensures
            final(self).wf(),
            final(self).follows(*old(self)),
            r matches Ok(Some(_)) ==> final(self).pos > old(self).pos,
            r matches Ok(None) ==> final(self).pos == old(self).pos,
            r matches Ok(None) <==> !cast_ahead(old(self).tokens@, old(self).pos as int),
            r matches Ok(Some(x)) ==> x matches Expression::Cast { target_type, expression, span: s } && s == span
                && type_written(old(self).tokens@, old(self).pos as int, old(self).pos + 1, target_type)
                && kind_at(old(self).tokens@, old(self).pos + 1, Token::RParen) && old(self).pos + 2 < final(self).pos
                && expression_top(old(self).tokens@, old(self).pos + 2, final(self).pos as int, PREC_UNARY, *expression),
            cast_ahead(old(self).tokens@, old(self).pos as int) && one_token_type_at(old(self).tokens@, old(self).pos as int)
                && flat_expression(old(self).tokens@, old(self).pos + 2) ==> (r matches Ok(Some(_))
                && final(self).pos == flat_end(
                old(self).tokens@,
                flat_operand(old(self).tokens@, old(self).pos + 2),
                PREC_UNARY,
            )),
        decreases old(self).remaining(), 26int,
    {
        let is_builtin = self.check(&Token::TypeInt) || self.check(&Token::TypeFloat)
            || self.check(&Token::TypeBool) || self.check(&Token::TypeString)
            || self.check(&Token::TypeObject);
        let is_ident = self.check_identifier();
        if !is_builtin && !is_ident {
            return Ok(None);
        }
        if !self.check_ahead(1, &Token::RParen) {
            return Ok(None);
        }
        if is_ident {
            let starts_expr = self.pos + 2 < self.tokens.len() && match &self.tokens[self.pos
                + 2].token {
                Token::Identifier(_) | Token::IntLiteral(_) | Token::FloatLiteral(_)
                | Token::StringLiteral(_) | Token::KwTrue | Token::KwFalse | Token::LParen
                | Token::KwThis | Token::KwNew | Token::Bang => true,
                _ => false,
            };
            if !starts_expr {
                return Ok(None);
            }
        }
        let ghost q = self.pos as int;
        let target_type = self.parse_type_ref()?;
        proof {
            lemma_type_single_token(self.tokens@, q, self.pos as int, target_type);
        }
        self.expect_token(&Token::RParen)?;
        let expression = self.parse_expression_with_precedence(PREC_UNARY)?;
        Ok(Some(Expression::Cast { target_type, expression: Box::new(expression), span }))
    }

    /// The body of a lambda after its arrow: a block or an expression.
    fn parse_lambda_body(&mut self) -> (r: Result<LambdaBody, ()>)
        requires
            old(self).wf(),
        ensures
            final(self).wf(),
            final(self).follows(*old(self)),
            r is Ok ==> final(self).pos > old(self).pos,
            kind_at(old(self).tokens@, old(self).pos as int, Token::LBrace) && kind_at(old(self).tokens@, old(self).pos + 1, Token::RBrace) ==> (r matches Ok(
                LambdaBody::Block(b),
            ) && b@.len() == 0 && final(self).pos == old(self).pos + 2),
            r matches Ok(LambdaBody::Expression(x)) ==> expression_top(
                old(self).tokens@,
                old(self).pos as int,
                final(self).pos as int,
                PREC_ASSIGNMENT,
                *x,
            ),
        decreases old(self).remaining(), 41int,
    {
        if self.check(&Token::LBrace) {
            Ok(LambdaBody::Block(self.parse_block()?))
        } else {
            Ok(LambdaBody::Expression(Box::new(self.parse_expression()?)))
        }
    }

    /// Parses an operand: a literal, `^field`, a name (or a lambda `x => body`
    /// or `Type:(params) -> body`), a prefix operator and its operand, a
    /// parenthesized expression or cast, `new`, `this`, `super`, an injector
    /// object `{ ... }` or array `[ ... ]`.
    #[verifier::spinoff_prover]
    #[verifier::rlimit(40)]
    fn parse_prefix(&mut self) -> (r: Result<Expression, ()>)
        requires
            old(self).wf(),
        ensures
            final(self).wf(),
            final(self).follows(*old(self)),
            r is Ok ==> final(self).pos > old(self).pos,
            old(self).pos >= old(self).tokens@.len() ==> r is Err,
            r matches Ok(x) ==> prefix_node(old(self).tokens@, old(self).pos as int, final(self).pos as int, x),
            atom_at(old(self).tokens@, old(self).pos as int) ==> r is Ok && final(self).pos == old(self).pos + 1
                && final(self).reported() == old(self).reported()
                && final(self).suppress_colon_precheck == old(self).suppress_colon_precheck,
            flat_expression(old(self).tokens@, old(self).pos as int) ==> r is Ok && final(self).pos == flat_operand(
                old(self).tokens@,
                old(self).pos as int,
            ),
        decreases old(self).remaining(), 27int,
    {
        if self.pos >= self.tokens.len() {
            self.error(Span::dummy(), "期望表达式，但已到达文件末尾");
            return Err(());
        }
        let i = self.pos;
        let span = self.tokens[i].span;
        let tok = clone_token(&self.tokens[i].token);
        self.pos = self.pos + 1;
        match tok {
            Token::IntLiteral(v) => Ok(Expression::Literal(Literal::Int(v), span)),
            Token::FloatLiteral(v) => Ok(Expression::Literal(Literal::Float(v), span)),
            Token::StringLiteral(v) => Ok(Expression::Literal(Literal::String(v), span)),
            Token::KwTrue => Ok(Expression::Literal(Literal::Bool(true), span)),
            Token::KwFalse => Ok(Expression::Literal(Literal::Bool(false), span)),
            Token::KwNull => Ok(Expression::Null(span)),
            Token::Caret => match self.match_identifier() {
                Some(name) => Ok(Expression::InjectorFieldRef(name, span)),
                None => {
                    self.error_here("注入器字段引用 `^` 后期望标识符");
                    Err(())
                },
            },
            Token::Identifier(name) => {
                if self.match_token(&Token::Arrow) {
                    let body = self.parse_lambda_body()?;
                    let mut parameters: Vec<Parameter> = Vec::new();
                    parameters.push(
                        Parameter { name, param_type: TypeRef::simple("var".to_owned(), span), span },
                    );
                    return Ok(Expression::Lambda { parameters, body, span });
                }
                let mut la: usize = 0;
                let ghost toks = self.tokens@;
                let ghost q = self.pos as int;
                while self.check_ahead(la, &Token::LBracket) && self.check_ahead(
                    la + 1,
                    &Token::RBracket,
                )
                    invariant
                        self.wf(),
                        self.pos + la <= self.tokens@.len(),
                        toks == self.tokens@,
                        q == self.pos,
                        skip_bracket_pairs(toks, q + la) == skip_bracket_pairs(toks, q),
                    decreases self.tokens@.len() - self.pos - la,
                {
                    la = la + 2;
                }
                let ghost after_brackets = q + la;
                while self.check_ahead(la, &Token::Caret)
                    invariant
                        self.wf(),
                        self.pos + la <= self.tokens@.len(),
                        toks == self.tokens@,
                        q == self.pos,
                        after_brackets <= q + la,
                        skip_bracket_pairs(toks, q) == after_brackets,
                        skip_carets(toks, q + la) == skip_carets(toks, after_brackets),
                    decreases self.tokens@.len() - self.pos - la,
                {
                    la = la + 1;
                }
                assert(typed_lambda_after(toks, q) == (kind_at(toks, q + la, Token::Colon) && kind_at(
                    toks,
                    q + la + 1,
                    Token::LParen,
                )));
                if self.check_ahead(la, &Token::Colon) && self.check_ahead(la + 1, &Token::LParen) {
                    self.pos = self.pos + la + 2;
                    let params = self.parse_typed_parameters()?;
                    let ghost c = self.pos as int;
                    self.expect_token(&Token::RParen)?;
                    proof {
                        assert(kind_at(toks, c, Token::RParen));
                    }
                    self.expect_token(&Token::LambdaArrow)?;
                    let body = self.parse_lambda_body()?;
                    return Ok(Expression::Lambda { parameters: params, body, span });
                }
                Ok(Expression::Identifier(name, span))
            },
            Token::TypeInt => self.parse_type_keyword_or_lambda("int", span),
            Token::TypeFloat => self.parse_type_keyword_or_lambda("float", span),
            Token::TypeBool => self.parse_type_keyword_or_lambda("bool", span),
            Token::TypeString => self.parse_type_keyword_or_lambda("string", span),
            Token::TypeVoid => self.parse_type_keyword_or_lambda("void", span),
            Token::TypeObject => self.parse_type_keyword_or_lambda("object", span),
            Token::Minus => {
                proof {
                    assert(flat_operand(self.tokens@, i as int) == flat_operand(self.tokens@, i + 1));
                }
                let operand = self.parse_expression_with_precedence(PREC_UNARY)?;
                Ok(Expression::Unary { operator: UnaryOp::Negate, operand: Box::new(operand), span })
            },
            Token::Bang => {
                proof {
                    assert(flat_operand(self.tokens@, i as int) == flat_operand(self.tokens@, i + 1));
                }
                let operand = self.parse_expression_with_precedence(PREC_UNARY)?;
                Ok(Expression::Unary { operator: UnaryOp::Not, operand: Box::new(operand), span })
            },
            Token::PlusPlus => {
                let operand = self.parse_expression_with_precedence(PREC_UNARY)?;
                Ok(
                    Expression::Unary {
                        operator: UnaryOp::PreIncrement,
                        operand: Box::new(operand),
                        span,
                    },
                )
            },
            Token::MinusMinus => {
                let operand = self.parse_expression_with_precedence(PREC_UNARY)?;
                Ok(
                    Expression::Unary {
                        operator: UnaryOp::PreDecrement,
                        operand: Box::new(operand),
                        span,
                    },
                )
            },
            Token::LParen => {
                proof {
                    let t = self.tokens@;
                    if flat_expression(t, i as int) {
                        if cast_ahead(t, i + 1) {
                            assert(flat_operand(t, i as int) == flat_operand(t, i + 3));
                            assert(flat_end(t, flat_operand(t, i + 3), PREC_UNARY) == flat_operand(t, i + 3));
                        } else {
                            lemma_flat_operand_after(t, i + 1);
                        }
                    }
                }
                match self.try_parse_cast(span)? {
                    Some(cast) => {
                        return Ok(cast);
                    },
                    None => {},
                }
                let inner = self.parse_expression()?;
                self.expect_token(&Token::RParen)?;
                Ok(inner)
            },
            Token::KwNew => self.parse_new_expression(span),
            Token::KwThis => Ok(Expression::This(span)),
            Token::KwSuper => Ok(Expression::Super(span)),
            Token::LBrace => self.parse_injector_object(span),
            Token::LBracket => self.parse_injector_or_array(span),
            _ => {
                self.error(span, "意外的 token，期望表达式");
                Err(())
            },
        }
    }

    /// After a consumed primitive type keyword: a typed lambda
    /// `:(params) -> body`, or else the keyword as a name.
    fn parse_type_keyword_or_lambda(&mut self, keyword_text: &str, span: Span) -> (r: Result<Expression, ()>)
        requires
            old(self).wf(),
        ensures
            final(self).wf(),
            final(self).follows(*old(self)),
            r matches Ok(x) ==> if old(self).at_kind(Token::Colon) && old(self).ahead_kind(1, Token::LParen) {
                x matches Expression::Lambda { span: s, .. } && s == span
            } else {
                x matches Expression::Identifier(n, s) && n@ == keyword_text@ && s == span
                    && final(self).pos == old(self).pos
            },
            !(old(self).at_kind(Token::Colon) && old(self).ahead_kind(1, Token::LParen)) ==> r is Ok,
        decreases old(self).remaining(), 24int,
    {
        if self.check(&Token::Colon) && self.check_ahead(1, &Token::LParen) {
            self.pos = self.pos + 2;
            let params = self.parse_typed_parameters()?;
            self.expect_token(&Token::RParen)?;
            self.expect_token(&Token::LambdaArrow)?;
            let body = self.parse_lambda_body()?;
            return Ok(Expression::Lambda { parameters: params, body, span });
        }
        Ok(Expression::Identifier(keyword_text.to_owned(), span))
    }

    /// After a consumed `new`: `new ^field(args)`; `new Type(args)` with an
    /// optional injector `{ key: value, ... }` (after `:` or directly);
    /// `new Type[size] { elements }` (an array, as a call of `new_array`); or
    /// `new target(args)` for another operand.
    #[verifier::spinoff_prover]
    fn parse_new_expression(&mut self, span: Span) -> (r: Result<Expression, ()>)
        requires
            old(self).wf(),
        ensures
            final(self).wf(),
            final(self).follows(*old(self)),
            r is Ok ==> final(self).pos > old(self).pos,
            r matches Ok(x) ==> new_node(old(self).tokens@, old(self).pos as int, final(self).pos as int, span, x),
            kind_at(old(self).tokens@, old(self).pos as int, Token::Caret) && is_ident_at(old(self).tokens@, old(self).pos + 1) && !kind_at(old(self).tokens@, old(self).pos + 2, Token::LParen)
                ==> r is Ok && final(self).pos == old(self).pos + 2,
            kind_at(old(self).tokens@, old(self).pos as int, Token::Caret) && is_ident_at(old(self).tokens@, old(self).pos + 1)
                && kind_at(old(self).tokens@, old(self).pos + 2, Token::LParen) && flat_args(old(self).tokens@, old(self).pos + 3) >= 0
                && kind_at(old(self).tokens@, flat_args(old(self).tokens@, old(self).pos + 3), Token::RParen)
                ==> r is Ok && final(self).pos == flat_args(old(self).tokens@, old(self).pos + 3) + 1,
        decreases old(self).remaining(), 28int,
    {
        let ghost start = *self;
        if self.check(&Token::Caret) {
            self.pos = self.pos + 1;
            let field_name = match self.match_identifier() {
                Some(n) => n,
                None => {
                    self.error_here("期望注入器字段名");
                    return Err(());
                },
            };
            let arguments = if self.match_token(&Token::LParen) {
                let args = self.parse_argument_list()?;
                self.expect_token(&Token::RParen)?;
                args
            } else {
                Vec::new()
            };
            return Ok(Expression::InjectorNew { injector_field: field_name, args: arguments, span });
        }
        let saved = self.pos;
        let is_type_start = self.is_type_start();
        if is_type_start {
            match self.parse_type_ref() {
                Ok(class_type) => {
                    if self.check(&Token::LParen) {
                        self.pos = self.pos + 1;
                        let arguments = self.parse_argument_list()?;
                        self.expect_token(&Token::RParen)?;
                        let injector = if self.check(&Token::Colon) && self.check_ahead(
                            1,
                            &Token::LBrace,
                        ) {
                            self.pos = self.pos + 2;
                            Some(self.parse_ctor_injector_fields()?)
                        } else if self.check(&Token::LBrace) {
                            let is_injector = if self.check_ahead(1, &Token::Colon)
                                || self.check_ahead(1, &Token::Comma) || self.check_ahead(
                                1,
                                &Token::RBrace,
                            ) {
                                true
                            } else if self.pos + 1 < self.tokens.len() && matches!(
                                self.tokens[self.pos + 1].token,
                                Token::Identifier(_)
                            ) {
                                self.check_ahead(2, &Token::Colon)
                            } else {
                                false
                            };
                            if is_injector {
                                self.pos = self.pos + 1;
                                Some(self.parse_ctor_injector_fields()?)
                            } else {
                                None
                            }
                        } else {
                            None
                        };
                        return Ok(Expression::New { class_type, arguments, injector, span });
                    }
                    if self.check(&Token::LBracket) {
                        let ghost t = self.pos as int;
                        self.pos = self.pos + 1;
                        let size = self.parse_expression()?;
                        let ghost m = self.pos as int;
                        let ghost size_view = size;
                        self.expect_token(&Token::RBracket)?;
                        let mut args: Vec<Expression> = Vec::new();
                        args.push(size);
                        if self.check(&Token::LBrace) {
                            self.pos = self.pos + 1;
                            if !self.check(&Token::Comma) {
                                let ghost s1 = *self;
                                while !self.is_at_end() && !self.check(&Token::RBrace)
                                    invariant
                                        !kind_at(start.tokens@, start.pos as int, Token::Caret),
                                        self.wf(),
                                        self.follows(s1),
                                        s1.follows(start),
                                        s1.pos > start.pos,
                                        s1.pos > m,
                                        start == *old(self),
                                        args@.len() >= 1,
                                        args@[0] == size_view,
                                    decreases self.tokens@.len() - self.pos,
                                {
                                    args.push(self.parse_expression()?);
                                    self.match_token(&Token::Comma);
                                }
                            } else {
                                self.pos = self.pos + 1;
                            }
                            self.expect_token(&Token::RBrace)?;
                        }
                        let keyword_text = match &class_type {
                            TypeRef::Simple { name, .. } => name.clone(),
                            _ => "array".to_owned(),
                        };
                        let ghost args_view = args@;
                        let res = Expression::StaticMethodCall {
                            class_name: keyword_text,
                            method: "new_array".to_owned(),
                            arguments: args,
                            span,
                        };
                        proof {
                            lemma_new_array_node(
                                start.tokens@,
                                start.pos as int,
                                t,
                                m,
                                self.pos as int,
                                span,
                                class_type,
                                res,
                            );

                        }
                        return Ok(res                        );
                    }
                },
                Err(()) => {},
            }
            return Err(());
        }
        self.pos = saved;
        let target_expr = if self.check(&Token::LParen) {
            self.pos = self.pos + 1;
            let inner = self.parse_expression_with_precedence(PREC_POSTFIX + 1)?;
            self.expect_token(&Token::RParen)?;
            inner
        } else {
            self.parse_prefix()?
        };
        let arguments = if self.check(&Token::LParen) {
            self.pos = self.pos + 1;
            let args = self.parse_argument_list()?;
            self.expect_token(&Token::RParen)?;
            args
        } else {
            Vec::new()
        };
        match target_expr {
            Expression::InjectorFieldRef(name, _) => Ok(
                Expression::InjectorNew { injector_field: name, args: arguments, span },
            ),
            Expression::Identifier(name, _) => Ok(
                Expression::StaticMethodCall {
                    class_name: name,
                    method: String::new(),
                    arguments,
                    span,
                },
            ),
            _ => Ok(
                Expression::StaticMethodCall {
                    class_name: String::new(),
                    method: String::new(),
                    arguments,
                    span,
                },
            ),
        }
    }

    /// After a consumed `{`: the injector fields `key: value, ...` of a
    /// constructor call and the closing `}`; `{:}` and `{,}` are empty.
    fn parse_ctor_injector_fields(&mut self) -> (r: Result<Vec<(String, Expression)>, ()>)
        requires
            old(self).wf(),
        ensures
            final(self).wf(),
            final(self).follows(*old(self)),
            r is Ok ==> final(self).pos > old(self).pos,
            kind_at(old(self).tokens@, old(self).pos as int, Token::RBrace) ==> (r matches Ok(f) && f@.len() == 0 && final(self).pos == old(self).pos + 1),
        decreases old(self).remaining(), 33int,
    {
        let fields = self.parse_ctor_injector_fields_no_rbrace()?;
        self.expect_token(&Token::RBrace)?;
        Ok(fields)
    }

    /// The injector fields `key: value, ...` of a constructor call, without
    /// the closing `}`; a lone `:` or `,` gives none.
    fn parse_ctor_injector_fields_no_rbrace(&mut self) -> (r: Result<Vec<(String, Expression)>, ()>)
        requires
            old(self).wf(),
        ensures
            final(self).wf(),
            final(self).follows(*old(self)),
            kind_at(old(self).tokens@, old(self).pos as int, Token::Colon) || kind_at(old(self).tokens@, old(self).pos as int, Token::Comma) ==> (r matches Ok(f)
                && f@.len() == 0 && final(self).pos == old(self).pos + 1),
            kind_at(old(self).tokens@, old(self).pos as int, Token::RBrace) ==> (r matches Ok(f) && f@.len() == 0 && final(self).pos == old(self).pos),
        decreases old(self).remaining(), 32int,
    {
        let ghost start = *self;
        if self.check(&Token::Colon) {
            self.pos = self.pos + 1;
            return Ok(Vec::new());
        }
        if self.check(&Token::Comma) {
            self.pos = self.pos + 1;
            return Ok(Vec::new());
        }
        let mut f: Vec<(String, Expression)> = Vec::new();
        while !self.check(&Token::RBrace) && !self.is_at_end()
            invariant
                !kind_at(start.tokens@, start.pos as int, Token::Colon) && !kind_at(start.tokens@, start.pos as int, Token::Comma),
                    kind_at(start.tokens@, start.pos as int, Token::RBrace) ==> self.pos == start.pos && f@.len() == 0,
                self.wf(),
                self.follows(start),
                start == *old(self),
            decreases self.tokens@.len() - self.pos,
        {
            let key = match self.match_identifier() {
                Some(k) => k,
                None => {
                    self.error_here("期望注入器字段名");
                    return Err(());
                },
            };
            self.expect_token(&Token::Colon)?;
            let val = self.parse_expression()?;
            f.push((key, val));
            if !self.match_token(&Token::Comma) {
                break;
            }
        }
        Ok(f)
    }

    /// After a consumed `{`: an injector object `{ key: value, ... }` (a
    /// trailing comma allowed, `{}` empty).
    fn parse_injector_object(&mut self, span: Span) -> (r: Result<Expression, ()>)
        requires
            old(self).wf(),
        ensures
            final(self).wf(),
            final(self).follows(*old(self)),
            r is Ok ==> final(self).pos > old(self).pos,
            r matches Ok(x) ==> x matches Expression::InjectorObject { class_name, fields, span: s }
                && class_name@ == Seq::<char>::empty() && s == span && kind_at(
                old(self).tokens@,
                final(self).pos - 1,
                Token::RBrace,
            ) && if fields@.len() == 0 {
                final(self).pos == old(self).pos + 1
            } else {
                ||| old(self).pos < final(self).pos - 1 && entries_written(
                    old(self).tokens@,
                    old(self).pos as int,
                    final(self).pos - 1,
                    fields@,
                )
                ||| old(self).pos < final(self).pos - 2 && kind_at(old(self).tokens@, final(self).pos - 2, Token::Comma)
                    && entries_written(old(self).tokens@, old(self).pos as int, final(self).pos - 2, fields@)
            },
            kind_at(old(self).tokens@, old(self).pos as int, Token::RBrace) ==> r is Ok && final(self).pos == old(self).pos + 1,
        decreases old(self).remaining(), 31int,
    {
        let ghost start = *self;
        let ghost toks = self.tokens@;
        let mut fields: Vec<(String, Expression)> = Vec::new();
        if self.check(&Token::RBrace) {
            self.pos = self.pos + 1;
            return Ok(Expression::InjectorObject { class_name: String::new(), fields, span });
        }
        let ghost mut last_end: int = start.pos as int;
        let ghost mut trailing: bool = false;
        loop
            invariant_except_break
                fields@.len() == 0 ==> self.pos == start.pos,
                fields@.len() > 0 ==> entries_written(toks, start.pos as int, last_end, fields@)
                    && self.pos == last_end + 1 && separator_at(toks, last_end, false),
            invariant
                !kind_at(start.tokens@, start.pos as int, Token::RBrace),
                self.wf(),
                self.follows(start),
                start == *old(self),
                toks == self.tokens@,
            ensures
                fields@.len() > 0,
                start.pos < last_end,
                entries_written(toks, start.pos as int, last_end, fields@),
                trailing ==> self.pos == last_end + 1 && kind_at(toks, last_end, Token::Comma),
                !trailing ==> self.pos == last_end,
            decreases self.tokens@.len() - self.pos,
        {
            let ghost before = fields@;
            let ghost a = self.pos as int;
            let key = match self.match_identifier() {
                Some(k) => k,
                None => {
                    self.error_here("期望注入器字段名");
                    return Err(());
                },
            };
            self.expect_token(&Token::Colon)?;
            let value = self.parse_expression()?;
            let ghost entry = (key, value);
            fields.push((key, value));
            proof {
                let fs = fields@;
                assert(fs.drop_last() =~= before);
                assert(fs.last() == entry);
                assert(entry_written(toks, a, self.pos as int, entry));
                if before.len() > 0 {
                    assert(entries_written(toks, start.pos as int, last_end, fs.drop_last()));
                    assert(separator_at(toks, last_end, false));
                } else {
                    assert(fs[0] == entry);
                }
                assert(entries_written(toks, start.pos as int, self.pos as int, fs));
                last_end = self.pos as int;
            }
            if self.match_token(&Token::Comma) {
                if self.check(&Token::RBrace) {
                    proof {
                        trailing = true;
                    }
                    break;
                }
            } else {
                proof {
                    trailing = false;
                }
                break;
            }
        }
        self.expect_token(&Token::RBrace)?;
        Ok(Expression::InjectorObject { class_name: String::new(), fields, span })
    }

    /// After a consumed `[`: the elements `e, ...` of an injector array and the closing `]`.
    fn parse_injector_or_array(&mut self, span: Span) -> (r: Result<Expression, ()>)
        requires
            old(self).wf(),
        ensures
            final(self).wf(),
            final(self).follows(*old(self)),
            r is Ok ==> final(self).pos > old(self).pos,
            r matches Ok(x) ==> x matches Expression::InjectorArray { elements, span: s } && s == span
                && kind_at(old(self).tokens@, final(self).pos - 1, Token::RBracket) && old(self).pos <= final(self).pos - 1
                && arguments_written(old(self).tokens@, old(self).pos as int, final(self).pos - 1, elements@),
            kind_at(old(self).tokens@, old(self).pos as int, Token::RBracket) ==> r is Ok && final(self).pos == old(self).pos + 1,
        decreases old(self).remaining(), 36int,
    {
        let elements = if self.check(&Token::RBracket) {
            Vec::new()
        } else {
            self.parse_argument_list()?
        };
        self.expect_token(&Token::RBracket)?;
        Ok(Expression::InjectorArray { elements, span })
    }

    /// After `expr : {`: the injector literal up to its `}`: `{:}` or `{}` an
    /// empty object, `{,}` an empty array, `{ key: value, ... }` an object and
    /// `{ e, ... }` an array (a trailing comma allowed in both).
    fn parse_injector_literal_content(&mut self, span: Span) -> (r: Result<Expression, ()>)
        requires
            old(self).wf(),
        ensures
            final(self).wf(),
            final(self).follows(*old(self)),
            r is Ok ==> final(self).pos > old(self).pos,
            r matches Ok(x) ==> (x matches Expression::InjectorObject { class_name, span: s, .. }
                && class_name@ == Seq::<char>::empty() && s == span) || (x matches Expression::InjectorArray {
                span: s,
                ..
            } && s == span),
            kind_at(old(self).tokens@, old(self).pos as int, Token::RBrace) ==> r is Ok && final(self).pos == old(self).pos + 1,
            (kind_at(old(self).tokens@, old(self).pos as int, Token::Colon) || kind_at(old(self).tokens@, old(self).pos as int, Token::Comma)) && kind_at(old(self).tokens@, old(self).pos + 1, Token::RBrace)
                ==> r is Ok && final(self).pos == old(self).pos + 2,
        decreases old(self).remaining(), 34int,
    {
        let ghost start = *self;
        if self.match_token(&Token::Colon) {
            self.expect_token(&Token::RBrace)?;
            return Ok(
                Expression::InjectorObject { class_name: String::new(), fields: Vec::new(), span },
            );
        }
        if self.match_token(&Token::Comma) {
            self.expect_token(&Token::RBrace)?;
            return Ok(Expression::InjectorArray { elements: Vec::new(), span });
        }
        if self.check(&Token::RBrace) {
            self.pos = self.pos + 1;
            return Ok(
                Expression::InjectorObject { class_name: String::new(), fields: Vec::new(), span },
            );
        }
        let is_object = self.check_identifier() && self.check_ahead(1, &Token::Colon);
        if is_object {
            let mut fields: Vec<(String, Expression)> = Vec::new();
            loop
                invariant
                    !kind_at(start.tokens@, start.pos as int, Token::RBrace) && !kind_at(start.tokens@, start.pos as int, Token::Colon) && !kind_at(start.tokens@, start.pos as int, Token::Comma),
                    self.wf(),
                    self.follows(start),
                    start == *old(self),
                decreases self.tokens@.len() - self.pos,
            {
                let key = match self.match_identifier() {
                    Some(k) => k,
                    None => {
                        self.error_here("期望注入器字段名");
                        return Err(());
                    },
                };
                self.expect_token(&Token::Colon)?;
                let value = self.parse_expression()?;
                fields.push((key, value));
                if self.match_token(&Token::Comma) {
                    if self.check(&Token::RBrace) {
                        break;
                    }
                } else {
                    break;
                }
            }
            self.expect_token(&Token::RBrace)?;
            Ok(Expression::InjectorObject { class_name: String::new(), fields, span })
        } else {
            let mut elements: Vec<Expression> = Vec::new();
            loop
                invariant
                    !kind_at(start.tokens@, start.pos as int, Token::RBrace) && !kind_at(start.tokens@, start.pos as int, Token::Colon) && !kind_at(start.tokens@, start.pos as int, Token::Comma),
                    self.wf(),
                    self.follows(start),
                    start == *old(self),
                decreases self.tokens@.len() - self.pos,
            {
                elements.push(self.parse_expression()?);
                if self.match_token(&Token::Comma) {
                    if self.check(&Token::RBrace) {
                        break;
                    }
                } else {
                    break;
                }
            }
            self.expect_token(&Token::RBrace)?;
            Ok(Expression::InjectorArray { elements, span })
        }
    }

    /// A comma-separated list of expressions (a trailing comma allowed),
    /// empty where `)` or `]` comes first.
    fn parse_argument_list(&mut self) -> (r: Result<Vec<Expression>, ()>)
        requires
            old(self).wf(),
        ensures
            final(self).wf(),
            final(self).follows(*old(self)),
            r matches Ok(xs) ==> arguments_written(old(self).tokens@, old(self).pos as int, final(self).pos as int, xs@),
            kind_at(old(self).tokens@, old(self).pos as int, Token::RParen) || kind_at(old(self).tokens@, old(self).pos as int, Token::RBracket) ==> (r matches Ok(xs)
                && xs@.len() == 0 && final(self).pos == old(self).pos),
            flat_args(old(self).tokens@, old(self).pos as int) >= 0 ==> r is Ok && final(self).pos == flat_args(
                old(self).tokens@,
                old(self).pos as int,
            ),
        decreases old(self).remaining(), 35int,
    {
        let ghost start = *self;
        let ghost toks = self.tokens@;
        let mut args: Vec<Expression> = Vec::new();
        if self.check(&Token::RParen) || self.check(&Token::RBracket) {
            return Ok(args);
        }
        let ghost mut last_end: int = start.pos as int;
        loop
            invariant_except_break
                args@.len() == 0 ==> self.pos == start.pos,
                flat_args(toks, start.pos as int) >= 0 ==> flat_args(toks, self.pos as int) == flat_args(
                    toks,
                    start.pos as int,
                ) && !kind_at(toks, self.pos as int, Token::RParen) && !kind_at(
                    toks,
                    self.pos as int,
                    Token::RBracket,
                ),
                args@.len() > 0 ==> argument_items(toks, start.pos as int, last_end, args@)
                    && self.pos == last_end + 1 && separator_at(toks, last_end, false),
            invariant
                !kind_at(start.tokens@, start.pos as int, Token::RParen) && !kind_at(start.tokens@, start.pos as int, Token::RBracket),
                self.wf(),
                self.follows(start),
                start == *old(self),
                toks == self.tokens@,
            ensures
                arguments_written(toks, start.pos as int, self.pos as int, args@),
                flat_args(toks, start.pos as int) >= 0 ==> self.pos == flat_args(toks, start.pos as int),
            decreases self.tokens@.len() - self.pos,
        {
            let ghost before = args@;
            let ghost a = self.pos as int;
            proof {
                if flat_args(toks, start.pos as int) >= 0 {
                    assert(flat_expression(toks, a));
                }
            }
            let x = self.parse_expression()?;
            args.push(x);
            proof {
                let xs = args@;
                assert(xs.drop_last() =~= before);
                if before.len() > 0 {
                    assert(argument_items(toks, start.pos as int, last_end, xs.drop_last()));
                    assert(separator_at(toks, last_end, false));
                } else {
                    assert(xs[0] == x);
                }
                assert(argument_items(toks, start.pos as int, self.pos as int, xs));
                last_end = self.pos as int;
            }
            if !self.match_token(&Token::Comma) {
                break;
            }
            if self.check(&Token::RParen) || self.check(&Token::RBracket) {
                break;
            }
        }
        Ok(args)
    }

    /// Given the operand `left` and the next token, an operator of binding
    /// power `precedence`: consumes the operator and builds the larger
    /// expression (a binary operation, left associative; an assignment, right
    /// associative; `?:`; a member access, call, index, postfix `++`/`--` or
    /// `^`; a typed lambda or an injector literal after `:`).
    fn parse_infix(&mut self, left: Expression, precedence: u8) -> (r: Result<Expression, ()>)
        requires
            old(self).wf(),
            old(self).pos < old(self).tokens@.len(),
            precedence <= PREC_PRIMARY,
            !(old(self).tokens@[old(self).pos as int].token is Colon) ==> precedence == infix_precedence(
                old(self).tokens@[old(self).pos as int].token,
            ),
        ensures
            final(self).wf(),
            final(self).follows(*old(self)),
            r is Ok ==> final(self).pos > old(self).pos,
            r matches Ok(x) ==> infix_node(old(self).tokens@, old(self).pos as int, final(self).pos as int, left, x),
            r is Ok && is_binary_token(old(self).tokens@[old(self).pos as int].token) ==> expression_stops(
                old(self).tokens@,
                final(self).pos as int,
                (precedence + 1) as u8,
                final(self).suppress_colon_precheck,
            ),
            (old(self).tokens@[old(self).pos as int].token is PlusPlus || old(self).tokens@[old(self).pos as int].token is MinusMinus
                || old(self).tokens@[old(self).pos as int].token is Caret) ==> r is Ok && final(self).pos == old(self).pos + 1,
            old(self).tokens@[old(self).pos as int].token is Dot && !kind_at(old(self).tokens@, old(self).pos + 1, Token::Caret) && is_ident_at(old(self).tokens@, old(self).pos + 1)
                ==> r is Ok && final(self).pos == old(self).pos + 2,
            is_binary_token(old(self).tokens@[old(self).pos as int].token) && flat_expression(
                old(self).tokens@,
                old(self).pos + 1,
            ) ==> r is Ok && final(self).pos == flat_end(
                old(self).tokens@,
                flat_operand(old(self).tokens@, old(self).pos + 1),
                (precedence + 1) as u8,
            ),
        decreases old(self).remaining(), 25int,
    {
        let i = self.pos;
        let span = self.tokens[i].span;
        let tok = clone_token(&self.tokens[i].token);
        self.pos = self.pos + 1;
        let span_start = left.span();
        match tok {
            Token::Plus | Token::Minus | Token::Star | Token::Slash | Token::Percent | Token::Less
            | Token::LessEqual | Token::Greater | Token::GreaterEqual | Token::EqualEqual
            | Token::NotEqual | Token::AndAnd | Token::OrOr => {
                let ghost q = self.pos as int;
                let right = self.parse_expression_with_precedence(precedence + 1)?;
                proof {
                    if q < self.tokens@.len() && !kind_at(self.tokens@, q, Token::LParen) {
                        law_binary_top_binds_tightly(self.tokens@, q, self.pos as int, (precedence + 1) as u8, right);
                    }
                }
                let op = token_to_binary_op(&tok);
                let right_end = right.span().end;
                let combined_span = Span::new(
                    span_start.start,
                    right_end,
                    span_start.line,
                    span_start.column,
                    span_start.source_id,
                );
                Ok(
                    Expression::Binary {
                        left: Box::new(left),
                        operator: op,
                        right: Box::new(right),
                        span: combined_span,
                    },
                )
            },
            Token::Assign | Token::PlusAssign | Token::MinusAssign | Token::StarAssign
            | Token::SlashAssign | Token::PercentAssign => {
                let right = self.parse_expression_with_precedence(precedence)?;
                let target = match left {
                    Expression::Identifier(name, s) => AssignmentTarget::Variable(name, s),
                    Expression::MemberAccess { object, member, span: ms } => {
                        match strip_caret(&member) {
                            Some(field) => AssignmentTarget::InjectorField { object, field, span: ms },
                            None => AssignmentTarget::Field { object, field: member, span: ms },
                        }
                    },
                    Expression::ArrayAccess { array, index, span: aspan } => {
                        AssignmentTarget::ArrayElement { array, index, span: aspan }
                    },
                    other => {
                        let s = other.span();
                        self.error(s, "赋值目标必须是变量、字段或数组元素");
                        return Err(());
                    },
                };
                let op = token_to_assignment_op(&tok);
                Ok(Expression::Assignment { target, operator: op, value: Box::new(right), span })
            },
            Token::Question => {
                self.suppress_colon_precheck = true;
                let then_branch = self.parse_expression_with_precedence(PREC_ASSIGNMENT)?;
                self.suppress_colon_precheck = false;
                let ghost c = self.pos as int;
                self.expect_token(&Token::Colon)?;
                self.suppress_colon_precheck = true;
                let else_branch = self.parse_expression_with_precedence(precedence)?;
                self.suppress_colon_precheck = false;
                proof {
                    assert(kind_at(self.tokens@, c, Token::Colon));
                }
                Ok(
                    Expression::Conditional {
                        condition: Box::new(left),
                        then_branch: Box::new(then_branch),
                        else_branch: Some(Box::new(else_branch)),
                        span,
                    },
                )
            },
            Token::Dot => {
                if self.match_token(&Token::Caret) {
                    let member = match self.match_identifier() {
                        Some(m) => m,
                        None => {
                            self.error_here("期望注入器字段名");
                            return Err(());
                        },
                    };
                    let full = String::from_str("^").concat(member.as_str());
                    return Ok(Expression::MemberAccess { object: Box::new(left), member: full, span });
                }
                let member = match self.match_identifier() {
                    Some(m) => m,
                    None => {
                        self.error_here("期望成员名");
                        return Err(());
                    },
                };
                Ok(Expression::MemberAccess { object: Box::new(left), member, span })
            },
            Token::LParen => {
                let args = self.parse_argument_list()?;
                self.expect_token(&Token::RParen)?;
                match left {
                    Expression::Identifier(name, _) => Ok(
                        Expression::StaticMethodCall {
                            class_name: String::new(),
                            method: name,
                            arguments: args,
                            span,
                        },
                    ),
                    Expression::MemberAccess { object, member, .. } => Ok(
                        Expression::MethodCall {
                            receiver: object,
                            method: member,
                            arguments: args,
                            span,
                        },
                    ),
                    other => Ok(
                        Expression::MethodCall {
                            receiver: Box::new(other),
                            method: String::new(),
                            arguments: args,
                            span,
                        },
                    ),
                }
            },
            Token::LBracket => {
                let index = self.parse_expression()?;
                self.expect_token(&Token::RBracket)?;
                Ok(Expression::ArrayAccess { array: Box::new(left), index: Box::new(index), span })
            },
            Token::PlusPlus => Ok(
                Expression::Unary { operator: UnaryOp::PostIncrement, operand: Box::new(left), span },
            ),
            Token::MinusMinus => Ok(
                Expression::Unary { operator: UnaryOp::PostDecrement, operand: Box::new(left), span },
            ),
            Token::Caret => Ok(
                Expression::MemberAccess { object: Box::new(left), member: "^".to_owned(), span },
            ),
            Token::Colon => {
                if self.check(&Token::LParen) {
                    self.pos = self.pos + 1;
                    let params = self.parse_typed_parameters()?;
                    self.expect_token(&Token::RParen)?;
                    self.expect_token(&Token::LambdaArrow)?;
                    let body = self.parse_lambda_body()?;
                    return Ok(Expression::Lambda { parameters: params, body, span });
                }
                if self.check(&Token::LBrace) {
                    self.pos = self.pos + 1;
                    let class_name = match &left {
                        Expression::Identifier(name, _) => name.clone(),
                        _ => String::new(),
                    };
                    let result = self.parse_injector_literal_content(span)?;
                    return match result {
                        Expression::InjectorObject { fields, span, .. } => Ok(
                            Expression::InjectorObject { class_name, fields, span },
                        ),
                        other => Ok(other),
                    };
                }
                self.error(span, "Colon 后期望 Lambda 参数列表或注入器字面量");
                Err(())
            },
            _ => {
                self.error(span, "意外的中缀操作符");
                Err(())
            },
        }
    }

    /// Whether the next token can start a type in a declaration.
    fn is_type_start(&self) -> (r: bool)
        ensures
            r == (self.pos < self.tokens@.len() && match self.tokens@[self.pos as int].token {
                Token::TypeInt | Token::TypeFloat | Token::TypeBool | Token::TypeString
                | Token::TypeVoid | Token::TypeObject | Token::KwDelegate | Token::Identifier(_) => true,
                _ => false,
            }),
    {
        self.pos < self.tokens.len() && match &self.tokens[self.pos].token {
            Token::TypeInt | Token::TypeFloat | Token::TypeBool | Token::TypeString | Token::TypeVoid
            | Token::TypeObject | Token::KwDelegate | Token::Identifier(_) => true,
            _ => false,
        }
    }

    /// A comma-separated list of typed parameters `Type name`, empty where `)` comes first.
    fn parse_typed_parameters(&mut self) -> (r: Result<Vec<Parameter>, ()>)
        requires
            old(self).wf(),
        ensures
            final(self).wf(),
            final(self).follows(*old(self)),
            final(self).suppress_colon_precheck == old(self).suppress_colon_precheck,
            r matches Ok(ps) ==> parameters_written(old(self).tokens@, old(self).pos as int, final(self).pos as int, ps@),
            kind_at(old(self).tokens@, old(self).pos as int, Token::RParen) ==> (r matches Ok(ps) && ps@.len() == 0 && final(self).pos == old(self).pos),
            one_token_type_at(old(self).tokens@, old(self).pos as int) && is_ident_at(old(self).tokens@, old(self).pos + 1)
                && !kind_at(old(self).tokens@, old(self).pos + 2, Token::Comma)
                ==> (r matches Ok(ps) && ps@.len() == 1 && final(self).pos == old(self).pos + 2),
    {
        let ghost start = *self;
        let ghost toks = self.tokens@;
        let mut params: Vec<Parameter> = Vec::new();
        if self.check(&Token::RParen) {
            return Ok(params);
        }
        let ghost mut last_end: int = start.pos as int;
        loop
            invariant_except_break
                params@.len() == 0 ==> self.pos == start.pos,
                one_token_type_at(toks, start.pos as int) && is_ident_at(toks, start.pos + 1)
                    && !kind_at(toks, start.pos + 2, Token::Comma) ==> params@.len() == 0,
                params@.len() > 0 ==> parameters_written(toks, start.pos as int, last_end, params@)
                    && self.pos == last_end + 1 && separator_at(toks, last_end, false),
            invariant
                !kind_at(start.tokens@, start.pos as int, Token::RParen),
                self.wf(),
                self.follows(start),
                self.suppress_colon_precheck == start.suppress_colon_precheck,
                start == *old(self),
                toks == self.tokens@,
            ensures
                parameters_written(toks, start.pos as int, self.pos as int, params@),
                one_token_type_at(toks, start.pos as int) && is_ident_at(toks, start.pos + 1)
                    && !kind_at(toks, start.pos + 2, Token::Comma) ==> params@.len() == 1
                    && self.pos == start.pos + 2,
            decreases self.tokens@.len() - self.pos,
        {
            let ghost before = params@;
            let ghost a = self.pos as int;
            let param_type = self.parse_type_ref()?;
            let name = match self.match_identifier() {
                Some(n) => n,
                None => {
                    self.error_here("期望参数名");
                    return Err(());
                },
            };
            let span = self.current_span();
            params.push(Parameter { name, param_type, span });
            proof {
                let ps = params@;
                assert(ps.drop_last() =~= before);
                assert(parameter_written(toks, a, self.pos as int, ps.last()));
                if before.len() > 0 {
                    assert(parameters_written(toks, start.pos as int, last_end, ps.drop_last()));
                } else {
                    assert(ps[0] == ps.last());
                }
                assert(parameters_written(toks, start.pos as int, self.pos as int, ps));
                last_end = self.pos as int;
            }
            if !self.match_token(&Token::Comma) {
                break;
            }
        }
        Ok(params)
    }

    // ==================== statements ====================

    /// Parses a statement: a block, `if`, `do`, `while`, `for`, `switch`,
    /// `return`, `break`, `continue`, a variable declaration or an expression
    /// statement.
    pub fn parse_statement(&mut self) -> (r: Result<Statement, ()>)
        requires
            old(self).wf(),
        ensures
            final(self).wf(),
            final(self).follows(*old(self)),
            r is Ok ==> final(self).position() > old(self).position(),
            r matches Ok(st) ==> statement_node(old(self).token_list(), old(self).position(), final(self).position(), st),
            kind_at(old(self).token_list(), old(self).position(), Token::LBrace) && kind_at(
                old(self).token_list(),
                old(self).position() + 1,
                Token::RBrace,
            ) ==> r is Ok && final(self).position() == old(self).position() + 2,
            (kind_at(old(self).token_list(), old(self).position(), Token::KwBreak) || kind_at(
                old(self).token_list(),
                old(self).position(),
                Token::KwContinue,
            )) && kind_at(
                old(self).token_list(),
                old(self).position() + 1 + break_run_len(old(self).token_list(), old(self).position() + 1),
                Token::Semicolon,
            ) ==> r is Ok,
            kind_at(old(self).token_list(), old(self).position(), Token::KwReturn) && kind_at(
                old(self).token_list(),
                old(self).position() + 1,
                Token::Semicolon,
            ) ==> r is Ok,
        decreases old(self).remaining(), 40int,
    {
        if self.check(&Token::LBrace) {
            let statements = self.parse_block()?;
            let span = self.last_span();
            return Ok(Statement::Block { statements, span });
        }
        if self.check(&Token::KwIf) {
            return self.parse_if_statement();
        }
        if self.check(&Token::KwDo) {
            return self.parse_do_while_statement();
        }
        if self.check(&Token::KwWhile) {
            return self.parse_while_statement();
        }
        if self.check(&Token::KwFor) {
            return self.parse_for_statement();
        }
        if self.check(&Token::KwSwitch) {
            return self.parse_switch_statement();
        }
        if self.check(&Token::KwReturn) {
            return self.parse_return_statement();
        }
        if self.check(&Token::KwBreak) {
            let span = self.tokens[self.pos].span;
            self.pos = self.pos + 1;
            let targets = self.parse_break_targets();
            self.expect_semicolon()?;
            return Ok(Statement::Break { targets, span });
        }
        if self.check(&Token::KwContinue) {
            let span = self.tokens[self.pos].span;
            self.pos = self.pos + 1;
            let targets = self.parse_break_targets();
            self.expect_semicolon()?;
            return Ok(Statement::Continue { targets, span });
        }
        self.parse_declaration_or_expression_statement()
    }

    /// The targets after `break` or `continue`: integer literals (a count of
    /// levels; a negative count counts as zero) and loop keywords, up to the
    /// first other token; one level where there are none.
    fn parse_break_targets(&mut self) -> (targets: Vec<BreakTarget>)
        requires
            old(self).wf(),
        ensures
            final(self).wf(),
            final(self).follows(*old(self)),
            final(self).reported() == old(self).reported(),
            final(self).suppress_colon_precheck == old(self).suppress_colon_precheck,
            final(self).pos == old(self).pos + break_run_len(old(self).tokens@, old(self).pos as int),
            if final(self).pos == old(self).pos {
                targets@ == seq![BreakTarget::ByLayer(1)]
            } else {
                &&& targets@.len() == final(self).pos - old(self).pos
                &&& forall|k: int|
                    0 <= k < targets@.len() ==> break_target_of(
                        old(self).tokens@[old(self).pos + k].token,
                        #[trigger] targets@[k],
                    )
            },
    {
        let ghost start = *self;
        let mut targets: Vec<BreakTarget> = Vec::new();
        proof {
            reveal_strlit("for");
            reveal_strlit("while");
            reveal_strlit("switch");
            reveal_strlit("do");
            reveal_strlit("if");
            reveal_strlit("else");
        }
        while self.pos < self.tokens.len()
            invariant_except_break
                self.wf(),
                self.follows(start),
                self.reported() == start.reported(),
                self.suppress_colon_precheck == start.suppress_colon_precheck,
                targets@.len() == self.pos - start.pos,
                break_run_len(start.tokens@, start.pos as int) == targets@.len() + break_run_len(
                    self.tokens@,
                    self.pos as int,
                ),
                forall|k: int|
                    0 <= k < targets@.len() ==> break_target_of(
                        start.tokens@[start.pos + k].token,
                        #[trigger] targets@[k],
                    ),
            ensures
                self.wf(),
                self.follows(start),
                self.reported() == start.reported(),
                self.suppress_colon_precheck == start.suppress_colon_precheck,
                targets@.len() == self.pos - start.pos,
                break_run_len(start.tokens@, start.pos as int) == targets@.len(),
                forall|k: int|
                    0 <= k < targets@.len() ==> break_target_of(
                        start.tokens@[start.pos + k].token,
                        #[trigger] targets@[k],
                    ),
            decreases self.tokens@.len() - self.pos,
        {
            let t = match &self.tokens[self.pos].token {
                Token::IntLiteral(n) => {
                    let layers: u32 = if *n < 0 {
                        0
                    } else {
                        #[verifier::truncate]
                        (*n as u32)
                    };
                    BreakTarget::ByLayer(layers)
                },
                Token::KwFor => BreakTarget::ByKeyword("for".to_owned()),
                Token::KwWhile => BreakTarget::ByKeyword("while".to_owned()),
                Token::KwSwitch => BreakTarget::ByKeyword("switch".to_owned()),
                Token::KwDo => BreakTarget::ByKeyword("do".to_owned()),
                Token::KwIf => BreakTarget::ByKeyword("if".to_owned()),
                Token::KwElse => BreakTarget::ByKeyword("else".to_owned()),
                _ => {
                    break;
                },
            };
            proof {
                assert(break_target_of(start.tokens@[start.pos + targets@.len()].token, t));
            }
            self.pos = self.pos + 1;
            targets.push(t);
        }
        if targets.len() == 0 {
            targets.push(BreakTarget::ByLayer(1));
            proof {
                assert(targets@ =~= seq![BreakTarget::ByLayer(1)]);
            }
        }
        targets
    }

    /// Parses a block `{ statements }`.
    fn parse_block(&mut self) -> (r: Result<Vec<Statement>, ()>)
        requires
            old(self).wf(),
        ensures
            final(self).wf(),
            final(self).follows(*old(self)),
            r is Ok ==> final(self).pos > old(self).pos,
            kind_at(old(self).tokens@, old(self).pos as int, Token::LBrace) && kind_at(old(self).tokens@, old(self).pos + 1, Token::RBrace) ==> (r matches Ok(b)
                && b@.len() == 0 && final(self).pos == old(self).pos + 2),
            r matches Ok(b) ==> old(self).pos + 1 <= final(self).pos - 1 && kind_at(old(self).tokens@, final(self).pos - 1, Token::RBrace)
                && statements_written(old(self).tokens@, old(self).pos + 1, final(self).pos - 1, b@),
        decreases old(self).remaining(), 39int,
    {
        let ghost start = *self;
        self.expect_token(&Token::LBrace)?;
        let mut statements: Vec<Statement> = Vec::new();
        while !self.check(&Token::RBrace) && !self.is_at_end()
            invariant
                kind_at(start.tokens@, start.pos as int, Token::LBrace) && kind_at(start.tokens@, start.pos + 1, Token::RBrace) ==> self.pos == start.pos + 1 && statements@.len() == 0,
                self.wf(),
                self.follows(start),
                self.pos > start.pos,
                start == *old(self),
                statements_written(start.tokens@, start.pos + 1, self.pos as int, statements@),
            decreases self.tokens@.len() - self.pos,
        {
            let ghost q = self.pos as int;
            let st = self.parse_statement()?;
            proof {
                let _ = start.tokens@[q];
                assert(statements@.push(st).drop_last() =~= statements@);
                assert(statement_node(start.tokens@, q, self.pos as int, st));
            }
            statements.push(st);
        }
        self.expect_token(&Token::RBrace)?;
        Ok(statements)
    }

    /// Parses `if (condition) statement [else statement]`.
    fn parse_if_statement(&mut self) -> (r: Result<Statement, ()>)
        requires
            old(self).wf(),
            old(self).pos < old(self).tokens@.len(),
        ensures
            final(self).wf(),
            final(self).follows(*old(self)),
            r is Ok ==> final(self).pos > old(self).pos,
            r matches Ok(st) ==> st matches Statement::If { condition, then_branch, else_branch, span: s } && s == old(self).tokens@[old(self).pos as int].span
                && condition_written(old(self).tokens@, old(self).pos as int, condition) && branches_written(
                old(self).tokens@,
                old(self).pos as int,
                final(self).pos as int,
                condition,
                *then_branch,
                else_branch,
            ),
            kind_at(old(self).tokens@, old(self).pos + 1, Token::LParen) && atom_at(old(self).tokens@, old(self).pos + 2) && kind_at(old(self).tokens@, old(self).pos + 3, Token::RParen)
                && kind_at(old(self).tokens@, old(self).pos + 4, Token::LBrace) && kind_at(old(self).tokens@, old(self).pos + 5, Token::RBrace)
                && !kind_at(old(self).tokens@, old(self).pos + 6, Token::KwElse) ==> r is Ok,
        decreases old(self).remaining(), 38int,
    {
        let span = self.tokens[self.pos].span;
        self.pos = self.pos + 1;
        self.expect_token(&Token::LParen)?;
        let condition = self.parse_expression()?;
        let ghost c = self.pos as int;
        self.expect_token(&Token::RParen)?;
        proof {
            assert(kind_at(self.tokens@, c, Token::RParen));
        }
        let ghost a = self.pos as int;
        let then_branch = Box::new(self.parse_statement()?);
        let ghost m = self.pos as int;
        let else_branch = if self.match_token(&Token::KwElse) {
            Some(Box::new(self.parse_statement()?))
        } else {
            None
        };
        proof {
            let _ = self.tokens@[m];
            assert(a == c + 1);
        }
        Ok(Statement::If { condition, then_branch, else_branch, span })
    }

    /// Parses `while (condition) statement`.
    fn parse_while_statement(&mut self) -> (r: Result<Statement, ()>)
        requires
            old(self).wf(),
            old(self).pos < old(self).tokens@.len(),
        ensures
            final(self).wf(),
            final(self).follows(*old(self)),
            r is Ok ==> final(self).pos > old(self).pos,
            r matches Ok(st) ==> st matches Statement::While { condition, body, span: s } && s == old(self).tokens@[old(self).pos as int].span
                && condition_written(old(self).tokens@, old(self).pos as int, condition) && body_written(
                old(self).tokens@,
                old(self).pos as int,
                final(self).pos as int,
                condition,
                *body,
            ),
            kind_at(old(self).tokens@, old(self).pos + 1, Token::LParen) && atom_at(old(self).tokens@, old(self).pos + 2) && kind_at(old(self).tokens@, old(self).pos + 3, Token::RParen)
                && kind_at(old(self).tokens@, old(self).pos + 4, Token::LBrace) && kind_at(old(self).tokens@, old(self).pos + 5, Token::RBrace) ==> r is Ok,
        decreases old(self).remaining(), 38int,
    {
        let span = self.tokens[self.pos].span;
        self.pos = self.pos + 1;
        self.expect_token(&Token::LParen)?;
        let condition = self.parse_expression()?;
        let ghost c = self.pos as int;
        self.expect_token(&Token::RParen)?;
        proof {
            assert(kind_at(self.tokens@, c, Token::RParen));
        }
        let body = Box::new(self.parse_statement()?);
        Ok(Statement::While { condition, body, span })
    }

    /// Parses `for (initializer; condition; update) statement`; each of the
    /// three may be empty, the initializer may declare a variable.
    fn parse_for_statement(&mut self) -> (r: Result<Statement, ()>)
        requires
            old(self).wf(),
            old(self).pos < old(self).tokens@.len(),
        ensures
            final(self).wf(),
            final(self).follows(*old(self)),
            r is Ok ==> final(self).pos > old(self).pos,
            r matches Ok(st) ==> st matches Statement::For { condition, update, body, span: s, .. } && s == old(self).tokens@[old(self).pos as int].span
                && for_written(old(self).tokens@, old(self).pos as int, final(self).pos as int, condition, update, *body),
            kind_at(old(self).tokens@, old(self).pos + 1, Token::LParen) && kind_at(old(self).tokens@, old(self).pos + 2, Token::Semicolon) && kind_at(old(self).tokens@, old(self).pos + 3, Token::Semicolon)
                && kind_at(old(self).tokens@, old(self).pos + 4, Token::RParen) && kind_at(old(self).tokens@, old(self).pos + 5, Token::LBrace)
                && kind_at(old(self).tokens@, old(self).pos + 6, Token::RBrace) ==> r is Ok,
        decreases old(self).remaining(), 38int,
    {
        let span = self.tokens[self.pos].span;
        self.pos = self.pos + 1;
        self.expect_token(&Token::LParen)?;
        let initializer = if self.check(&Token::Semicolon) {
            None
        } else if self.is_type_start() {
            let var_type = self.parse_type_ref()?;
            let name = match self.match_identifier() {
                Some(n) => n,
                None => {
                    self.error_here("期望变量名");
                    return Err(());
                },
            };
            let init_expr = if self.match_token(&Token::Assign) {
                Some(self.parse_expression()?)
            } else {
                None
            };
            Some(Box::new(Statement::VariableDeclaration { var_type, name, initializer: init_expr, span }))
        } else {
            let expr = self.parse_expression()?;
            Some(Box::new(Statement::Expression(expr, span)))
        };
        let ghost s1 = self.pos as int;
        self.expect_token(&Token::Semicolon)?;
        let condition = if self.check(&Token::Semicolon) {
            None
        } else {
            Some(self.parse_expression()?)
        };
        let ghost s2 = self.pos as int;
        self.expect_token(&Token::Semicolon)?;
        let update = if self.check(&Token::RParen) {
            None
        } else {
            Some(self.parse_expression()?)
        };
        let ghost c = self.pos as int;
        self.expect_token(&Token::RParen)?;
        let body = Box::new(self.parse_statement()?);
        proof {
            assert(kind_at(self.tokens@, s1, Token::Semicolon));
            assert(kind_at(self.tokens@, s2, Token::Semicolon));
            assert(kind_at(self.tokens@, c, Token::RParen));
        }
        Ok(Statement::For { initializer, condition, update, body, span })
    }

    /// Parses `do statement while (condition);`.
    fn parse_do_while_statement(&mut self) -> (r: Result<Statement, ()>)
        requires
            old(self).wf(),
            old(self).pos < old(self).tokens@.len(),
        ensures
            final(self).wf(),
            final(self).follows(*old(self)),
            r is Ok ==> final(self).pos > old(self).pos,
            r matches Ok(st) ==> st matches Statement::DoWhile { body, condition, span: s } && s == old(self).tokens@[old(self).pos as int].span
                && do_written(old(self).tokens@, old(self).pos as int, final(self).pos as int, *body, condition),
            kind_at(old(self).tokens@, old(self).pos + 1, Token::LBrace) && kind_at(old(self).tokens@, old(self).pos + 2, Token::RBrace) && kind_at(old(self).tokens@, old(self).pos + 3, Token::KwWhile)
                && kind_at(old(self).tokens@, old(self).pos + 4, Token::LParen) && atom_at(old(self).tokens@, old(self).pos + 5) && kind_at(old(self).tokens@, old(self).pos + 6, Token::RParen)
                && kind_at(old(self).tokens@, old(self).pos + 7, Token::Semicolon) ==> r is Ok,
        decreases old(self).remaining(), 38int,
    {
        let span = self.tokens[self.pos].span;
        self.pos = self.pos + 1;
        let body = Box::new(self.parse_statement()?);
        let ghost m = self.pos as int;
        self.expect_token(&Token::KwWhile)?;
        self.expect_token(&Token::LParen)?;
        let condition = self.parse_expression()?;
        self.expect_token(&Token::RParen)?;
        self.expect_semicolon()?;
        proof {
            assert(kind_at(self.tokens@, m, Token::KwWhile));
        }
        Ok(Statement::DoWhile { body, condition, span })
    }

    /// Parses the statements of a `case` or `default` body, up to the next
    /// `case`, `default` or `}`.
    fn parse_case_body(&mut self) -> (r: Result<Vec<Statement>, ()>)
        requires
            old(self).wf(),
        ensures
            final(self).wf(),
            final(self).follows(*old(self)),
            r is Ok ==> final(self).pos >= final(self).tokens@.len() || kind_at(old(self).tokens@, final(self).pos as int, Token::KwCase)
                || kind_at(old(self).tokens@, final(self).pos as int, Token::KwDefault) || kind_at(old(self).tokens@, final(self).pos as int, Token::RBrace),
            (old(self).pos >= old(self).tokens@.len() || kind_at(old(self).tokens@, old(self).pos as int, Token::KwCase) || kind_at(old(self).tokens@, old(self).pos as int, Token::KwDefault)
                || kind_at(old(self).tokens@, old(self).pos as int, Token::RBrace)) ==> (r matches Ok(b) && b@.len() == 0 && final(self).pos == old(self).pos),
            r matches Ok(b) ==> statements_written(old(self).tokens@, old(self).pos as int, final(self).pos as int, b@),
        decreases old(self).remaining(), 41int,
    {
        let ghost start = *self;
        let mut body: Vec<Statement> = Vec::new();
        while !self.check(&Token::KwCase) && !self.check(&Token::KwDefault) && !self.check(
            &Token::RBrace,
        ) && !self.is_at_end()
            invariant
                (start.pos >= start.tokens@.len() || kind_at(start.tokens@, start.pos as int, Token::KwCase) || kind_at(start.tokens@, start.pos as int, Token::KwDefault) || kind_at(start.tokens@, start.pos as int, Token::RBrace)) ==> self.pos == start.pos && body@.len() == 0,
                self.wf(),
                self.follows(start),
                start == *old(self),
                statements_written(start.tokens@, start.pos as int, self.pos as int, body@),
            decreases self.tokens@.len() - self.pos,
        {
            let ghost q = self.pos as int;
            let st = self.parse_statement()?;
            proof {
                let _ = start.tokens@[q];
                assert(body@.push(st).drop_last() =~= body@);
            }
            body.push(st);
        }
        Ok(body)
    }

    /// Parses `switch (expression) { case v, ...: statements ... default: statements }`;
    /// other tokens between cases are skipped.
    fn parse_switch_statement(&mut self) -> (r: Result<Statement, ()>)
        requires
            old(self).wf(),
            old(self).pos < old(self).tokens@.len(),
        ensures
            final(self).wf(),
            final(self).follows(*old(self)),
            r is Ok ==> final(self).pos > old(self).pos,
            r matches Ok(st) ==> st matches Statement::Switch { span: s, .. } && s == old(self).tokens@[old(self).pos as int].span,
            kind_at(old(self).tokens@, old(self).pos + 1, Token::LParen) && atom_at(old(self).tokens@, old(self).pos + 2) && kind_at(old(self).tokens@, old(self).pos + 3, Token::RParen)
                && kind_at(old(self).tokens@, old(self).pos + 4, Token::LBrace) && kind_at(old(self).tokens@, old(self).pos + 5, Token::RBrace) ==> r is Ok,
        decreases old(self).remaining(), 38int,
    {
        let ghost start = *self;
        let span = self.tokens[self.pos].span;
        self.pos = self.pos + 1;
        self.expect_token(&Token::LParen)?;
        let expression = self.parse_expression()?;
        self.expect_token(&Token::RParen)?;
        self.expect_token(&Token::LBrace)?;
        let mut cases: Vec<CaseBlock> = Vec::new();
        let mut default_body: Option<Box<Statement>> = None;
        while !self.check(&Token::RBrace) && !self.is_at_end()
            invariant

                kind_at(start.tokens@, start.pos + 1, Token::LParen) && atom_at(start.tokens@, start.pos + 2) && kind_at(start.tokens@, start.pos + 3, Token::RParen) && kind_at(start.tokens@, start.pos + 4, Token::LBrace) && kind_at(start.tokens@, start.pos + 5, Token::RBrace) ==> self.pos == start.pos + 5,
                self.wf(),
                self.follows(start),
                self.pos > start.pos,
                start == *old(self),
            decreases self.tokens@.len() - self.pos,
        {
            let ghost before = self.pos;
            if self.match_token(&Token::KwCase) {
                let case_span = self.current_span();
                let mut values: Vec<Expression> = Vec::new();
                loop
                    invariant
                        !(kind_at(start.tokens@, start.pos + 1, Token::LParen) && atom_at(start.tokens@, start.pos + 2) && kind_at(start.tokens@, start.pos + 3, Token::RParen) && kind_at(start.tokens@, start.pos + 4, Token::LBrace) && kind_at(start.tokens@, start.pos + 5, Token::RBrace)),
                        self.wf(),
                        self.follows(start),
                        self.pos > start.pos,
                        self.pos > before,
                        start == *old(self),
                    decreases self.tokens@.len() - self.pos,
                {
                    values.push(self.parse_expression()?);
                    if !self.match_token(&Token::Comma) {
                        break;
                    }
                }
                self.expect_token(&Token::Colon)?;
                let body = self.parse_case_body()?;
                cases.push(CaseBlock { values, body, span: case_span });
            } else if self.match_token(&Token::KwDefault) {
                self.expect_token(&Token::Colon)?;
                let body = self.parse_case_body()?;
                default_body = Some(Box::new(Statement::Block { statements: body, span }));
            } else {
                self.pos = self.pos + 1;
            }
        }
        self.expect_token(&Token::RBrace)?;
        Ok(Statement::Switch { expression, cases, default_body, span })
    }

    /// Parses `return [value];`.
    fn parse_return_statement(&mut self) -> (r: Result<Statement, ()>)
        requires
            old(self).wf(),
            old(self).pos < old(self).tokens@.len(),
        ensures
            final(self).wf(),
            final(self).follows(*old(self)),
            r is Ok ==> final(self).pos > old(self).pos,
            r matches Ok(st) ==> st matches Statement::Return { value, span: s } && s == old(self).tokens@[old(self).pos as int].span
                && (value is None <==> kind_at(old(self).tokens@, old(self).pos + 1, Token::Semicolon))
                && kind_at(old(self).tokens@, final(self).pos - 1, Token::Semicolon)
                && (value matches Some(v) ==> old(self).pos + 1 < final(self).pos - 1 && expression_top(
                old(self).tokens@,
                old(self).pos + 1,
                final(self).pos - 1,
                PREC_ASSIGNMENT,
                v,
            )),
            kind_at(old(self).tokens@, old(self).pos + 1, Token::Semicolon) ==> r is Ok && final(self).pos == old(self).pos + 2,
        decreases old(self).remaining(), 38int,
    {
        let span = self.tokens[self.pos].span;
        self.pos = self.pos + 1;
        let value = if self.check(&Token::Semicolon) {
            None
        } else {
            Some(self.parse_expression()?)
        };
        self.expect_semicolon()?;
        Ok(Statement::Return { value, span })
    }

    /// Parses `auto name [= value];`, `Type name [= value];` where the tokens
    /// read as a declaration, and else an expression statement `expr;`.
    fn parse_declaration_or_expression_statement(&mut self) -> (r: Result<Statement, ()>)
        requires
            old(self).wf(),
        ensures
            final(self).wf(),
            final(self).follows(*old(self)),
            r is Ok ==> final(self).pos > old(self).pos,
            r matches Ok(st) ==> if kind_at(old(self).tokens@, old(self).pos as int, Token::KwAuto) {
                st matches Statement::VariableDeclaration { var_type, name, initializer, span: s }
                    && name@ == ident_at(old(self).tokens@, old(self).pos + 1) && s == span_at(old(self).tokens@, old(self).pos + 2)
                    && var_type == TypeRef::Simple { name: var_type->Simple_name, span: s } && var_type->Simple_name@ == "var"@
                    && initializer_written(old(self).tokens@, old(self).pos + 2, final(self).pos as int, initializer)
            } else {
                plain_statement(old(self).tokens@, old(self).pos as int, final(self).pos as int, st)
            },
            kind_at(old(self).tokens@, old(self).pos as int, Token::KwAuto) && is_ident_at(old(self).tokens@, old(self).pos + 1) && kind_at(old(self).tokens@, old(self).pos + 2, Token::Semicolon)
                ==> r is Ok && final(self).pos == old(self).pos + 3,
        decreases old(self).remaining(), 37int,
    {
        let ghost start = *self;
        if self.match_token(&Token::KwAuto) {
            let name = match self.match_identifier() {
                Some(n) => n,
                None => {
                    self.error_here("期望变量名");
                    return Err(());
                },
            };
            let span = self.current_span();
            let var_type = TypeRef::simple("var".to_owned(), span);
            let initializer = if self.match_token(&Token::Assign) {
                Some(self.parse_expression()?)
            } else {
                None
            };
            self.expect_semicolon()?;
            return Ok(Statement::VariableDeclaration { var_type, name, initializer, span });
        }
        if self.is_type_start() {
            let saved_pos = self.pos;
            match self.parse_type_ref() {
                Ok(var_type) => {
                    match self.match_identifier() {
                        Some(name) => {
                            let span = self.current_span();
                            let initializer = if self.match_token(&Token::Assign) {
                                match self.parse_expression() {
                                    Ok(expr) => Some(expr),
                                    Err(_) => {
                                        self.pos = saved_pos;
                                        return self.parse_expression_statement();
                                    },
                                }
                            } else {
                                None
                            };
                            self.expect_semicolon()?;
                            return Ok(
                                Statement::VariableDeclaration { var_type, name, initializer, span },
                            );
                        },
                        None => {},
                    }
                },
                Err(()) => {},
            }
            self.pos = saved_pos;
        }
        self.parse_expression_statement()
    }

    /// Parses `expr;`.
    fn parse_expression_statement(&mut self) -> (r: Result<Statement, ()>)
        requires
            old(self).wf(),
        ensures
            final(self).wf(),
            final(self).follows(*old(self)),
            r is Ok ==> final(self).pos > old(self).pos,
            r matches Ok(st) ==> st matches Statement::Expression(x, s) && s == x.spec_span()
                && expression_top(old(self).tokens@, old(self).pos as int, final(self).pos - 1, PREC_ASSIGNMENT, x)
                && kind_at(old(self).tokens@, final(self).pos - 1, Token::Semicolon),
            atom_at(old(self).tokens@, old(self).pos as int) && kind_at(old(self).tokens@, old(self).pos + 1, Token::Semicolon) ==> r is Ok && final(self).pos == old(self).pos + 2,
        decreases old(self).remaining(), 36int,
    {
        let expr = self.parse_expression()?;
        let span = expr.span();
        self.expect_semicolon()?;
        Ok(Statement::Expression(expr, span))
    }

    // ==================== declarations ====================

    /// Parses a whole source file: `namespace` declarations (the last one
    /// counts), `using` directives (`using A.B;` or `using Alias = A.B;`) and
    /// class, interface and enum declarations, in any order. After a
    /// declaration that fails to parse, it skips to the next `}` or `;` or to
    /// the next top-level keyword and goes on. The file is returned when no
    /// error has been reported, the diagnostics otherwise.
    #[verifier::spinoff_prover]
    pub fn parse_source_file(&mut self) -> (r: Result<SourceFile, Diagnostics>)
        requires
            old(self).wf(),
        ensures
            final(self).wf(),
            final(self).follows(*old(self)),
            final(self).position() == final(self).token_list().len(),
            file_outcome(final(self).reported(), r),
            simple_file(old(self).token_list(), old(self).position()) && no_errors(old(self).reported())
                ==> simple_file_parsed(old(self).token_list(), old(self).position(), r),
            kind_at(old(self).token_list(), old(self).position(), Token::KwClass) && modifier_field_class_body_at(
                old(self).token_list(),
                old(self).position() + 1,
            ) ==> r is Err,
    {
        let ghost start = *self;
        let mut namespace: Option<QualifiedName> = None;
        let mut usings: Vec<UsingDirective> = Vec::new();
        let mut members: Vec<TopLevelMember> = Vec::new();
        while !self.is_at_end()
            invariant
                self.wf(),
                self.follows(start),
                start == *old(self),
                namespace matches Some(q) ==> q.parts@.len() >= 1,
                forall|k: int| 0 <= k < usings@.len() ==> (#[trigger] usings@[k]).span == Span::dummy_spec(),
                forall|k: int| 0 <= k < usings@.len() ==> (#[trigger] usings@[k]).name.parts@.len() >= 1,
                kind_at(start.tokens@, start.pos as int, Token::KwClass) && modifier_field_class_body_at(
                    start.tokens@,
                    start.pos + 1,
                ) ==> self.pos == start.pos || self.reported().len() > start.reported().len(),
                simple_file(start.tokens@, start.pos as int) && no_errors(start.reported()) ==> {
                    &&& simple_file(start.tokens@, self.pos as int)
                    &&& self.reported() == start.reported()
                    &&& simple_file_usings(start.tokens@, start.pos as int) == using_names(usings@)
                        + simple_file_usings(start.tokens@, self.pos as int)
                    &&& forall|k: int| 0 <= k < usings@.len() ==> (#[trigger] usings@[k]).alias is None
                    &&& simple_file_classes(start.tokens@, start.pos as int) == members@.map_values(
                        |m: TopLevelMember| member_name(m),
                    ) + simple_file_classes(start.tokens@, self.pos as int)
                    &&& forall|k: int| 0 <= k < members@.len() ==> #[trigger] members@[k] is Class
                    &&& simple_file_namespace(start.tokens@, start.pos as int) == match simple_file_namespace(
                        start.tokens@,
                        self.pos as int,
                    ) {
                        Some(later) => Some(later),
                        None => namespace_parts(namespace),
                    }
                },
            decreases self.tokens@.len() - self.pos,
        {
            let ghost before = *self;
            let ghost members_before = members@;
            if self.match_token(&Token::KwNamespace) {
                match self.parse_qualified_name() {
                    Ok(ns) => {
                        namespace = Some(ns);
                    },
                    Err(()) => {},
                }
                let _ = self.expect_semicolon();
                continue;
            }
            let ghost u = self.pos as int;
            let ghost simple_here = plain_using_end(start.tokens@, u) is Some;
            if self.match_token(&Token::KwUsing) {
                let first = self.match_identifier();
                let is_alias = match &first {
                    Some(_) => self.match_token(&Token::Assign),
                    None => false,
                };
                if is_alias {
                    match self.parse_qualified_name() {
                        Ok(name) => {
                            usings.push(UsingDirective { name, alias: first, span: Span::dummy() });
                        },
                        Err(()) => {},
                    }
                } else {
                    match first {
                        Some(first_part) => {
                            let mut parts: Vec<String> = Vec::new();
                            parts.push(first_part);
                            let span_start = self.current_span();
                            let ghost s1 = *self;
                            proof {
                                if simple_here {
                                    assert(self.pos == u + 2);
                                    assert(string_views(parts@) =~= seq![ident_at(start.tokens@, u + 1)]);
                                    assert(names_after(Seq::empty(), separated_names(start.tokens@, u + 2, Token::Dot))
                                        =~= separated_names(start.tokens@, u + 2, Token::Dot));
                                }
                            }
                            loop
                                invariant_except_break
                                    simple_here ==> string_views(parts@)[0] == ident_at(start.tokens@, u + 1)
                                        && separated_names(start.tokens@, u + 2, Token::Dot) == names_after(
                                        string_views(parts@).drop_first(),
                                        separated_names(start.tokens@, self.pos as int, Token::Dot),
                                    ),
                                invariant
                                    self.wf(),
                                    self.follows(s1),
                                    s1.follows(start),
                                    start == *old(self),
                                    parts@.len() >= 1,
                                    self.reported() == s1.reported(),
                                    self.tokens@ == start.tokens@,
                                    simple_here == (plain_using_end(start.tokens@, u) is Some),
                                ensures
                                    self.reported() == s1.reported(),
                                    parts@.len() >= 1,
                                    simple_here ==> separated_names(start.tokens@, u + 2, Token::Dot) == Some(
                                        (string_views(parts@).drop_first(), self.pos as int),
                                    ) && string_views(parts@) =~= seq![ident_at(start.tokens@, u + 1)]
                                        + string_views(parts@).drop_first(),
                                decreases self.tokens@.len() - self.pos,
                            {
                                let ghost s2 = *self;
                                if !self.match_token(&Token::Dot) {
                                    proof {
                                        if simple_here {
                                            assert(string_views(parts@).drop_first() + Seq::<Seq<char>>::empty()
                                                =~= string_views(parts@).drop_first());
                                            assert(string_views(parts@) =~= seq![ident_at(start.tokens@, u + 1)]
                                                + string_views(parts@).drop_first());
                                        }
                                    }
                                    break;
                                }
                                match self.match_identifier() {
                                    Some(part) => {
                                        let ghost before_parts = string_views(parts@);
                                        parts.push(part);
                                        proof {
                                            if simple_here {
                                                assert(string_views(parts@) =~= before_parts.push(part@));
                                                assert(string_views(parts@).drop_first() =~= before_parts.drop_first().push(
                                                    part@,
                                                ));
                                                match separated_names(start.tokens@, s2.pos + 2, Token::Dot) {
                                                    Some((rest, e)) => {
                                                        assert(before_parts.drop_first() + (seq![part@] + rest)
                                                            =~= before_parts.drop_first().push(part@) + rest);
                                                    },
                                                    None => {},
                                                }
                                            }
                                        }
                                    },
                                    None => {
                                        proof {
                                            if simple_here {
                                                assert(separated_names(start.tokens@, s2.pos as int, Token::Dot) is None);
                                                assert(separated_names(start.tokens@, u + 2, Token::Dot) is None);
                                                assert(plain_using_end(start.tokens@, u) is None);
                                                assert(false);
                                            }
                                        }
                                        break;
                                    },
                                }
                            }
                            usings.push(
                                UsingDirective {
                                    name: QualifiedName { parts, span: span_start },
                                    alias: None,
                                    span: Span::dummy(),
                                },
                            );
                        },
                        None => {},
                    }
                }
                let _ = self.expect_semicolon();
                continue;
            }
            let ghost before = self.pos;
            match self.parse_top_level_member() {
                Ok(member) => {
                    members.push(member);
                },
                Err(()) => {
                    self.synchronize();
                },
            }
        }
        proof {
            if simple_file(start.tokens@, start.pos as int) && no_errors(start.reported()) {
                assert(self.reported() == start.reported());
                assert(no_errors(self.diagnostics.items@));
            }
            if kind_at(start.tokens@, start.pos as int, Token::KwClass) && modifier_field_class_body_at(
                start.tokens@,
                start.pos + 1,
            ) {
                let k = start.reported().len() as int;
                assert(self.diagnostics.items@[k].severity == Severity::Error);
            }
        }
        if self.diagnostics.has_errors() {
            let d = copy_diagnostics(&self.diagnostics);
            proof {
                assert(d.items@ == self.reported());
                let k = choose|k: int|
                    0 <= k < self.diagnostics.items@.len() && self.diagnostics.items@[k].severity
                        == Severity::Error;
                assert(d.items@[k].severity == Severity::Error);
                assert(file_outcome(self.reported(), Err(d)));
                assert(!(simple_file(start.tokens@, start.pos as int) && no_errors(start.reported())));
            }
            return Err(d);
        }
        Ok(SourceFile { namespace, usings, members, span: Span::dummy() })
    }

    /// After an error: skips the next token, then up to and past the next
    /// `}` or `;`, or up to the next top-level keyword.
    fn synchronize(&mut self)
        requires
            old(self).wf(),
        ensures
            final(self).wf(),
            final(self).follows(*old(self)),
            old(self).pos < old(self).tokens@.len() ==> final(self).pos > old(self).pos,
            final(self).reported() == old(self).reported(),
    {
        let ghost start = *self;
        if self.pos >= self.tokens.len() {
            return;
        }
        self.pos = self.pos + 1;
        while self.pos < self.tokens.len()
            invariant
                self.wf(),
                self.follows(start),
                self.pos > start.pos,
                self.reported() == start.reported(),
                start == *old(self),
            decreases self.tokens@.len() - self.pos,
        {
            match &self.tokens[self.pos].token {
                Token::RBrace | Token::Semicolon => {
                    self.pos = self.pos + 1;
                    return;
                },
                Token::KwClass | Token::KwInterface | Token::KwEnum | Token::KwNamespace
                | Token::KwUsing => {
                    return;
                },
                _ => {
                    self.pos = self.pos + 1;
                },
            }
        }
    }

    /// Parses `namespace A.B` where the next token is `namespace`.
    fn parse_namespace(&mut self) -> (r: Option<QualifiedName>)
        requires
            old(self).wf(),
        ensures
            final(self).wf(),
            final(self).follows(*old(self)),
            !old(self).at_kind(Token::KwNamespace) ==> r is None && final(self).pos == old(self).pos,
            r is Some <==> old(self).at_kind(Token::KwNamespace) && is_ident_at(old(self).tokens@, old(self).pos + 1)
                && separated_names(old(self).tokens@, old(self).pos + 2, Token::Dot) is Some,
            r matches Some(q) ==> string_views(q.parts@) == seq![ident_at(old(self).tokens@, old(self).pos + 1)]
                + separated_names(old(self).tokens@, old(self).pos + 2, Token::Dot).unwrap().0,
    {
        if self.match_token(&Token::KwNamespace) {
            match self.parse_qualified_name() {
                Ok(q) => Some(q),
                Err(()) => None,
            }
        } else {
            None
        }
    }

    /// Parses a run of `using A.B;` directives.
    fn parse_usings(&mut self) -> (r: Vec<UsingDirective>)
        requires
            old(self).wf(),
        ensures
            final(self).wf(),
            final(self).follows(*old(self)),
            forall|k: int| 0 <= k < r@.len() ==> (#[trigger] r@[k]).alias is None && r@[k].span == Span::dummy_spec(),
            !kind_at(old(self).tokens@, old(self).pos as int, Token::KwUsing) ==> r@.len() == 0 && final(self).pos == old(self).pos,
            kind_at(old(self).tokens@, old(self).pos as int, Token::KwUsing) ==> final(self).pos > old(self).pos,
    {
        let ghost start = *self;
        let mut usings: Vec<UsingDirective> = Vec::new();
        loop
            invariant
                !kind_at(start.tokens@, start.pos as int, Token::KwUsing) ==> usings@.len() == 0 && self.pos == start.pos,
                self.wf(),
                self.follows(start),
                forall|k: int| 0 <= k < usings@.len() ==> (#[trigger] usings@[k]).alias is None && usings@[k].span == Span::dummy_spec(),
            ensures
                kind_at(start.tokens@, start.pos as int, Token::KwUsing) ==> self.pos > start.pos,
            decreases self.tokens@.len() - self.pos,
        {
            if !self.match_token(&Token::KwUsing) {
                break;
            }
            match self.parse_qualified_name() {
                Ok(name) => {
                    usings.push(UsingDirective { name, alias: None, span: Span::dummy() });
                },
                Err(()) => {},
            }
            let _ = self.expect_semicolon();
        }
        usings
    }

    /// Parses a class, interface or enum declaration with its annotations and modifiers.
    fn parse_top_level_member(&mut self) -> (r: Result<TopLevelMember, ()>)
        requires
            old(self).wf(),
        ensures
            final(self).wf(),
            final(self).follows(*old(self)),
            r is Ok ==> final(self).pos > old(self).pos,
            simple_class_at(old(self).tokens@, old(self).pos as int) ==> (r matches Ok(TopLevelMember::Class(d)) && d.name@ == ident_at(
                old(self).tokens@,
                old(self).pos + 1,
            ) && final(self).pos == simple_class_next(old(self).tokens@, old(self).pos as int) && final(self).reported() == old(self).reported()),
            kind_at(old(self).tokens@, old(self).pos as int, Token::KwClass) && modifier_field_class_body_at(
                old(self).tokens@,
                old(self).pos + 1,
            ) ==> final(self).reported().len() > old(self).reported().len(),
    {
        let ghost start = *self;
        let annotations = self.parse_annotations();
        let modifiers = self.parse_modifiers();
        proof {
            if kind_at(start.tokens@, start.pos as int, Token::KwClass) {
                assert(modifier_run(start.tokens@, start.pos as int) =~= Seq::<Modifier>::empty());
                assert(self.reported() =~= start.reported());
            }
        }
        if self.match_token(&Token::KwClass) {
            let c = self.parse_class_declaration(annotations, modifiers)?;
            Ok(TopLevelMember::Class(c))
        } else if self.match_token(&Token::KwInterface) {
            let i = self.parse_interface_declaration(annotations, modifiers)?;
            Ok(TopLevelMember::Interface(i))
        } else if self.match_token(&Token::KwEnum) {
            let e = self.parse_enum_declaration(annotations, modifiers)?;
            Ok(TopLevelMember::Enum(e))
        } else {
            self.error_here("顶层只能声明 class、interface 或 enum");
            Err(())
        }
    }

    /// Parses a member of a class: a field or a method (`Type name ...`), or
    /// else a constructor (`Name(params) ...`).
    fn parse_class_member(&mut self) -> (r: Result<ClassMember, ()>)
        requires
            old(self).wf(),
        ensures
            final(self).wf(),
            final(self).follows(*old(self)),
            r is Ok ==> final(self).pos > old(self).pos,
            kind_at(old(self).tokens@, old(self).pos as int, Token::TypeInt) && is_ident_at(old(self).tokens@, old(self).pos + 1) && kind_at(old(self).tokens@, old(self).pos + 2, Token::Semicolon)
                ==> (r matches Ok(ClassMember::Field(_)) && final(self).pos == old(self).pos + 3 && final(self).reported() == old(self).reported()),
            modifier_field_at(old(self).tokens@, old(self).pos as int) ==> r is Ok && final(self).pos == old(self).pos + 4
                && final(self).reported().len() > old(self).reported().len(),
    {
        let ghost start = *self;
        let annotations = self.parse_annotations();
        let modifiers = self.parse_modifiers();
        proof {
            if modifier_field_at(start.tokens@, start.pos as int) {
                assert(modifier_run(start.tokens@, start.pos + 1) =~= Seq::<Modifier>::empty());
                assert(modifiers@.len() == 1);
            }
            if kind_at(start.tokens@, start.pos as int, Token::TypeInt) {
                assert(modifier_run(start.tokens@, start.pos as int) =~= Seq::<Modifier>::empty());
                assert(self.reported() =~= start.reported());
            }
        }
        let saved_pos = self.pos;
        match self.parse_type_ref() {
            Ok(member_type) => {
                match self.match_identifier() {
                    Some(name) => {
                        if self.check(&Token::LParen) {
                            let m = self.parse_method_declaration(
                                annotations,
                                modifiers,
                                member_type,
                                name,
                            )?;
                            return Ok(ClassMember::Method(m));
                        } else {
                            let f = self.parse_field_declaration(
                                annotations,
                                modifiers,
                                member_type,
                                name,
                            )?;
                            return Ok(ClassMember::Field(f));
                        }
                    },
                    None => {},
                }
            },
            Err(()) => {},
        }
        self.pos = saved_pos;
        match self.match_identifier() {
            Some(name) => {
                if self.check(&Token::LParen) {
                    let c = self.parse_constructor_declaration(annotations, modifiers, name)?;
                    return Ok(ClassMember::Constructor(c));
                }
            },
            None => {},
        }
        self.error_here("期望字段、方法或构造函数声明");
        Err(())
    }

    /// After a field's type and name: `[= initializer];`. Modifiers on a field are reported.
    fn parse_field_declaration(
        &mut self,
        annotations: Vec<Annotation>,
        modifiers: Vec<Modifier>,
        field_type: TypeRef,
        name: String,
    ) -> (r: Result<FieldDeclaration, ()>)
        requires
            old(self).wf(),
        ensures
            final(self).wf(),
            final(self).follows(*old(self)),
            r is Ok ==> final(self).pos > old(self).pos,
            r matches Ok(f) ==> {
                &&& f.annotations == annotations
                &&& f.modifiers == modifiers
                &&& f.field_type == field_type
                &&& f.name == name
                &&& f.span == span_at(old(self).tokens@, old(self).pos as int)
                &&& f.initializer is Some <==> kind_at(old(self).tokens@, old(self).pos as int, Token::Assign)
            },
            modifiers@.len() > 0 ==> final(self).reported().len() > old(self).reported().len()
                && final(self).reported()[old(self).reported().len() as int].message@ == "字段 `"@ + name@
                + "` 不允许修饰符（Gorge 中只有方法可带 static/native 等修饰符）"@,
            kind_at(old(self).tokens@, old(self).pos as int, Token::Semicolon) ==> r is Ok && final(self).pos == old(self).pos + 1,
            kind_at(old(self).tokens@, old(self).pos as int, Token::Semicolon) && modifiers@.len() == 0
                ==> final(self).reported() == old(self).reported(),
    {
        let span = self.current_span();
        if modifiers.len() > 0 {
            let m = String::from_str("字段 `");
            let m = m.concat(name.as_str());
            let m = m.concat("` 不允许修饰符（Gorge 中只有方法可带 static/native 等修饰符）");
            self.report(span, m);
        }
        let initializer = if self.match_token(&Token::Assign) {
            Some(self.parse_expression()?)
        } else {
            None
        };
        self.expect_semicolon()?;
        Ok(FieldDeclaration { annotations, modifiers, field_type, name, initializer, span })
    }

    /// After a method's return type and name, at `(`: the parameters and a
    /// body, or `;` where it has none.
    fn parse_method_declaration(
        &mut self,
        annotations: Vec<Annotation>,
        modifiers: Vec<Modifier>,
        return_type: TypeRef,
        name: String,
    ) -> (r: Result<MethodDeclaration, ()>)
        requires
            old(self).wf(),
            old(self).pos < old(self).tokens@.len(),
        ensures
            final(self).wf(),
            final(self).follows(*old(self)),
            r is Ok ==> final(self).pos > old(self).pos,
            r matches Ok(m) ==> {
                &&& m.annotations == annotations
                &&& m.modifiers == modifiers
                &&& m.return_type == return_type
                &&& m.name == name
                &&& m.span == span_at(old(self).tokens@, old(self).pos as int)
            },
            kind_at(old(self).tokens@, old(self).pos + 1, Token::RParen) && kind_at(old(self).tokens@, old(self).pos + 2, Token::Semicolon) ==> r is Ok
                && final(self).pos == old(self).pos + 3,
    {
        let span = self.current_span();
        self.pos = self.pos + 1;
        let parameters = self.parse_parameters()?;
        self.expect_token(&Token::RParen)?;
        let body = if self.check(&Token::LBrace) {
            Some(self.parse_block()?)
        } else {
            self.expect_semicolon()?;
            None
        };
        Ok(MethodDeclaration { annotations, modifiers, return_type, name, parameters, body, span })
    }

    /// After a constructor's name, at `(`: the parameters, an optional
    /// `: super(args)`, and a body or `;`.
    fn parse_constructor_declaration(
        &mut self,
        annotations: Vec<Annotation>,
        modifiers: Vec<Modifier>,
        _name: String,
    ) -> (r: Result<ConstructorDeclaration, ()>)
        requires
            old(self).wf(),
            old(self).pos < old(self).tokens@.len(),
        ensures
            final(self).wf(),
            final(self).follows(*old(self)),
            r is Ok ==> final(self).pos > old(self).pos,
            r matches Ok(c) ==> {
                &&& c.annotations == annotations
                &&& c.modifiers == modifiers
                &&& c.span == span_at(old(self).tokens@, old(self).pos as int)
            },
            kind_at(old(self).tokens@, old(self).pos + 1, Token::RParen) && kind_at(old(self).tokens@, old(self).pos + 2, Token::Semicolon) ==> r is Ok
                && final(self).pos == old(self).pos + 3,
    {
        let span = self.current_span();
        self.pos = self.pos + 1;
        let parameters = self.parse_parameters()?;
        self.expect_token(&Token::RParen)?;
        let base_arguments = if self.match_token(&Token::Colon) {
            self.expect_token(&Token::KwSuper)?;
            self.expect_token(&Token::LParen)?;
            let args = self.parse_argument_list()?;
            self.expect_token(&Token::RParen)?;
            args
        } else {
            Vec::new()
        };
        let body = if self.check(&Token::LBrace) {
            Some(self.parse_block()?)
        } else {
            self.expect_semicolon()?;
            None
        };
        Ok(ConstructorDeclaration { annotations, modifiers, parameters, base_arguments, body, span })
    }

    /// A comma-separated list of parameters `Type name`, empty where `)` comes first.
    fn parse_parameters(&mut self) -> (r: Result<Vec<Parameter>, ()>)
        requires
            old(self).wf(),
        ensures
            final(self).wf(),
            final(self).follows(*old(self)),
            r matches Ok(ps) ==> parameters_written(old(self).tokens@, old(self).pos as int, final(self).pos as int, ps@),
            kind_at(old(self).tokens@, old(self).pos as int, Token::RParen) ==> (r matches Ok(ps) && ps@.len() == 0 && final(self).pos == old(self).pos),
            one_token_type_at(old(self).tokens@, old(self).pos as int) && is_ident_at(old(self).tokens@, old(self).pos + 1)
                && !kind_at(old(self).tokens@, old(self).pos + 2, Token::Comma)
                ==> (r matches Ok(ps) && ps@.len() == 1 && final(self).pos == old(self).pos + 2),
    {
        let ghost start = *self;
        let ghost toks = self.tokens@;
        let mut params: Vec<Parameter> = Vec::new();
        if self.check(&Token::RParen) {
            return Ok(params);
        }
        let ghost mut last_end: int = start.pos as int;
        loop
            invariant_except_break
                params@.len() == 0 ==> self.pos == start.pos,
                one_token_type_at(toks, start.pos as int) && is_ident_at(toks, start.pos + 1)
                    && !kind_at(toks, start.pos + 2, Token::Comma) ==> params@.len() == 0,
                params@.len() > 0 ==> parameters_written(toks, start.pos as int, last_end, params@)
                    && self.pos == last_end + 1 && separator_at(toks, last_end, false),
            invariant
                !kind_at(start.tokens@, start.pos as int, Token::RParen),
                self.wf(),
                self.follows(start),
                start == *old(self),
                toks == self.tokens@,
            ensures
                parameters_written(toks, start.pos as int, self.pos as int, params@),
                one_token_type_at(toks, start.pos as int) && is_ident_at(toks, start.pos + 1)
                    && !kind_at(toks, start.pos + 2, Token::Comma) ==> params@.len() == 1
                    && self.pos == start.pos + 2,
            decreases self.tokens@.len() - self.pos,
        {
            let ghost before = params@;
            let ghost a = self.pos as int;
            let param_type = self.parse_type_ref()?;
            let name = match self.match_identifier() {
                Some(n) => n,
                None => {
                    self.error_here("期望参数名称");
                    return Err(());
                },
            };
            let span = self.current_span();
            params.push(Parameter { name, param_type, span });
            proof {
                let ps = params@;
                assert(ps.drop_last() =~= before);
                assert(parameter_written(toks, a, self.pos as int, ps.last()));
                if before.len() > 0 {
                    assert(parameters_written(toks, start.pos as int, last_end, ps.drop_last()));
                } else {
                    assert(ps[0] == ps.last());
                }
                assert(parameters_written(toks, start.pos as int, self.pos as int, ps));
                last_end = self.pos as int;
            }
            if !self.match_token(&Token::Comma) {
                break;
            }
        }
        Ok(params)
    }

    /// After `class`: the name, generic parameters, `: SuperClass`,
    /// `:: Interface, ...`, an `injector { fields }` and the members in braces.
    #[verifier::rlimit(30)]
    fn parse_class_declaration(&mut self, annotations: Vec<Annotation>, modifiers: Vec<Modifier>) -> (r: Result<ClassDeclaration, ()>)
        requires
            old(self).wf(),
        ensures
            final(self).wf(),
            final(self).follows(*old(self)),
            r is Ok ==> final(self).pos > old(self).pos,
            r matches Ok(c) ==> {
                &&& c.annotations == annotations
                &&& c.modifiers == modifiers
                &&& is_ident_at(old(self).tokens@, old(self).pos as int)
                &&& c.name@ == ident_at(old(self).tokens@, old(self).pos as int)
                &&& c.span == span_at(old(self).tokens@, old(self).pos as int)
                &&& kind_at(old(self).tokens@, final(self).pos - 1, Token::RBrace)
                &&& c.injector matches Some(inj) ==> inj.span == c.span
            },
            is_ident_at(old(self).tokens@, old(self).pos as int) && kind_at(old(self).tokens@, old(self).pos + 1, Token::LBrace) && kind_at(old(self).tokens@, int_fields_end(old(self).tokens@, old(self).pos + 2), Token::RBrace)
                ==> r is Ok && final(self).pos == int_fields_end(old(self).tokens@, old(self).pos + 2) + 1 && final(self).reported() == old(self).reported(),
            modifier_field_class_body_at(old(self).tokens@, old(self).pos as int) ==> final(self).reported().len()
                > old(self).reported().len(),
    {
        let ghost start = *self;
        let ghost simple = is_ident_at(start.tokens@, start.pos as int) && kind_at(start.tokens@, start.pos + 1, Token::LBrace) && kind_at(start.tokens@, int_fields_end(start.tokens@, start.pos + 2), Token::RBrace);
        let ghost body_end = int_fields_end(start.tokens@, start.pos + 2);
        let span = self.current_span();
        let name = match self.match_identifier() {
            Some(n) => n,
            None => {
                self.error_here("期望类名");
                return Err(());
            },
        };
        let generic_params = self.parse_generic_params()?;
        let super_class = if self.match_token(&Token::Colon) {
            Some(self.parse_type_ref()?)
        } else {
            None
        };
        let mut super_interfaces: Vec<TypeRef> = Vec::new();
        if self.match_token(&Token::DoubleColon) {
            loop
                invariant
                    !(is_ident_at(start.tokens@, start.pos as int) && kind_at(start.tokens@, start.pos + 1, Token::LBrace)),
                    self.wf(),
                    self.follows(start),
                    self.pos > start.pos,
                    start == *old(self),
                decreases self.tokens@.len() - self.pos,
            {
                super_interfaces.push(self.parse_type_ref()?);
                if !self.match_token(&Token::Comma) {
                    break;
                }
            }
        }
        let injector = if self.match_token(&Token::KwInjector) {
            self.expect_token(&Token::LBrace)?;
            let fields = self.parse_injector_fields()?;
            self.expect_token(&Token::RBrace)?;
            Some(InjectorDeclaration { fields, span })
        } else {
            None
        };
        self.expect_token(&Token::LBrace)?;
        proof {
            lemma_int_fields_end_after(start.tokens@, start.pos + 2);
        }
        let mut members: Vec<ClassMember> = Vec::new();
        while !self.check(&Token::RBrace) && !self.is_at_end()
            invariant
                simple == (is_ident_at(start.tokens@, start.pos as int) && kind_at(start.tokens@, start.pos + 1, Token::LBrace) && kind_at(start.tokens@, int_fields_end(start.tokens@, start.pos + 2), Token::RBrace)),
                body_end == int_fields_end(start.tokens@, start.pos + 2),
                simple ==> int_fields_end(start.tokens@, self.pos as int) == body_end && self.pos <= body_end
                    && self.reported() == start.reported(),
                modifier_field_class_body_at(start.tokens@, start.pos as int) ==> self.pos == start.pos + 2
                    || self.reported().len() > start.reported().len(),
                self.wf(),
                self.follows(start),
                self.pos > start.pos,
                start == *old(self),
            decreases self.tokens@.len() - self.pos,
        {
            let ghost q = self.pos as int;
            proof {
                if simple {
                    lemma_int_fields_end_after(start.tokens@, q + 3);
                }
            }
            members.push(self.parse_class_member()?);
        }
        self.expect_token(&Token::RBrace)?;
        Ok(
            ClassDeclaration {
                annotations,
                modifiers,
                name,
                generic_params,
                super_class,
                super_interfaces,
                injector,
                members,
                span,
            },
        )
    }

    /// Generic parameter names `<T, U>`, none where `<` does not follow.
    fn parse_generic_params(&mut self) -> (r: Result<Vec<String>, ()>)
        requires
            old(self).wf(),
        ensures
            final(self).wf(),
            final(self).follows(*old(self)),
            final(self).suppress_colon_precheck == old(self).suppress_colon_precheck,
            ({
                let t = old(self).tokens@;
                let p = old(self).pos as int;
                let tail = separated_names(t, p + 2, Token::Comma);
                if !kind_at(t, p, Token::Less) {
                    &&& r matches Ok(v) && v@.len() == 0
                    &&& final(self).pos == p
                    &&& final(self).reported() == old(self).reported()
                } else if is_ident_at(t, p + 1) && tail is Some && kind_at(t, tail.unwrap().1, Token::Greater) {
                    &&& r matches Ok(v) && string_views(v@) == seq![ident_at(t, p + 1)] + tail.unwrap().0
                    &&& final(self).pos == tail.unwrap().1 + 1
                    &&& final(self).reported() == old(self).reported()
                } else {
                    &&& r is Err
                    &&& final(self).reported().len() == old(self).reported().len() + 1
                }
            }),
    {
        let ghost start = *self;
        if !self.match_token(&Token::Less) {
            return Ok(Vec::new());
        }
        let mut params: Vec<String> = Vec::new();
        let name = match self.match_identifier() {
            Some(n) => n,
            None => {
                self.error_here("泛型参数期望标识符");
                return Err(());
            },
        };
        params.push(name);
        proof {
            assert(string_views(params@) =~= seq![ident_at(start.tokens@, start.pos + 1)]);
            assert(names_after(Seq::empty(), separated_names(self.tokens@, self.pos as int, Token::Comma))
                =~= separated_names(start.tokens@, start.pos + 2, Token::Comma));
        }
        loop
            invariant
                self.wf(),
                self.follows(start),
                start == *old(self),
                self.suppress_colon_precheck == start.suppress_colon_precheck,
                self.reported() == start.reported(),
                params@.len() >= 1,
                kind_at(start.tokens@, start.pos as int, Token::Less),
                is_ident_at(start.tokens@, start.pos + 1),
                string_views(params@)[0] == ident_at(start.tokens@, start.pos + 1),
                separated_names(start.tokens@, start.pos + 2, Token::Comma) == names_after(
                    string_views(params@).drop_first(),
                    separated_names(self.tokens@, self.pos as int, Token::Comma),
                ),
            ensures
                separated_names(start.tokens@, start.pos + 2, Token::Comma) == Some(
                    (string_views(params@).drop_first(), self.pos as int),
                ),
                string_views(params@) =~= seq![ident_at(start.tokens@, start.pos + 1)]
                    + string_views(params@).drop_first(),
            decreases self.tokens@.len() - self.pos,
        {
            let ghost before_comma = self.pos as int;
            if !self.match_token(&Token::Comma) {
                proof {
                    assert(string_views(params@).drop_first() + Seq::<Seq<char>>::empty()
                        =~= string_views(params@).drop_first());
                }
                break;
            }
            let name = match self.match_identifier() {
                Some(n) => n,
                None => {
                    proof {
                        assert(separated_names(self.tokens@, before_comma, Token::Comma) is None);
                        assert(separated_names(start.tokens@, start.pos + 2, Token::Comma) is None);
                        assert(kind_at(start.tokens@, start.pos as int, Token::Less));
                    }
                    self.error_here("泛型参数期望标识符");
                    return Err(());
                },
            };
            let ghost before = params@;
            params.push(name);
            proof {
                assert(string_views(params@).drop_first() =~= string_views(before).drop_first().push(
                    name@,
                ));
                assert(string_views(params@)[0] == string_views(before)[0]);
                let rest = separated_names(self.tokens@, self.pos as int, Token::Comma);
                match rest {
                    Some((r2, e)) => {
                        assert(string_views(before).drop_first() + (seq![name@] + r2)
                            =~= string_views(params@).drop_first() + r2);
                    },
                    None => {},
                }
            }
        }
        self.expect_token(&Token::Greater)?;
        Ok(params)
    }

    /// After `interface`: the name, `extends A, B` and the method signatures in braces.
    fn parse_interface_declaration(&mut self, annotations: Vec<Annotation>, modifiers: Vec<Modifier>) -> (r: Result<InterfaceDeclaration, ()>)
        requires
            old(self).wf(),
        ensures
            final(self).wf(),
            final(self).follows(*old(self)),
            r is Ok ==> final(self).pos > old(self).pos,
            r matches Ok(d) ==> {
                &&& d.annotations == annotations
                &&& d.modifiers == modifiers
                &&& is_ident_at(old(self).tokens@, old(self).pos as int)
                &&& d.name@ == ident_at(old(self).tokens@, old(self).pos as int)
                &&& d.span == span_at(old(self).tokens@, old(self).pos as int)
                &&& forall|k: int| 0 <= k < d.methods@.len() ==> (#[trigger] d.methods@[k]).span == d.span
            },
            is_ident_at(old(self).tokens@, old(self).pos as int) && kind_at(old(self).tokens@, old(self).pos + 1, Token::LBrace) && kind_at(old(self).tokens@, old(self).pos + 2, Token::RBrace)
                ==> r is Ok && final(self).pos == old(self).pos + 3,
    {
        let ghost start = *self;
        let span = self.current_span();
        let name = match self.match_identifier() {
            Some(n) => n,
            None => {
                self.error_here("期望接口名");
                return Err(());
            },
        };
        let mut super_interfaces: Vec<TypeRef> = Vec::new();
        if self.match_token(&Token::KwExtends) {
            loop
                invariant
                    !(is_ident_at(start.tokens@, start.pos as int) && kind_at(start.tokens@, start.pos + 1, Token::LBrace)),
                    self.wf(),
                    self.follows(start),
                    self.pos > start.pos,
                    start == *old(self),
                decreases self.tokens@.len() - self.pos,
            {
                super_interfaces.push(self.parse_type_ref()?);
                if !self.match_token(&Token::Comma) {
                    break;
                }
            }
        }
        self.expect_token(&Token::LBrace)?;
        let mut methods: Vec<MethodSignature> = Vec::new();
        while !self.check(&Token::RBrace) && !self.is_at_end()
            invariant
                is_ident_at(start.tokens@, start.pos as int) && kind_at(start.tokens@, start.pos + 1, Token::LBrace) && kind_at(start.tokens@, start.pos + 2, Token::RBrace) ==> self.pos == start.pos + 2,
                self.wf(),
                self.follows(start),
                self.pos > start.pos,
                start == *old(self),
                forall|k: int| 0 <= k < methods@.len() ==> (#[trigger] methods@[k]).span == span,
            decreases self.tokens@.len() - self.pos,
        {
            let ghost before = self.pos;
            let method_annotations = self.parse_annotations();
            let return_type = self.parse_type_ref()?;
            let method_name = match self.match_identifier() {
                Some(n) => n,
                None => {
                    self.error_here("期望方法名");
                    return Err(());
                },
            };
            self.expect_token(&Token::LParen)?;
            let parameters = self.parse_parameters()?;
            self.expect_token(&Token::RParen)?;
            self.expect_semicolon()?;
            methods.push(
                MethodSignature {
                    annotations: method_annotations,
                    return_type,
                    name: method_name,
                    parameters,
                    span,
                },
            );
        }
        self.expect_token(&Token::RBrace)?;
        Ok(InterfaceDeclaration { annotations, modifiers, name, super_interfaces, methods, span })
    }

    /// After `enum`: the name and the values `Name [= int], ...` in braces; a
    /// value given by anything but an integer literal counts as none.
    fn parse_enum_declaration(&mut self, annotations: Vec<Annotation>, modifiers: Vec<Modifier>) -> (r: Result<EnumDeclaration, ()>)
        requires
            old(self).wf(),
        ensures
            final(self).wf(),
            final(self).follows(*old(self)),
            r is Ok ==> final(self).pos > old(self).pos,
            r matches Ok(d) ==> {
                &&& d.annotations == annotations
                &&& d.modifiers == modifiers
                &&& is_ident_at(old(self).tokens@, old(self).pos as int)
                &&& d.name@ == ident_at(old(self).tokens@, old(self).pos as int)
                &&& d.span == span_at(old(self).tokens@, old(self).pos as int)
                &&& forall|k: int| 0 <= k < d.values@.len() ==> (#[trigger] d.values@[k]).span == d.span
            },
            is_ident_at(old(self).tokens@, old(self).pos as int) && kind_at(old(self).tokens@, old(self).pos + 1, Token::LBrace) && kind_at(old(self).tokens@, old(self).pos + 2, Token::RBrace)
                ==> r is Ok && final(self).pos == old(self).pos + 3,
    {
        let ghost start = *self;
        let span = self.current_span();
        let name = match self.match_identifier() {
            Some(n) => n,
            None => {
                self.error_here("期望枚举名");
                return Err(());
            },
        };
        self.expect_token(&Token::LBrace)?;
        let mut values: Vec<EnumValue> = Vec::new();
        while !self.check(&Token::RBrace) && !self.is_at_end()
            invariant
                is_ident_at(start.tokens@, start.pos as int) && kind_at(start.tokens@, start.pos + 1, Token::LBrace) && kind_at(start.tokens@, start.pos + 2, Token::RBrace) ==> self.pos == start.pos + 2,
                self.wf(),
                self.follows(start),
                self.pos > start.pos,
                start == *old(self),
                forall|k: int| 0 <= k < values@.len() ==> (#[trigger] values@[k]).span == span,
            decreases self.tokens@.len() - self.pos,
        {
            let val_annotations = self.parse_annotations();
            let val_name = match self.match_identifier() {
                Some(n) => n,
                None => {
                    self.error_here("期望枚举值名称");
                    return Err(());
                },
            };
            let val = if self.match_token(&Token::Assign) {
                match self.parse_expression()? {
                    Expression::Literal(Literal::Int(v), _) => Some(v),
                    _ => None,
                }
            } else {
                None
            };
            values.push(EnumValue { annotations: val_annotations, name: val_name, value: val, span });
            if !self.match_token(&Token::Comma) {
                break;
            }
        }
        self.expect_token(&Token::RBrace)?;
        Ok(EnumDeclaration { annotations, modifiers, name, values, span })
    }

    /// The name of an annotation: an identifier, or one of the keywords
    /// `inject`, `injector`, `delegate`, named `Inject`, `Injector`, `Delegate`.
    fn match_identifier_or_keyword(&mut self) -> (r: Option<String>)
        requires
            old(self).wf(),
        ensures
            final(self).wf(),
            final(self).follows(*old(self)),
            final(self).reported() == old(self).reported(),
            r is Some ==> final(self).pos == old(self).pos + 1,
            r is None ==> final(self).pos == old(self).pos,
            match r {
                Some(n) => annotation_name_at(old(self).tokens@, old(self).pos as int) == Some(n@),
                None => annotation_name_at(old(self).tokens@, old(self).pos as int) is None,
            },
    {
        if self.pos >= self.tokens.len() {
            return None;
        }
        let r = match &self.tokens[self.pos].token {
            Token::Identifier(name) => Some(name.clone()),
            Token::KwInject => Some("Inject".to_owned()),
            Token::KwInjector => Some("Injector".to_owned()),
            Token::KwDelegate => Some("Delegate".to_owned()),
            _ => None,
        };
        if r.is_some() {
            self.pos = self.pos + 1;
        }
        r
    }

    /// Parses annotations `@Name<Type>(key = value, ...)`, each with the
    /// metadata blocks `[ ... ]` written before it; metadata that no
    /// annotation follows is dropped.
    fn parse_annotations(&mut self) -> (annotations: Vec<Annotation>)
        requires
            old(self).wf(),
        ensures
            final(self).wf(),
            final(self).follows(*old(self)),
            !kind_at(old(self).tokens@, old(self).pos as int, Token::LBracket) && !kind_at(old(self).tokens@, old(self).pos as int, Token::At) ==> annotations@.len() == 0
                && final(self).pos == old(self).pos && final(self).reported() == old(self).reported(),
            kind_at(old(self).tokens@, old(self).pos as int, Token::LBracket) || kind_at(old(self).tokens@, old(self).pos as int, Token::At) ==> final(self).pos > old(self).pos,
    {
        let ghost start = *self;
        let mut annotations: Vec<Annotation> = Vec::new();
        let mut pending: Vec<MetadataEntry> = Vec::new();
        loop
            invariant
                !kind_at(start.tokens@, start.pos as int, Token::LBracket) && !kind_at(start.tokens@, start.pos as int, Token::At) ==> self.pos == start.pos && annotations@.len() == 0 && self.reported() == start.reported(),
                self.wf(),
                self.follows(start),
            ensures
                kind_at(start.tokens@, start.pos as int, Token::LBracket) || kind_at(start.tokens@, start.pos as int, Token::At) ==> self.pos > start.pos,
            decreases self.tokens@.len() - self.pos,
        {
            if self.check(&Token::LBracket) {
                let mut m = self.parse_metadata_block();
                if m.len() > 0 {
                    pending.append(&mut m);
                    continue;
                }
            }
            let ghost before = self.pos;
            if self.match_token(&Token::At) {
                let span = self.current_span();
                let name = match self.match_identifier_or_keyword() {
                    Some(n) => n,
                    None => {
                        self.error_here("期望注解名");
                        break;
                    },
                };
                let mut arguments: Vec<(String, Expression)> = Vec::new();
                let generic_type = if self.match_token(&Token::Less) {
                    let gt = match self.parse_type_ref() {
                        Ok(t) => Some(t),
                        Err(()) => None,
                    };
                    let _ = self.expect_token(&Token::Greater);
                    gt
                } else {
                    None
                };
                if self.match_token(&Token::LParen) {
                    if !self.check(&Token::RParen) {
                        let ghost s2 = *self;
                        loop
                            invariant
                                !(!kind_at(start.tokens@, start.pos as int, Token::LBracket) && !kind_at(start.tokens@, start.pos as int, Token::At)),
                                self.wf(),
                                self.follows(s2),
                                s2.follows(start),
                                s2.pos > before,
                            decreases self.tokens@.len() - self.pos,
                        {
                            let param_name = match self.match_identifier() {
                                Some(n) => n,
                                None => String::new(),
                            };
                            if self.match_token(&Token::Assign) {
                                match self.parse_expression() {
                                    Ok(v) => {
                                        arguments.push((param_name, v));
                                    },
                                    Err(()) => {},
                                }
                            }
                            if !self.match_token(&Token::Comma) {
                                break;
                            }
                        }
                    }
                    let _ = self.expect_token(&Token::RParen);
                }
                let metadatas = pending;
                pending = Vec::new();
                annotations.push(Annotation { name, generic_type, arguments, metadatas, span });
            } else {
                break;
            }
        }
        annotations
    }

    /// Parses a metadata block `[ Type name = value, ... ]` where the next
    /// token is `[`; an entry whose type does not parse is skipped up to the
    /// next `,` or `]`, and an entry without a name ends the block.
    fn parse_metadata_block(&mut self) -> (entries: Vec<MetadataEntry>)
        requires
            old(self).wf(),
        ensures
            final(self).wf(),
            final(self).follows(*old(self)),
            old(self).at_kind(Token::LBracket) ==> final(self).pos > old(self).pos,
            !old(self).at_kind(Token::LBracket) ==> entries@.len() == 0 && final(self).pos == old(self).pos
                && final(self).reported() == old(self).reported(),
    {
        let ghost start = *self;
        let mut entries: Vec<MetadataEntry> = Vec::new();
        if !self.match_token(&Token::LBracket) {
            return entries;
        }
        while !self.is_at_end() && !self.check(&Token::RBracket)
            invariant
                self.wf(),
                self.follows(start),
                self.pos > start.pos,
            decreases self.tokens@.len() - self.pos,
        {
            let saved = self.pos;
            let type_text = match self.parse_type_ref() {
                Ok(type_ref) => type_ref_text(&type_ref),
                Err(()) => {
                    self.pos = saved;
                    self.skip_until_rbracket_or_comma();
                    continue;
                },
            };
            if type_text.as_str().is_empty() {
                break;
            }
            let name = match self.match_identifier() {
                Some(n) => n,
                None => {
                    break;
                },
            };
            let value = if self.match_token(&Token::Assign) {
                match self.parse_expression() {
                    Ok(e) => Some(e),
                    Err(()) => None,
                }
            } else {
                None
            };
            entries.push(MetadataEntry { type_text, name, value });
            self.match_token(&Token::Comma);
        }
        self.match_token(&Token::RBracket);
        entries
    }

    /// Skips a metadata block.
    fn skip_metadata_block(&mut self)
        requires
            old(self).wf(),
        ensures
            final(self).wf(),
            final(self).follows(*old(self)),
            old(self).at_kind(Token::LBracket) ==> final(self).pos > old(self).pos,
            !old(self).at_kind(Token::LBracket) ==> final(self).pos == old(self).pos
                && final(self).reported() == old(self).reported(),
    {
        let _ = self.parse_metadata_block();
    }

    /// Skips tokens up to the next `,` (which it consumes) or `]`.
    fn skip_until_rbracket_or_comma(&mut self)
        requires
            old(self).wf(),
            !old(self).at_kind(Token::RBracket),
            old(self).pos < old(self).tokens@.len(),
        ensures
            final(self).wf(),
            final(self).follows(*old(self)),
            final(self).reported() == old(self).reported(),
            final(self).pos > old(self).pos,
    {
        let ghost start = *self;
        while !self.is_at_end() && !self.check(&Token::RBracket) && !self.check(&Token::Comma)
            invariant
                self.wf(),
                self.follows(start),
                self.reported() == start.reported(),
                self.pos == start.pos || self.pos > start.pos,
                self.pos == start.pos ==> !self.at_kind(Token::RBracket),
            decreases self.tokens@.len() - self.pos,
        {
            self.advance();
        }
        self.match_token(&Token::Comma);
    }

    /// Parses modifiers `native`, `static`, `injector`; a repeated one is reported.
    fn parse_modifiers(&mut self) -> (modifiers: Vec<Modifier>)
        requires
            old(self).wf(),
        ensures
            final(self).wf(),
            final(self).follows(*old(self)),
            final(self).suppress_colon_precheck == old(self).suppress_colon_precheck,
            modifiers@ == modifier_run(old(self).tokens@, old(self).pos as int),
            final(self).pos == old(self).pos + modifiers@.len(),
            final(self).reported().len() == old(self).reported().len() + repeated_modifiers(modifiers@),
    {
        let ghost start = *self;
        let mut modifiers: Vec<Modifier> = Vec::new();
        while self.pos < self.tokens.len()
            invariant_except_break
                self.wf(),
                self.follows(start),
                self.suppress_colon_precheck == start.suppress_colon_precheck,
                modifier_run(start.tokens@, start.pos as int) == modifiers@ + modifier_run(
                    self.tokens@,
                    self.pos as int,
                ),
                self.pos == start.pos + modifiers@.len(),
                self.reported().len() == start.reported().len() + repeated_modifiers(modifiers@),
            ensures
                self.wf(),
                self.follows(start),
                self.suppress_colon_precheck == start.suppress_colon_precheck,
                modifier_run(start.tokens@, start.pos as int) == modifiers@,
                self.pos == start.pos + modifiers@.len(),
                self.reported().len() == start.reported().len() + repeated_modifiers(modifiers@),
            decreases self.tokens@.len() - self.pos,
        {
            let m = match &self.tokens[self.pos].token {
                Token::KwNative => Modifier::Native,
                Token::KwStatic => Modifier::Static,
                Token::KwInjector => Modifier::Injector,
                _ => {
                    proof {
                        assert(modifier_run(self.tokens@, self.pos as int) =~= Seq::<Modifier>::empty());
                        assert(modifiers@ + Seq::<Modifier>::empty() =~= modifiers@);
                    }
                    break;
                },
            };
            proof {
                assert(modifier_of(self.tokens@[self.pos as int].token) == Some(m));
                assert(modifiers@ + modifier_run(self.tokens@, self.pos as int) =~= modifiers@.push(m)
                    + modifier_run(self.tokens@, self.pos + 1));
            }
            self.pos = self.pos + 1;
            let mut seen = false;
            let mut k: usize = 0;
            while k < modifiers.len()
                invariant
                    k <= modifiers@.len(),
                    seen == modifiers@.take(k as int).contains(m),
                decreases modifiers.len() - k,
            {
                let ghost prefix = modifiers@.take(k as int);
                proof {
                    assert(modifiers@.take(k + 1) =~= prefix.push(modifiers@[k as int]));
                }
                if modifiers[k] == m {
                    seen = true;
                }
                proof {
                    let next = modifiers@.take(k + 1);
                    if modifiers@[k as int] == m {
                        assert(next[k as int] == m);
                    } else if prefix.contains(m) {
                        let j = choose|j: int| 0 <= j < prefix.len() && prefix[j] == m;
                        assert(next[j] == m);
                    } else {
                        assert forall|j: int| 0 <= j < next.len() implies next[j] != m by {
                            if j < k {
                                assert(next[j] == prefix[j]);
                            }
                        }
                    }
                }
                k = k + 1;
            }
            proof {
                assert(modifiers@.take(modifiers@.len() as int) =~= modifiers@);
            }
            if seen {
                let msg = String::from_str("重复的修饰符 `").concat(modifier_debug_name(m)).concat(
                    "`",
                );
                let span = self.current_span();
                self.report(span, msg);
            }
            let ghost before = modifiers@;
            modifiers.push(m);
            proof {
                assert(modifiers@.drop_last() =~= before);
            }
        }
        proof {
            if self.pos >= self.tokens@.len() {
                assert(modifier_run(self.tokens@, self.pos as int) =~= Seq::<Modifier>::empty());
                assert(modifiers@ + Seq::<Modifier>::empty() =~= modifiers@);
            }
        }
        modifiers
    }

    /// Parses injector fields `Type name;` up to `}`.
    fn parse_injector_fields(&mut self) -> (r: Result<Vec<InjectorField>, ()>)
        requires
            old(self).wf(),
        ensures
            final(self).wf(),
            final(self).follows(*old(self)),
            r matches Ok(fs) ==> injector_fields_written(old(self).tokens@, old(self).pos as int, final(self).pos as int, fs@)
                && (final(self).pos >= final(self).tokens@.len() || kind_at(final(self).tokens@, final(self).pos as int, Token::RBrace)),
            kind_at(old(self).tokens@, old(self).pos as int, Token::RBrace) ==> (r matches Ok(f) && f@.len() == 0 && final(self).pos == old(self).pos),
    {
        let ghost start = *self;
        let ghost toks = self.tokens@;
        let mut fields: Vec<InjectorField> = Vec::new();
        while !self.check(&Token::RBrace) && !self.is_at_end()
            invariant
                kind_at(start.tokens@, start.pos as int, Token::RBrace) ==> self.pos == start.pos && fields@.len() == 0,
                self.wf(),
                self.follows(start),
                start == *old(self),
                toks == self.tokens@,
                injector_fields_written(toks, start.pos as int, self.pos as int, fields@),
            decreases self.tokens@.len() - self.pos,
        {
            let ghost before = fields@;
            let ghost a = self.pos as int;
            let field_type = self.parse_type_ref()?;
            let name = match self.match_identifier() {
                Some(n) => n,
                None => {
                    self.error_here("期望注入器字段名");
                    return Err(());
                },
            };
            let span = self.current_span();
            self.expect_semicolon()?;
            fields.push(InjectorField { name, field_type, span });
            proof {
                let fs = fields@;
                assert(fs.drop_last() =~= before);
                assert(injector_field_written(toks, a, self.pos as int, fs.last()));
                assert(injector_fields_written(toks, start.pos as int, self.pos as int, fs));
            }
        }
        Ok(fields)
    }

    /// Moves past a `;`; reports an error where there is none.
    fn expect_semicolon(&mut self) -> (r: Result<(), ()>)
        requires
            old(self).wf(),
        ensures
            r is Ok == old(self).at_kind(Token::Semicolon),
            final(self).follows(*old(self)),
            final(self).suppress_colon_precheck == old(self).suppress_colon_precheck,
            r is Ok ==> final(self).pos == old(self).pos + 1 && final(self).reported()
                == old(self).reported(),
            r is Err ==> final(self).pos == old(self).pos && final(self).reported().len()
                == old(self).reported().len() + 1,
    {
        if self.match_token(&Token::Semicolon) {
            Ok(())
        } else {
            self.error_here("期望分号 `;`");
            Err(())
        }
    }
}

} // verus!
