//! The abstract syntax tree of Gorge source files.

use vstd::prelude::*;
use crate::span::Span;

verus! {

/// A source file: an optional namespace, `using` directives and top-level members.
#[derive(Debug)]
pub struct SourceFile {
    pub namespace: Option<QualifiedName>,
    pub usings: Vec<UsingDirective>,
    pub members: Vec<TopLevelMember>,
    pub span: Span,
}

/// A dotted name such as `System.Collections.Generic`.
#[derive(Debug, Clone)]
pub struct QualifiedName {
    pub parts: Vec<String>,
    pub span: Span,
}

impl QualifiedName {
    /// The name made of the single part `name`.
    pub fn simple(name: String, span: Span) -> (q: QualifiedName)
        ensures
            q.parts@.len() == 1,
            q.parts@[0]@ == name@,
            q.span == span,
    {
        let mut parts: Vec<String> = Vec::new();
        parts.push(name);
        QualifiedName { parts, span }
    }
}

/// `using Some.Namespace;`, or `using Alias = Some.Namespace;`
#[derive(Debug, Clone)]
pub struct UsingDirective {
    pub name: QualifiedName,
    pub alias: Option<String>,
    pub span: Span,
}

/// What a source file declares at its top level.
#[derive(Debug)]
pub enum TopLevelMember {
    Class(ClassDeclaration),
    Interface(InterfaceDeclaration),
    Enum(EnumDeclaration),
}

/// A class: single inheritance, any number of interfaces, members and an optional injector.
#[derive(Debug)]
pub struct ClassDeclaration {
    pub annotations: Vec<Annotation>,
    pub modifiers: Vec<Modifier>,
    pub name: String,
    /// Names of the generic parameters, `class Foo<T, U>`.
    pub generic_params: Vec<String>,
    pub super_class: Option<TypeRef>,
    pub super_interfaces: Vec<TypeRef>,
    pub injector: Option<InjectorDeclaration>,
    pub members: Vec<ClassMember>,
    pub span: Span,
}

#[derive(Debug)]
pub enum ClassMember {
    Field(FieldDeclaration),
    Method(MethodDeclaration),
    Constructor(ConstructorDeclaration),
}

#[derive(Debug)]
pub struct FieldDeclaration {
    pub annotations: Vec<Annotation>,
    pub modifiers: Vec<Modifier>,
    pub field_type: TypeRef,
    pub name: String,
    pub initializer: Option<Expression>,
    pub span: Span,
}

#[derive(Debug)]
pub struct MethodDeclaration {
    pub annotations: Vec<Annotation>,
    pub modifiers: Vec<Modifier>,
    pub return_type: TypeRef,
    pub name: String,
    pub parameters: Vec<Parameter>,
    pub body: Option<Vec<Statement>>,
    pub span: Span,
}

/// A method signature of an interface.
#[derive(Debug)]
pub struct MethodSignature {
    pub annotations: Vec<Annotation>,
    pub return_type: TypeRef,
    pub name: String,
    pub parameters: Vec<Parameter>,
    pub span: Span,
}

#[derive(Debug)]
pub struct ConstructorDeclaration {
    pub annotations: Vec<Annotation>,
    pub modifiers: Vec<Modifier>,
    pub parameters: Vec<Parameter>,
    pub base_arguments: Vec<Expression>,
    pub body: Option<Vec<Statement>>,
    pub span: Span,
}

#[derive(Debug)]
pub struct InterfaceDeclaration {
    pub annotations: Vec<Annotation>,
    pub modifiers: Vec<Modifier>,
    pub name: String,
    pub super_interfaces: Vec<TypeRef>,
    pub methods: Vec<MethodSignature>,
    pub span: Span,
}

#[derive(Debug)]
pub struct EnumDeclaration {
    pub annotations: Vec<Annotation>,
    pub modifiers: Vec<Modifier>,
    pub name: String,
    pub values: Vec<EnumValue>,
    pub span: Span,
}

#[derive(Debug)]
pub struct EnumValue {
    pub annotations: Vec<Annotation>,
    pub name: String,
    pub value: Option<i64>,
    pub span: Span,
}

#[derive(Debug)]
pub struct AnnotationField {
    pub annotations: Vec<Annotation>,
    pub field_type: TypeRef,
    pub name: String,
    pub default: Option<Expression>,
    pub span: Span,
}

/// `@Name<GenericType>(key = value, ...)`, with the metadata entries written
/// in brackets before it.
#[derive(Debug)]
pub struct Annotation {
    pub name: String,
    pub generic_type: Option<TypeRef>,
    pub arguments: Vec<(String, Expression)>,
    pub metadatas: Vec<MetadataEntry>,
    pub span: Span,
}

/// An entry `type name = value` of a metadata block `[ ... ]`.
#[derive(Debug)]
pub struct MetadataEntry {
    /// The type as written, e.g. `delegate<float:Lane^>`.
    pub type_text: String,
    pub name: String,
    pub value: Option<Expression>,
}

#[derive(Debug)]
pub struct InjectorDeclaration {
    pub fields: Vec<InjectorField>,
    pub span: Span,
}

#[derive(Debug)]
pub struct InjectorField {
    pub name: String,
    pub field_type: TypeRef,
    pub span: Span,
}

#[derive(Debug)]
pub struct Parameter {
    pub name: String,
    pub param_type: TypeRef,
    pub span: Span,
}

/// Modifiers of classes, members and methods.
#[derive(Debug, Clone, Copy, PartialEq, Eq, Structural)]
pub enum Modifier {
    /// Implemented by the host environment.
    Native,
    /// Belongs to the type rather than to an instance.
    Static,
    /// Has no implementation here; subclasses provide it.
    Abstract,
    /// Marks an injector member.
    Injector,
}

/// A reference to a type as written in the source.
#[derive(Debug)]
pub enum TypeRef {
    /// `int`, `string`, `MyClass`
    Simple { name: String, span: Span },
    /// `List<string>`
    Generic { name: String, type_args: Vec<TypeRef>, span: Span },
    /// `int[]`
    Array { element_type: Box<TypeRef>, span: Span },
    /// `delegate<ReturnType, ParamType, ...>`
    Delegate { return_type: Box<TypeRef>, param_types: Vec<TypeRef>, span: Span },
    /// `Type^`, the injector of a type
    Injector { base_type: Box<TypeRef>, span: Span },
}

impl TypeRef {
    /// The simple type reference `name`.
    pub fn simple(name: String, span: Span) -> (t: TypeRef)
        ensures
            t matches TypeRef::Simple { name: n, span: sp } && n@ == name@ && sp == span,
    {
        TypeRef::Simple { name, span }
    }

    pub open spec fn spec_span(&self) -> Span {
        match self {
            TypeRef::Simple { span, .. } => *span,
            TypeRef::Generic { span, .. } => *span,
            TypeRef::Array { span, .. } => *span,
            TypeRef::Delegate { span, .. } => *span,
            TypeRef::Injector { span, .. } => *span,
        }
    }

    /// Where the type reference stands in the source.
    pub fn span(&self) -> (s: Span)
        ensures
            s == self.spec_span(),
    {
        match self {
            TypeRef::Simple { span, .. } => *span,
            TypeRef::Generic { span, .. } => *span,
            TypeRef::Array { span, .. } => *span,
            TypeRef::Delegate { span, .. } => *span,
            TypeRef::Injector { span, .. } => *span,
        }
    }
}

/// The body of a lambda: an expression or a block.
#[derive(Debug)]
pub enum LambdaBody {
    Expression(Box<Expression>),
    Block(Vec<Statement>),
}

/// An expression; every variant carries its span.
#[derive(Debug)]
pub enum Expression {
    Literal(Literal, Span),
    Identifier(String, Span),
    MemberAccess { object: Box<Expression>, member: String, span: Span },
    MethodCall { receiver: Box<Expression>, method: String, arguments: Vec<Expression>, span: Span },
    StaticMethodCall { class_name: String, method: String, arguments: Vec<Expression>, span: Span },
    ArrayAccess { array: Box<Expression>, index: Box<Expression>, span: Span },
    Binary { left: Box<Expression>, operator: BinaryOp, right: Box<Expression>, span: Span },
    Unary { operator: UnaryOp, operand: Box<Expression>, span: Span },
    /// `condition ? then_branch : else_branch`; the else branch may be absent.
    Conditional {
        condition: Box<Expression>,
        then_branch: Box<Expression>,
        else_branch: Option<Box<Expression>>,
        span: Span,
    },
    Assignment { target: AssignmentTarget, operator: AssignmentOp, value: Box<Expression>, span: Span },
    /// `new Type(arguments)`, with the injector fields given after it.
    New {
        class_type: TypeRef,
        arguments: Vec<Expression>,
        injector: Option<Vec<(String, Expression)>>,
        span: Span,
    },
    Cast { target_type: TypeRef, expression: Box<Expression>, span: Span },
    Lambda { parameters: Vec<Parameter>, body: LambdaBody, span: Span },
    /// `{ key: value, ... }`, or `Name : { ... }` naming its class.
    InjectorObject { class_name: String, fields: Vec<(String, Expression)>, span: Span },
    InjectorArray { elements: Vec<Expression>, span: Span },
    /// `^field`: a field of the injector.
    InjectorFieldRef(String, Span),
    /// `new ^field(args)`: an object built by an injector field.
    InjectorNew { injector_field: String, args: Vec<Expression>, span: Span },
    This(Span),
    Super(Span),
    Null(Span),
}

impl Expression {
    pub open spec fn spec_span(&self) -> Span {
        match self {
            Expression::Literal(_, span) => *span,
            Expression::Identifier(_, span) => *span,
            Expression::MemberAccess { span, .. } => *span,
            Expression::MethodCall { span, .. } => *span,
            Expression::StaticMethodCall { span, .. } => *span,
            Expression::ArrayAccess { span, .. } => *span,
            Expression::Binary { span, .. } => *span,
            Expression::Unary { span, .. } => *span,
            Expression::Conditional { span, .. } => *span,
            Expression::Assignment { span, .. } => *span,
            Expression::New { span, .. } => *span,
            Expression::Cast { span, .. } => *span,
            Expression::Lambda { span, .. } => *span,
            Expression::InjectorObject { span, .. } => *span,
            Expression::InjectorArray { span, .. } => *span,
            Expression::InjectorFieldRef(_, span) => *span,
            Expression::InjectorNew { span, .. } => *span,
            Expression::This(span) => *span,
            Expression::Super(span) => *span,
            Expression::Null(span) => *span,
        }
    }

    /// Where the whole expression stands in the source.
    pub fn span(&self) -> (s: Span)
        ensures
            s == self.spec_span(),
    {
        match self {
            Expression::Literal(_, span) => *span,
            Expression::Identifier(_, span) => *span,
            Expression::MemberAccess { span, .. } => *span,
            Expression::MethodCall { span, .. } => *span,
            Expression::StaticMethodCall { span, .. } => *span,
            Expression::ArrayAccess { span, .. } => *span,
            Expression::Binary { span, .. } => *span,
            Expression::Unary { span, .. } => *span,
            Expression::Conditional { span, .. } => *span,
            Expression::Assignment { span, .. } => *span,
            Expression::New { span, .. } => *span,
            Expression::Cast { span, .. } => *span,
            Expression::Lambda { span, .. } => *span,
            Expression::InjectorObject { span, .. } => *span,
            Expression::InjectorArray { span, .. } => *span,
            Expression::InjectorFieldRef(_, span) => *span,
            Expression::InjectorNew { span, .. } => *span,
            Expression::This(span) => *span,
            Expression::Super(span) => *span,
            Expression::Null(span) => *span,
        }
    }
}

/// A literal constant. A literal with a fractional part is kept as its source text.
#[derive(Debug)]
pub enum Literal {
    Int(i64),
    Float(String),
    Bool(bool),
    String(String),
}

#[derive(Debug, Clone, Copy, PartialEq, Eq, Structural)]
pub enum BinaryOp {
    Add,
    Subtract,
    Multiply,
    Divide,
    Modulo,
    Less,
    LessEqual,
    Greater,
    GreaterEqual,
    Equal,
    NotEqual,
    LogicAnd,
    LogicOr,
}

#[derive(Debug, Clone, Copy, PartialEq, Eq, Structural)]
pub enum UnaryOp {
    Negate,
    Not,
    PreIncrement,
    PreDecrement,
    PostIncrement,
    PostDecrement,
}

#[derive(Debug, Clone, Copy, PartialEq, Eq, Structural)]
pub enum AssignmentOp {
    Assign,
    PlusAssign,
    MinusAssign,
    StarAssign,
    SlashAssign,
}

/// What an assignment writes to.
#[derive(Debug)]
pub enum AssignmentTarget {
    Variable(String, Span),
    Field { object: Box<Expression>, field: String, span: Span },
    ArrayElement { array: Box<Expression>, index: Box<Expression>, span: Span },
    /// `obj.^field`
    InjectorField { object: Box<Expression>, field: String, span: Span },
}

impl AssignmentTarget {
    pub open spec fn spec_span(&self) -> Span {
        match self {
            AssignmentTarget::Variable(_, span) => *span,
            AssignmentTarget::Field { span, .. } => *span,
            AssignmentTarget::ArrayElement { span, .. } => *span,
            AssignmentTarget::InjectorField { span, .. } => *span,
        }
    }

    pub fn span(&self) -> (s: Span)
        ensures
            s == self.spec_span(),
    {
        match self {
            AssignmentTarget::Variable(_, span) => *span,
            AssignmentTarget::Field { span, .. } => *span,
            AssignmentTarget::ArrayElement { span, .. } => *span,
            AssignmentTarget::InjectorField { span, .. } => *span,
        }
    }
}

/// A statement; every variant carries its span.
#[derive(Debug)]
pub enum Statement {
    Expression(Expression, Span),
    VariableDeclaration { var_type: TypeRef, name: String, initializer: Option<Expression>, span: Span },
    Block { statements: Vec<Statement>, span: Span },
    If {
        condition: Expression,
        then_branch: Box<Statement>,
        else_branch: Option<Box<Statement>>,
        span: Span,
    },
    While { condition: Expression, body: Box<Statement>, span: Span },
    DoWhile { body: Box<Statement>, condition: Expression, span: Span },
    For {
        initializer: Option<Box<Statement>>,
        condition: Option<Expression>,
        update: Option<Expression>,
        body: Box<Statement>,
        span: Span,
    },
    Switch {
        expression: Expression,
        cases: Vec<CaseBlock>,
        default_body: Option<Box<Statement>>,
        span: Span,
    },
    Return { value: Option<Expression>, span: Span },
    Break { targets: Vec<BreakTarget>, span: Span },
    Continue { targets: Vec<BreakTarget>, span: Span },
}

impl Statement {
    pub open spec fn spec_span(&self) -> Span {
        match self {
            Statement::Expression(_, span) => *span,
            Statement::VariableDeclaration { span, .. } => *span,
            Statement::Block { span, .. } => *span,
            Statement::If { span, .. } => *span,
            Statement::While { span, .. } => *span,
            Statement::DoWhile { span, .. } => *span,
            Statement::For { span, .. } => *span,
            Statement::Switch { span, .. } => *span,
            Statement::Return { span, .. } => *span,
            Statement::Break { span, .. } => *span,
            Statement::Continue { span, .. } => *span,
        }
    }

    pub fn span(&self) -> (s: Span)
        ensures
            s == self.spec_span(),
    {
        match self {
            Statement::Expression(_, span) => *span,
            Statement::VariableDeclaration { span, .. } => *span,
            Statement::Block { span, .. } => *span,
            Statement::If { span, .. } => *span,
            Statement::While { span, .. } => *span,
            Statement::DoWhile { span, .. } => *span,
            Statement::For { span, .. } => *span,
            Statement::Switch { span, .. } => *span,
            Statement::Return { span, .. } => *span,
            Statement::Break { span, .. } => *span,
            Statement::Continue { span, .. } => *span,
        }
    }
}

/// Which enclosing loop a `break` or `continue` leaves: by count (1 is the
/// innermost) or by loop keyword.
#[derive(Debug, Clone)]
pub enum BreakTarget {
    ByLayer(u32),
    ByKeyword(String),
}

/// One `case` of a `switch`: the values it matches and its body.
#[derive(Debug)]
pub struct CaseBlock {
    pub values: Vec<Expression>,
    pub body: Vec<Statement>,
    pub span: Span,
}

} // verus!
