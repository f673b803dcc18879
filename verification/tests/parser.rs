use gorge_compiler::ast::{
    AssignmentOp, AssignmentTarget, BinaryOp, BreakTarget, ClassMember, Expression, LambdaBody,
    Literal, Modifier, SourceFile, Statement, TopLevelMember, TypeRef, UnaryOp,
};
use gorge_compiler::lexer::tokenize;
use gorge_compiler::parser::Parser;
use gorge_compiler::span::Diagnostics;
/// 辅助函数：对源码进行词法 + 语法分析，返回解析结果
fn parse_source(source: &str) -> Result<SourceFile, Diagnostics> {
    let (tokens, lexer_diags) = tokenize(source, 0);
    if !lexer_diags.is_empty() {
        println!("词法错误: {:?}", lexer_diags);
    }
    let mut parser = Parser::new(tokens);
    parser.parse_source_file()
}

/// 辅助函数：解析表达式
fn parse_expr(source: &str) -> Result<Expression, Diagnostics> {
    let (tokens, _) = tokenize(source, 0);
    let mut parser = Parser::new(tokens);
    match parser.parse_expression() {
        Ok(expr) => {
            if parser.diagnostics().has_errors() {
                Err(parser.into_diagnostics())
            } else {
                Ok(expr)
            }
        }
        Err(_) => Err(parser.into_diagnostics()),
    }
}

/// 辅助函数：解析单条语句
fn parse_stmt(source: &str) -> Statement {
    let (tokens, _) = tokenize(source, 0);
    let mut parser = Parser::new(tokens);
    parser.parse_statement().expect("语句解析失败")
}

#[test]
fn test_parse_break_default_target() {
    // 无目标 break 默认 [ByLayer(1)]
    match parse_stmt("break;") {
        Statement::Break { targets, .. } => {
            assert_eq!(targets.len(), 1);
            assert!(matches!(targets[0], BreakTarget::ByLayer(1)));
        }
        other => panic!("应为 Break，实为 {:?}", other),
    }
}

#[test]
fn test_parse_break_by_layer() {
    match parse_stmt("break 2;") {
        Statement::Break { targets, .. } => {
            assert_eq!(targets.len(), 1);
            assert!(matches!(targets[0], BreakTarget::ByLayer(2)));
        }
        other => panic!("应为 Break，实为 {:?}", other),
    }
}

#[test]
fn test_parse_break_by_keyword() {
    match parse_stmt("break while;") {
        Statement::Break { targets, .. } => {
            assert_eq!(targets.len(), 1);
            assert!(matches!(&targets[0], BreakTarget::ByKeyword(k) if k == "while"));
        }
        other => panic!("应为 Break，实为 {:?}", other),
    }
}

#[test]
fn test_parse_break_multi_targets() {
    // break for for → 两个 for 关键字目标
    match parse_stmt("break for for;") {
        Statement::Break { targets, .. } => {
            assert_eq!(targets.len(), 2);
            assert!(matches!(&targets[0], BreakTarget::ByKeyword(k) if k == "for"));
            assert!(matches!(&targets[1], BreakTarget::ByKeyword(k) if k == "for"));
        }
        other => panic!("应为 Break，实为 {:?}", other),
    }
}

#[test]
fn test_parse_continue_by_layer() {
    match parse_stmt("continue 3;") {
        Statement::Continue { targets, .. } => {
            assert!(matches!(targets[0], BreakTarget::ByLayer(3)));
        }
        other => panic!("应为 Continue，实为 {:?}", other),
    }
}

#[test]
fn test_parse_integer_literal() {
    let result = parse_expr("42").unwrap();
    assert!(matches!(result, Expression::Literal(Literal::Int(42), _)));
}

#[test]
fn test_parse_float_literal() {
    let result = parse_expr("3.14").unwrap();
    assert!(matches!(result, Expression::Literal(Literal::Float(v), _) if (v.parse::<f64>().unwrap() - 3.14).abs() < 0.001));
}

#[test]
fn test_parse_string_literal() {
    let result = parse_expr(r#""hello""#).unwrap();
    assert!(matches!(result, Expression::Literal(Literal::String(s), _) if s == "hello"));
}

#[test]
fn test_parse_identifier() {
    let result = parse_expr("myVar").unwrap();
    assert!(matches!(result, Expression::Identifier(name, _) if name == "myVar"));
}

#[test]
fn test_parse_binary_add() {
    let result = parse_expr("1 + 2").unwrap();
    assert!(matches!(result, Expression::Binary { operator: BinaryOp::Add, .. }));
}

#[test]
fn test_parse_binary_mul() {
    let result = parse_expr("3 * 4").unwrap();
    assert!(matches!(result, Expression::Binary { operator: BinaryOp::Multiply, .. }));
}

#[test]
fn test_parse_comparison() {
    let result = parse_expr("x < y").unwrap();
    assert!(matches!(result, Expression::Binary { operator: BinaryOp::Less, .. }));
}

#[test]
fn test_parse_equality() {
    let result = parse_expr("a == b").unwrap();
    assert!(matches!(result, Expression::Binary { operator: BinaryOp::Equal, .. }));
}

#[test]
fn test_parse_logical_and() {
    let result = parse_expr("true && false").unwrap();
    assert!(matches!(result, Expression::Binary { operator: BinaryOp::LogicAnd, .. }));
}

#[test]
fn test_parse_logical_or() {
    let result = parse_expr("a || b").unwrap();
    assert!(matches!(result, Expression::Binary { operator: BinaryOp::LogicOr, .. }));
}

#[test]
fn test_parse_precedence_mul_before_add() {
    // 应该解析为 (1 + (2 * 3))
    let result = parse_expr("1 + 2 * 3").unwrap();
    match result {
        Expression::Binary { left, operator: BinaryOp::Add, right, .. } => {
            assert!(matches!(*left, Expression::Literal(Literal::Int(1), _)));
            assert!(matches!(*right, Expression::Binary { operator: BinaryOp::Multiply, .. }));
        }
        _ => panic!("期望加法为顶层操作"),
    }
}

#[test]
fn test_parse_parentheses() {
    let result = parse_expr("(1 + 2) * 3").unwrap();
    match result {
        Expression::Binary { left, operator: BinaryOp::Multiply, .. } => {
            assert!(matches!(*left, Expression::Binary { operator: BinaryOp::Add, .. }));
        }
        _ => panic!("期望乘法为顶层操作"),
    }
}

#[test]
fn test_parse_unary_negate() {
    let result = parse_expr("-5").unwrap();
    assert!(matches!(result, Expression::Unary { operator: UnaryOp::Negate, .. }));
}

#[test]
fn test_parse_unary_not() {
    let result = parse_expr("!flag").unwrap();
    assert!(matches!(result, Expression::Unary { operator: UnaryOp::Not, .. }));
}

#[test]
fn test_parse_assignment() {
    let result = parse_expr("x = 10").unwrap();
    assert!(matches!(result, Expression::Assignment { operator: AssignmentOp::Assign, .. }));
}

#[test]
fn test_parse_member_access() {
    let result = parse_expr("obj.field").unwrap();
    assert!(matches!(result, Expression::MemberAccess { member, .. } if member == "field"));
}

#[test]
fn test_parse_method_call() {
    let result = parse_expr("obj.method()").unwrap();
    assert!(matches!(result, Expression::MethodCall { method, .. } if method == "method"));
}

#[test]
fn test_parse_conditional() {
    let result = parse_expr("a ? b : c").unwrap();
    assert!(matches!(result, Expression::Conditional { .. }));
}

#[test]
fn test_parse_null() {
    let result = parse_expr("null").unwrap();
    assert!(matches!(result, Expression::Null(_)));
}

#[test]
fn test_parse_bool_literal() {
    let t = parse_expr("true").unwrap();
    assert!(matches!(t, Expression::Literal(Literal::Bool(true), _)));
    let f = parse_expr("false").unwrap();
    assert!(matches!(f, Expression::Literal(Literal::Bool(false), _)));
}

#[test]
fn test_parse_class_with_method() {
    let source = "class Test { int getValue() { return 42; } }";
    let ast = parse_source(source).unwrap();
    match &ast.members[0] {
        TopLevelMember::Class(c) => {
            assert_eq!(c.name, "Test");
            assert_eq!(c.members.len(), 1);
        }
        _ => panic!("期望类声明"),
    }
}

#[test]
fn test_parse_class_declaration() {
    let source = "class MyClass { }";
    let ast = parse_source(source).unwrap();
    assert_eq!(ast.members.len(), 1);
    match &ast.members[0] {
        TopLevelMember::Class(c) => assert_eq!(c.name, "MyClass"),
        _ => panic!("期望类声明"),
    }
}

#[test]
fn test_parse_class_with_field() {
    let source = "class Point { int x; float y; }";
    let ast = parse_source(source).unwrap();
    match &ast.members[0] {
        TopLevelMember::Class(c) => {
            assert_eq!(c.name, "Point");
            assert_eq!(c.members.len(), 2);
        }
        _ => panic!("期望类声明"),
    }
}

#[test]
fn test_static_field_modifier_rejected() {
    // Gorge 语法不允许字段带修饰符（只有方法可 static），应报编译错误
    let source = "class Config { static int count; }";
    let result = parse_source(source);
    assert!(result.is_err(), "static 字段应被拒绝");
}

#[test]
fn test_plain_field_no_modifier_ok() {
    // 普通字段（无修饰符）应正常解析
    let source = "class Config { int count; }";
    assert!(parse_source(source).is_ok());
}

#[test]
fn test_parse_interface() {
    let source = "interface IDrawable { void draw(); }";
    let ast = parse_source(source).unwrap();
    match &ast.members[0] {
        TopLevelMember::Interface(i) => {
            assert_eq!(i.name, "IDrawable");
            assert_eq!(i.methods.len(), 1);
        }
        _ => panic!("期望接口声明"),
    }
}

#[test]
fn test_parse_enum() {
    let source = "enum Color { Red, Green, Blue }";
    let ast = parse_source(source).unwrap();
    match &ast.members[0] {
        TopLevelMember::Enum(e) => {
            assert_eq!(e.name, "Color");
            assert_eq!(e.values.len(), 3);
        }
        _ => panic!("期望枚举声明"),
    }
}

#[test]
fn test_parse_class_with_inheritance() {
    let source = "class Dog : Animal :: IPet , IBark { }";
    let ast = parse_source(source).unwrap();
    match &ast.members[0] {
        TopLevelMember::Class(c) => {
            assert_eq!(c.name, "Dog");
            assert!(c.super_class.is_some());
            assert_eq!(c.super_interfaces.len(), 2);
        }
        _ => panic!("期望类声明"),
    }
}

#[test]
fn test_parse_namespace() {
    let source = "namespace MyGame; class Player { }";
    let ast = parse_source(source).unwrap();
    assert!(ast.namespace.is_some());
}

#[test]
fn test_parse_namespace_interleaved() {
    let source = "namespace A; class X { } namespace B; class Y { }";
    let ast = parse_source(source).unwrap();
    // 最后一个 namespace 生效
    assert!(ast.namespace.is_some());
    assert_eq!(ast.members.len(), 2);
}

#[test]
fn test_parse_using() {
    let source = "using System; class Foo { }";
    let ast = parse_source(source).unwrap();
    assert_eq!(ast.usings.len(), 1);
}

// ==================== 构造函数解析测试 ====================

#[test]
fn test_parse_class_with_constructor() {
    let source = "class Test4 { Test4(int x) { this.x = x; } }";
    let ast = parse_source(source).unwrap();
    match &ast.members[0] {
        TopLevelMember::Class(c) => {
            assert_eq!(c.name, "Test4");
            assert_eq!(c.members.len(), 1);
            assert!(matches!(&c.members[0], ClassMember::Constructor(_)));
        }
        _ => panic!("期望类声明"),
    }
}

#[test]
fn test_parse_class_with_constructor_and_super() {
    let source = "class TestB : TestA { TestB(int x) : super(x + 1) { value = x; } }";
    let ast = parse_source(source).unwrap();
    match &ast.members[0] {
        TopLevelMember::Class(c) => {
            assert_eq!(c.name, "TestB");
            assert_eq!(c.members.len(), 1);
            match &c.members[0] {
                ClassMember::Constructor(ctor) => {
                    assert_eq!(ctor.parameters.len(), 1);
                    assert_eq!(ctor.base_arguments.len(), 1);
                    assert!(ctor.body.is_some());
                }
                _ => panic!("期望构造函数"),
            }
        }
        _ => panic!("期望类声明"),
    }
}

#[test]
fn test_parse_class_with_injector_constructor() {
    let source = "class Test11A { injector Test11A(int i) { value = value + i; } }";
    let ast = parse_source(source).unwrap();
    match &ast.members[0] {
        TopLevelMember::Class(c) => {
            match &c.members[0] {
                ClassMember::Constructor(ctor) => {
                    assert!(ctor.modifiers.iter().any(|m| matches!(m, Modifier::Injector)));
                    assert_eq!(ctor.parameters.len(), 1);
                }
                _ => panic!("期望构造函数"),
            }
        }
        _ => panic!("期望类声明"),
    }
}

#[test]
fn test_parse_class_with_field_method_and_constructor() {
    let source = r#"
class Test4 {
int counter;
int increasment;
Test4(int inc) {
    this.increasment = inc;
}
void SelfIncreasement() {
    counter = counter + 1;
}
}
"#;
    let ast = parse_source(source).unwrap();
    match &ast.members[0] {
        TopLevelMember::Class(c) => {
            assert_eq!(c.name, "Test4");
            assert_eq!(c.members.len(), 4);
            let field_count = c.members.iter().filter(|m| matches!(m, ClassMember::Field(_))).count();
            let ctor_count = c.members.iter().filter(|m| matches!(m, ClassMember::Constructor(_))).count();
            let method_count = c.members.iter().filter(|m| matches!(m, ClassMember::Method(_))).count();
            assert_eq!(field_count, 2, "应有 2 个字段");
            assert_eq!(ctor_count, 1, "应有 1 个构造函数");
            assert_eq!(method_count, 1, "应有 1 个方法");
        }
        _ => panic!("期望类声明"),
    }
}

#[test]
fn test_parse_class_with_native_constructor() {
    let source = "native class Test8N { int gorgeField; Test8N(int a, int b); static int GetConst(); }";
    let ast = parse_source(source).unwrap();
    match &ast.members[0] {
        TopLevelMember::Class(c) => {
            assert_eq!(c.name, "Test8N");
            assert_eq!(c.members.len(), 3);
            let ctor_count = c.members.iter().filter(|m| matches!(m, ClassMember::Constructor(_))).count();
            assert_eq!(ctor_count, 1, "应有 1 个构造函数");
            match &c.members[1] {
                ClassMember::Constructor(ctor) => {
                    assert!(ctor.body.is_none(), "native 构造函数应无方法体");
                    assert_eq!(ctor.parameters.len(), 2);
                }
                _ => panic!("第 2 个成员应是构造函数"),
            }
        }
        _ => panic!("期望类声明"),
    }
}

// ==================== 真实 .g 文件解析验证 ====================

/// 解析 Test4.g 的核心结构并验证构造函数 AST
#[test]
fn test_parse_test4g_constructor_and_this() {
    let source = r#"
class Test4
{
int counter;
int increasment;
int selfIncreasement = -1;

Test4(int increasment)
{
    this.increasment = increasment;
}

void SelfIncreasement()
{
    counter = counter + selfIncreasement;
}

static int DoTest()
{
    Test4 t = new Test4(2);
    t.counter = 0;
    for(int j = 0; j < 100000000; j = j + 1)
    {
        t.counter = t.counter + t.increasment;
        t.SelfIncreasement();
    }
    return t.counter;
}
}
"#;
    let ast = parse_source(source).unwrap();
    match &ast.members[0] {
        TopLevelMember::Class(c) => {
            assert_eq!(c.name, "Test4");
            assert_eq!(c.members.len(), 6);

            // 验证三个字段
            let fields: Vec<_> = c.members.iter()
                .filter_map(|m| if let ClassMember::Field(f) = m { Some(f) } else { None })
                .collect();
            assert_eq!(fields.len(), 3);
            assert_eq!(fields[0].name, "counter");
            assert_eq!(fields[1].name, "increasment");
            assert_eq!(fields[2].name, "selfIncreasement");
            assert!(fields[2].initializer.is_some(), "selfIncreasement 应有初始值 -1");

            // 验证构造函数
            let ctors: Vec<_> = c.members.iter()
                .filter_map(|m| if let ClassMember::Constructor(ctor) = m { Some(ctor) } else { None })
                .collect();
            assert_eq!(ctors.len(), 1, "应有 1 个构造函数");
            let ctor = ctors[0];
            assert_eq!(ctor.parameters.len(), 1);
            assert_eq!(ctor.parameters[0].name, "increasment");
            assert!(matches!(&ctor.parameters[0].param_type, TypeRef::Simple { name, .. } if name == "int"));
            assert!(ctor.base_arguments.is_empty(), "无 super() 调用");
            assert!(ctor.body.is_some(), "应有构造函数体");
            let body = ctor.body.as_ref().unwrap();
            assert_eq!(body.len(), 1);

            // 验证构造函数体中的赋值语句：this.increasment = increasment;
            match &body[0] {
                Statement::Expression(expr, _) => {
                    match expr {
                        Expression::Assignment { target, operator, .. } => {
                            assert!(matches!(operator, AssignmentOp::Assign));
                            match target {
                                AssignmentTarget::Field { object, field, .. } => {
                                    assert!(matches!(**object, Expression::This(_)), "赋值目标是 this.field");
                                    assert_eq!(field, "increasment");
                                }
                                _ => panic!("赋值目标应为字段"),
                            }
                        }
                        _ => panic!("构造函数首语句应为赋值"),
                    }
                }
                _ => panic!("构造函数体应有表达式语句"),
            }

            // 验证 void SelfIncreasement 方法
            let methods: Vec<_> = c.members.iter()
                .filter_map(|m| if let ClassMember::Method(meth) = m { Some(meth) } else { None })
                .collect();
            assert_eq!(methods.len(), 2);
            assert_eq!(methods[0].name, "SelfIncreasement");
            assert_eq!(methods[1].name, "DoTest");
            assert!(methods[1].modifiers.iter().any(|m| matches!(m, Modifier::Static)), "DoTest 应为 static");
        }
        _ => panic!("期望类声明"),
    }
}

/// 解析 Test5.g 的多类 + 继承 + super() 结构
#[test]
fn test_parse_test5g_multi_class_with_super() {
    let source = r#"
class Test5A
{
int valueA;
Test5A(int value)
{
    valueA = value;
}
int GetValue() { return valueA; }
int GetValueA() { return valueA; }
}
class Test5B : Test5A
{
int valueB;
Test5B(int value) : super(value + 1)
{
    valueB = value;
}
int GetValue() { return valueB; }
int GetValueB() { return valueB; }
}
"#;
    let ast = parse_source(source).unwrap();
    assert_eq!(ast.members.len(), 2, "应有两个类");

    // 验证 Test5A
    match &ast.members[0] {
        TopLevelMember::Class(c) => {
            assert_eq!(c.name, "Test5A");
            assert!(c.super_class.is_none());
            assert_eq!(c.members.len(), 4);
            // 构造函数
            let ctors: Vec<_> = c.members.iter()
                .filter_map(|m| if let ClassMember::Constructor(ctor) = m { Some(ctor) } else { None })
                .collect();
            assert_eq!(ctors.len(), 1);
            assert!(ctors[0].base_arguments.is_empty());
        }
        _ => panic!("Test5A 应为类"),
    }

    // 验证 Test5B
    match &ast.members[1] {
        TopLevelMember::Class(c) => {
            assert_eq!(c.name, "Test5B");
            assert!(c.super_class.is_some(), "应有父类 Test5A");
            match c.super_class.as_ref().unwrap() {
                TypeRef::Simple { name, .. } => assert_eq!(name, "Test5A"),
                _ => panic!("父类应为 Simple 类型"),
            }
            assert_eq!(c.members.len(), 4);
            // 验证 super(args) 调用
            let ctors: Vec<_> = c.members.iter()
                .filter_map(|m| if let ClassMember::Constructor(ctor) = m { Some(ctor) } else { None })
                .collect();
            assert_eq!(ctors.len(), 1);
            assert_eq!(ctors[0].base_arguments.len(), 1, "应有一个 super 参数");
            // super(value + 1) — 参数是二元加法表达式
            match &ctors[0].base_arguments[0] {
                Expression::Binary { operator: BinaryOp::Add, .. } => {},
                _ => panic!("super 参数应为 value + 1 加法表达式"),
            }
        }
        _ => panic!("Test5B 应为类"),
    }
}

/// 解析 Test9.g 的注入器构造函数
#[test]
fn test_parse_test9g_injector_constructor_with_super() {
    let source = r#"
class Test9Inner
{
int innerFieldA;
Test9Inner()
{
}
}
class Test9A : Test9N
{
int gorgeIntField;
Test9A() : super()
{
}
}
"#;
    let ast = parse_source(source).unwrap();
    assert_eq!(ast.members.len(), 2);

    // 验证 Test9A 的 super() 无参数调用
    match &ast.members[1] {
        TopLevelMember::Class(c) => {
            assert_eq!(c.name, "Test9A");
            let ctors: Vec<_> = c.members.iter()
                .filter_map(|m| if let ClassMember::Constructor(ctor) = m { Some(ctor) } else { None })
                .collect();
            assert_eq!(ctors.len(), 1);
            assert_eq!(ctors[0].body.as_ref().unwrap().len(), 0, "空构造函数体");
            // super() 无参数
            assert!(ctors[0].base_arguments.is_empty(), "super() 无参数");
        }
        _ => panic!("Test9A 应为类"),
    }
}

/// 验证 `@Inject` 注解在关键字 `inject` 作为注解名时能被正确解析
///
/// 由于词法器将 `inject` 识别为 `KwInject` 关键字而非 `Identifier`，
/// `match_identifier_or_keyword()` 需能识别该 token 并返回 "Inject"。
#[test]
fn test_parse_annotation_with_keyword() {
    // 使用小写 `inject` 触发 KwInject token（小写才被词法为关键字）
    let source = r#"
class Foo
{
@inject
int bar;
}
"#;
    let ast = parse_source(source).unwrap();
    assert_eq!(ast.members.len(), 1);
    match &ast.members[0] {
        TopLevelMember::Class(c) => {
            assert_eq!(c.name, "Foo");
            assert_eq!(c.members.len(), 1);
            match &c.members[0] {
                ClassMember::Field(f) => {
                    assert_eq!(f.name, "bar");
                    assert_eq!(f.annotations.len(), 1);
                    assert_eq!(f.annotations[0].name, "Inject");
                }
                _ => panic!("bar 应为字段"),
            }
        }
        _ => panic!("Foo 应为类"),
    }
}

/// 验证 `@Inject` 注解使用大写形式也可正常解析
#[test]
fn test_parse_annotation_with_capitalized_identifier() {
    let source = r#"
class Foo
{
@Inject
int bar;
}
"#;
    let ast = parse_source(source).unwrap();
    assert_eq!(ast.members.len(), 1);
    match &ast.members[0] {
        TopLevelMember::Class(c) => {
            assert_eq!(c.name, "Foo");
            assert_eq!(c.members.len(), 1);
            match &c.members[0] {
                ClassMember::Field(f) => {
                    assert_eq!(f.name, "bar");
                    assert_eq!(f.annotations.len(), 1);
                    assert_eq!(f.annotations[0].name, "Inject");
                }
                _ => panic!("bar 应为字段"),
            }
        }
        _ => panic!("Foo 应为类"),
    }
}

/// 验证 `new ^field(args)` 语法正确解析为 `Expression::InjectorNew`
#[test]
fn test_parse_new_injector_field_constructor() {
    let source = "new ^myField(1, 2)";
    let result = parse_expr(source).unwrap();
    match result {
        Expression::InjectorNew { injector_field, args, .. } => {
            assert_eq!(injector_field, "myField", "注入器字段名应为 myField");
            assert_eq!(args.len(), 2, "参数个数应为 2");
            assert!(matches!(&args[0], Expression::Literal(Literal::Int(1), _)), "第一个参数为 1");
            assert!(matches!(&args[1], Expression::Literal(Literal::Int(2), _)), "第二个参数为 2");
        }
        _ => panic!("期望 Expression::InjectorNew，实际为 {:?}", result),
    }
}

/// 带类型 Lambda：`TypeName:(params) -> body`
#[test]
fn test_parse_typed_lambda_expr() {
    let source = "ElementLine:(int x) -> { return x; }";
    let result = parse_expr(source).unwrap();
    match result {
        Expression::Lambda { parameters, body, .. } => {
            assert_eq!(parameters.len(), 1);
            assert_eq!(parameters[0].name, "x");
            match &body {
                LambdaBody::Block(_) => {}
                _ => panic!("期望 LambdaBody::Block"),
            }
        }
        _ => panic!("期望 Expression::Lambda，实际为 {:?}", result),
    }
}

/// 带类型 Lambda + 注入器后缀：`TypeName^:(params) -> body`
#[test]
fn test_parse_typed_lambda_with_caret() {
    let source = "MyType^:(MyType^ arg) -> { return arg; }";
    let result = parse_expr(source).unwrap();
    match result {
        Expression::Lambda { parameters, .. } => {
            assert_eq!(parameters.len(), 1);
            assert_eq!(parameters[0].name, "arg");
        }
        _ => panic!("期望 Expression::Lambda，实际为 {:?}", result),
    }
}

/// 带类型 Lambda + 数组后缀：`TypeName[]:(params) -> body`
#[test]
fn test_parse_typed_lambda_with_brackets() {
    let source = "MyType[]:(int x) -> { return x; }";
    let result = parse_expr(source).unwrap();
    match result {
        Expression::Lambda { parameters, .. } => {
            assert_eq!(parameters.len(), 1);
            assert_eq!(parameters[0].name, "x");
        }
        _ => panic!("期望 Expression::Lambda，实际为 {:?}", result),
    }
}

/// metadata 块中包含带类型 Lambda 值（后跟 @ 注解）
#[test]
fn test_parse_metadata_with_typed_lambda_value() {
    let source = r#"
[ delegate<float:DremuLane^> display = string:(DremuLane^ arg) -> { return arg.^name; } ]
@Anno
class Foo { }
"#;
    let ast = parse_source(source).unwrap();
    match &ast.members[0] {
        TopLevelMember::Class(c) => {
            assert_eq!(c.annotations.len(), 1);
            let meta = &c.annotations[0].metadatas;
            assert_eq!(meta.len(), 1, "metadata 应有 1 条");
            assert_eq!(meta[0].type_text, "delegate<float:DremuLane^>");
            assert_eq!(meta[0].name, "display");
            assert!(meta[0].value.is_some(), "value 不应为空");
        }
        _ => panic!("期望类"),
    }
}

/// metadata 块中包含多个带类型 Lambda 值（后跟 @ 注解）
#[test]
fn test_parse_metadata_with_multiple_typed_lambdas() {
    let source = r#"
[
delegate<float:DremuLane^> display = string:(DremuLane^ arg) -> { return arg.^name; },
ColorArgb^ color = ColorArgb : {a : 1.0, r : 0.5, g : 0.5, b : 0.5},
delegate<ElementLine:DremuLane^> elementLine = ElementLine:(DremuLane^ lane) -> { return null; },
string displayName = "Note"
]
@EditableElement(type = "Note")
class Foo { }
"#;
    let ast = parse_source(source).unwrap();
    match &ast.members[0] {
        TopLevelMember::Class(c) => {
            assert_eq!(c.annotations.len(), 1);
            let meta = &c.annotations[0].metadatas;
            assert_eq!(meta.len(), 4, "metadata 应有 4 条");
            assert_eq!(meta[0].name, "display");
            assert_eq!(meta[1].name, "color");
            assert_eq!(meta[2].name, "elementLine");
            assert_eq!(meta[3].name, "displayName");
            assert!(meta[0].value.is_some(), "display value 不应为空");
            assert!(meta[1].value.is_some(), "color value 不应为空");
            assert!(meta[2].value.is_some(), "elementLine value 不应为空");
            assert!(meta[3].value.is_some(), "displayName value 不应为空");
        }
        _ => panic!("期望类"),
    }
}

/// DremuNote.g 精简版 — 复杂 metadata 块
#[test]
fn test_parse_dremu_note_metadata() {
    let source = r#"
using Gorge;
using GorgeFramework;
namespace Dremu;

[
delegate<float:DremuLane^> display = string:(DremuLane^ laneInjector) ->
{
    return laneInjector.^name;
},
ColorArgb^ color = ColorArgb : {a : 1.0, r : 0.2396693, g : 0.6370158, b : 0.8},
delegate<ElementLine:DremuLane^> elementLine = ElementLine:(DremuLane^ lane) ->
{
    ElementLinePoint[] points = new ElementLinePoint[2];
    return null;
},
string displayName = "Note"
]
@EditableElement(type = "Note")
class DremuNote : Note
{
int x;
}
"#;
    let ast = parse_source(source).unwrap();
    assert!(!ast.members.is_empty(), "应有成员");
    // 在 namespace 内部查找类
    let mut found = false;
    for member in &ast.members {
        if let TopLevelMember::Class(c) = member {
            if c.name == "DremuNote" {
                assert!(!c.annotations.is_empty(), "应有注解");
                found = true;
                break;
            }
        }
    }
    assert!(found, "应找到 DremuNote 类");
}

/// `new (^field)[index]` — 注入器字段 new 表达式 + 数组索引
#[test]
fn test_parse_new_injector_ref_with_index() {
    let source = "new (^laneLines)[^laneLines.length]";
    let result = parse_expr(source).unwrap();
    match result {
        Expression::ArrayAccess { array, index, .. } => {
            match array.as_ref() {
                Expression::InjectorNew { injector_field, args, .. } => {
                    assert_eq!(injector_field, "laneLines");
                    assert_eq!(args.len(), 0);
                }
                _ => panic!("数组目标应为 InjectorNew，实际为 {:?}", array),
            }
            match index.as_ref() {
                Expression::MemberAccess { object, member, .. } => {
                    assert_eq!(member, "length");
                    match object.as_ref() {
                        Expression::InjectorFieldRef(name, _) => assert_eq!(name, "laneLines"),
                        _ => panic!("成员访问对象应为 InjectorFieldRef，实际为 {:?}", object),
                    }
                }
                _ => panic!("索引应为 MemberAccess，实际为 {:?}", index),
            }
        }
        _ => panic!("期望 ArrayAccess，实际为 {:?}", result),
    }
}

/// `new (^field)[index]` 在条件表达式内部
#[test]
fn test_parse_conditional_with_new_injector_index() {
    let source = "(^laneLines == null) ? null : (new (^laneLines)[^laneLines.length])";
    let result = parse_expr(source).unwrap();
    match result {
        Expression::Conditional { condition, then_branch, else_branch, .. } => {
            match condition.as_ref() {
                Expression::Binary { operator: BinaryOp::Equal, .. } => {}
                _ => panic!("条件应为 == 比较"),
            }
            match then_branch.as_ref() {
                Expression::Null(_) => {}
                _ => panic!("真分支应为 null"),
            }
            match else_branch.as_ref() {
                Some(expr) => match expr.as_ref() {
                    Expression::ArrayAccess { .. } => {}
                    _ => panic!("假分支应为 ArrayAccess，实际为 {:?}", expr),
                },
                None => panic!("假分支不应为空"),
            }
        }
        _ => panic!("期望 Conditional，实际为 {:?}", result),
    }
}

/// 字段声明：`Type field = (^f == null) ? null : (new (^f)[^f.len]);`
#[test]
fn test_parse_field_with_conditional_new_injector_index() {
    let source = r#"
class Foo
{
FunctionCurve^[] laneLines = (^laneLines == null) ? null : (new (^laneLines)[^laneLines.length]);
}
"#;
    let ast = parse_source(source).unwrap();
    match &ast.members[0] {
        TopLevelMember::Class(c) => {
            assert_eq!(c.name, "Foo");
            assert_eq!(c.members.len(), 1, "应有 1 个类成员");
        }
        _ => panic!("期望类"),
    }
}

// ==================== 强制转换结合性测试 ====================

/// `(T) a.b()` 应解析为 `(T)(a.b())`：方法调用属于 cast 的操作数
#[test]
fn test_cast_binds_postfix_method_call() {
    let expr = parse_expr("(Asset) Env.GetIt(\"x\")").unwrap();
    match expr {
        Expression::Cast { target_type, expression, .. } => {
            match target_type {
                TypeRef::Simple { name, .. } => assert_eq!(name, "Asset"),
                other => panic!("目标类型应为 Simple(Asset)，实际为 {:?}", other),
            }
            match expression.as_ref() {
                Expression::MethodCall { receiver, method, .. } => {
                    assert_eq!(method, "GetIt");
                    match receiver.as_ref() {
                        Expression::Identifier(name, _) => assert_eq!(name, "Env"),
                        other => panic!("接收者应为 Identifier(Env)，实际为 {:?}", other),
                    }
                }
                other => panic!("cast 操作数应为 MethodCall，实际为 {:?}", other),
            }
        }
        other => panic!("应为 Cast，实际为 {:?}", other),
    }
}

/// `(T) a.b.c` 应解析为 `(T)(a.b.c)`：成员链属于 cast 的操作数
#[test]
fn test_cast_binds_member_chain() {
    let expr = parse_expr("(Node) lane.noteReferenceNode").unwrap();
    match expr {
        Expression::Cast { expression, .. } => match expression.as_ref() {
            Expression::MemberAccess { object, member, .. } => {
                assert_eq!(member, "noteReferenceNode");
                match object.as_ref() {
                    Expression::Identifier(name, _) => assert_eq!(name, "lane"),
                    other => panic!("应为 Identifier(lane)，实际为 {:?}", other),
                }
            }
            other => panic!("cast 操作数应为 MemberAccess，实际为 {:?}", other),
        },
        other => panic!("应为 Cast，实际为 {:?}", other),
    }
}

/// `(T) a[i]` 应解析为 `(T)(a[i])`：数组访问属于 cast 的操作数
#[test]
fn test_cast_binds_array_access() {
    let expr = parse_expr("(Node) arr[0]").unwrap();
    match expr {
        Expression::Cast { expression, .. } => match expression.as_ref() {
            Expression::ArrayAccess { .. } => {}
            other => panic!("cast 操作数应为 ArrayAccess，实际为 {:?}", other),
        },
        other => panic!("应为 Cast，实际为 {:?}", other),
    }
}

/// `(int) x + 1` 应解析为 `((int)x) + 1`：二元运算不进入 cast 操作数
#[test]
fn test_cast_does_not_bind_binary() {
    let expr = parse_expr("(int) x + 1").unwrap();
    match expr {
        Expression::Binary { left, operator, .. } => {
            assert!(matches!(operator, BinaryOp::Add));
            match left.as_ref() {
                Expression::Cast { .. } => {}
                other => panic!("左操作数应为 Cast，实际为 {:?}", other),
            }
        }
        other => panic!("应为 Binary，实际为 {:?}", other),
    }
}

/// `(x) + y` 不是 cast（`)` 后为二元操作符），应保持括号表达式语义
#[test]
fn test_paren_expr_not_cast_before_binary_operator() {
    let expr = parse_expr("(x) + y").unwrap();
    match expr {
        Expression::Binary { left, operator, .. } => {
            assert!(matches!(operator, BinaryOp::Add));
            match left.as_ref() {
                Expression::Identifier(name, _) => assert_eq!(name, "x"),
                other => panic!("左操作数应为 Identifier(x)，实际为 {:?}", other),
            }
        }
        other => panic!("应为 Binary，实际为 {:?}", other),
    }
}

/// 嵌套 cast：`(A) (B) x` 内层仍是 cast
#[test]
fn test_nested_cast() {
    let expr = parse_expr("(A) (B) x").unwrap();
    match expr {
        Expression::Cast { target_type, expression, .. } => {
            match target_type {
                TypeRef::Simple { name, .. } => assert_eq!(name, "A"),
                other => panic!("外层目标应为 A，实际为 {:?}", other),
            }
            match expression.as_ref() {
                Expression::Cast { .. } => {}
                other => panic!("内层应为 Cast，实际为 {:?}", other),
            }
        }
        other => panic!("应为 Cast，实际为 {:?}", other),
    }
}

#[test]
fn repeated_modifier_is_reported_once_per_repeat() {
    let result = parse_source("static native static class A { }");
    let diags = result.err().expect("重复修饰符应报错");
    let messages: Vec<String> = diags.items.iter().map(|d| d.message.clone()).collect();
    assert_eq!(messages, vec!["重复的修饰符 `Static`".to_string()]);
}

#[test]
fn generic_parameters_and_dotted_namespace() {
    let ast = parse_source("namespace Game.Core.Items; class Pair<K, V> { }").unwrap();
    let ns = ast.namespace.unwrap();
    assert_eq!(ns.parts, vec!["Game".to_string(), "Core".to_string(), "Items".to_string()]);
    match &ast.members[0] {
        TopLevelMember::Class(c) => assert_eq!(c.generic_params, vec!["K".to_string(), "V".to_string()]),
        _ => panic!("应为类声明"),
    }
}

#[test]
fn dangling_dot_in_namespace_is_an_error() {
    assert!(parse_source("namespace Game.; class A { }").is_err());
    assert!(parse_source("class Pair<K, > { }").is_err());
}

#[test]
fn break_targets_mix_layers_and_keywords() {
    match parse_stmt("break 2 while;") {
        Statement::Break { targets, .. } => {
            assert_eq!(targets.len(), 2);
            assert!(matches!(targets[0], BreakTarget::ByLayer(2)));
            assert!(matches!(&targets[1], BreakTarget::ByKeyword(k) if k == "while"));
        }
        _ => panic!("应为 break 语句"),
    }
}

/// Parses a lone type and returns it with the position reached.
fn parse_type(source: &str) -> (Result<TypeRef, ()>, usize, usize) {
    let (tokens, _) = tokenize(source, 0);
    let n = tokens.len();
    let mut parser = Parser::new(tokens);
    let r = parser.parse_type_ref();
    let errors = parser.diagnostics().items.len();
    (r, n, errors)
}

#[test]
fn dotted_generic_type_with_suffixes() {
    let (r, _, errors) = parse_type("Game.List<int, Item[]>^[]");
    assert_eq!(errors, 0);
    match r.unwrap() {
        TypeRef::Array { element_type, .. } => match *element_type {
            TypeRef::Injector { base_type, .. } => match *base_type {
                TypeRef::Generic { name, type_args, .. } => {
                    assert_eq!(name, "Game.List");
                    assert_eq!(type_args.len(), 2);
                    assert!(matches!(&type_args[0], TypeRef::Simple { name, .. } if name == "int"));
                    match &type_args[1] {
                        TypeRef::Array { element_type, .. } => {
                            assert!(matches!(&**element_type, TypeRef::Simple { name, .. } if name == "Item"));
                        }
                        other => panic!("应为数组类型，实为 {:?}", other),
                    }
                }
                other => panic!("应为泛型类型，实为 {:?}", other),
            },
            other => panic!("应为注入器类型，实为 {:?}", other),
        },
        other => panic!("应为数组类型，实为 {:?}", other),
    }
}

#[test]
fn delegate_type_takes_colons_and_commas() {
    let (r, _, errors) = parse_type("delegate<void:int, string>");
    assert_eq!(errors, 0);
    match r.unwrap() {
        TypeRef::Delegate { return_type, param_types, .. } => {
            assert!(matches!(*return_type, TypeRef::Simple { ref name, .. } if name == "void"));
            assert_eq!(param_types.len(), 2);
            assert!(matches!(&param_types[1], TypeRef::Simple { name, .. } if name == "string"));
        }
        other => panic!("应为委托类型，实为 {:?}", other),
    }
}

#[test]
fn type_stops_before_a_dangling_dot() {
    let (tokens, _) = tokenize("A.B. 1", 0);
    let mut parser = Parser::new(tokens);
    match parser.parse_type_ref().unwrap() {
        TypeRef::Simple { name, .. } => assert_eq!(name, "A.B"),
        other => panic!("应为简单类型，实为 {:?}", other),
    }
    assert!(parser.diagnostics().items.is_empty());
}

#[test]
fn failed_type_reports_an_error() {
    let (r, _, errors) = parse_type("List<int");
    assert!(r.is_err());
    assert_eq!(errors, 1);
    let (r, _, errors) = parse_type("(");
    assert!(r.is_err());
    assert_eq!(errors, 1);
}

#[test]
fn assignment_to_injector_field_strips_caret() {
    match parse_expr("obj.^count = 3").unwrap() {
        Expression::Assignment { target, operator, .. } => {
            assert!(matches!(operator, AssignmentOp::Assign));
            match target {
                AssignmentTarget::InjectorField { field, .. } => assert_eq!(field, "count"),
                other => panic!("应为注入器字段，实为 {:?}", other),
            }
        }
        other => panic!("应为赋值，实为 {:?}", other),
    }
    assert!(parse_expr("1 = 2").is_err());
}

#[test]
fn binary_span_runs_from_left_to_right_operand() {
    match parse_expr("a + bb").unwrap() {
        Expression::Binary { span, .. } => {
            assert_eq!(span.start, 0);
            assert_eq!(span.end, 6);
        }
        other => panic!("应为二元表达式，实为 {:?}", other),
    }
}

#[test]
fn call_of_a_name_is_static_and_of_a_member_is_a_method_call() {
    match parse_expr("print(1)").unwrap() {
        Expression::StaticMethodCall { class_name, method, arguments, .. } => {
            assert_eq!(class_name, "");
            assert_eq!(method, "print");
            assert_eq!(arguments.len(), 1);
        }
        other => panic!("应为静态调用，实为 {:?}", other),
    }
    match parse_expr("a.b(1, 2)").unwrap() {
        Expression::MethodCall { method, arguments, .. } => {
            assert_eq!(method, "b");
            assert_eq!(arguments.len(), 2);
        }
        other => panic!("应为方法调用，实为 {:?}", other),
    }
}

#[test]
fn auto_declaration_has_type_var() {
    match parse_stmt("auto x = 1;") {
        Statement::VariableDeclaration { var_type, name, initializer, .. } => {
            assert!(matches!(var_type, TypeRef::Simple { ref name, .. } if name == "var"));
            assert_eq!(name, "x");
            assert!(initializer.is_some());
        }
        other => panic!("应为变量声明，实为 {:?}", other),
    }
    match parse_stmt("return;") {
        Statement::Return { value, .. } => assert!(value.is_none()),
        other => panic!("应为 return，实为 {:?}", other),
    }
}

#[test]
fn method_parameters_keep_types_and_names() {
    let ast = parse_source("class A { void f(int a, Game.Item[] items) { } }").unwrap();
    match &ast.members[0] {
        TopLevelMember::Class(c) => match &c.members[0] {
            ClassMember::Method(m) => {
                assert_eq!(m.name, "f");
                assert_eq!(m.parameters.len(), 2);
                assert_eq!(m.parameters[0].name, "a");
                assert!(matches!(&m.parameters[0].param_type, TypeRef::Simple { name, .. } if name == "int"));
                assert_eq!(m.parameters[1].name, "items");
                match &m.parameters[1].param_type {
                    TypeRef::Array { element_type, .. } => {
                        assert!(matches!(&**element_type, TypeRef::Simple { name, .. } if name == "Game.Item"));
                    }
                    other => panic!("应为数组类型，实为 {:?}", other),
                }
            }
            _ => panic!("应为方法"),
        },
        _ => panic!("应为类声明"),
    }
}

#[test]
fn injector_block_fields_in_order() {
    let ast = parse_source("class A injector { int count; string[] names; } { }").unwrap();
    match &ast.members[0] {
        TopLevelMember::Class(c) => {
            let inj = c.injector.as_ref().expect("应有注入器块");
            assert_eq!(inj.fields.len(), 2);
            assert_eq!(inj.fields[0].name, "count");
            assert_eq!(inj.fields[1].name, "names");
            assert!(matches!(&inj.fields[1].field_type, TypeRef::Array { .. }));
        }
        _ => panic!("应为类声明"),
    }
}

#[test]
fn parsed_namespace_always_has_a_name() {
    let ast = parse_source("namespace A.B; using C.D; class X { }").unwrap();
    assert_eq!(ast.namespace.unwrap().parts.len(), 2);
    assert_eq!(ast.usings.len(), 1);
    assert_eq!(ast.usings[0].name.parts, vec!["C".to_string(), "D".to_string()]);
}

#[test]
fn equal_binding_power_groups_to_the_left() {
    match parse_expr("a - b - c").unwrap() {
        Expression::Binary { left, operator, right, .. } => {
            assert!(matches!(operator, BinaryOp::Subtract));
            assert!(matches!(*left, Expression::Binary { operator: BinaryOp::Subtract, .. }));
            assert!(matches!(*right, Expression::Identifier(ref n, _) if n == "c"));
        }
        other => panic!("应为二元表达式，实为 {:?}", other),
    }
    match parse_expr("a * b + c * d").unwrap() {
        Expression::Binary { left, operator, right, .. } => {
            assert!(matches!(operator, BinaryOp::Add));
            assert!(matches!(*left, Expression::Binary { operator: BinaryOp::Multiply, .. }));
            assert!(matches!(*right, Expression::Binary { operator: BinaryOp::Multiply, .. }));
        }
        other => panic!("应为二元表达式，实为 {:?}", other),
    }
}

#[test]
fn new_array_keeps_its_size_first() {
    match parse_expr("new int[n + 1]").unwrap() {
        Expression::StaticMethodCall { class_name, method, arguments, .. } => {
            assert_eq!(class_name, "int");
            assert_eq!(method, "new_array");
            assert_eq!(arguments.len(), 1);
            assert!(matches!(&arguments[0], Expression::Binary { operator: BinaryOp::Add, .. }));
        }
        other => panic!("expected an array creation, got {:?}", other),
    }
}

#[test]
fn class_of_plain_fields_parses() {
    let file = parse_source("class Config { int count; int limit; }").unwrap();
    match &file.members[0] {
        TopLevelMember::Class(c) => {
            assert_eq!(c.name, "Config");
            assert_eq!(c.members.len(), 2);
        }
        _ => panic!("expected a class"),
    }
}

#[test]
fn statement_bodies_are_kept() {
    match parse_stmt("{ a = 1; b = 2; c = 3; }") {
        Statement::Block { statements, .. } => assert_eq!(statements.len(), 3),
        other => panic!("expected a block, got {:?}", other),
    }
    match parse_stmt("if (x) { a = 1; } else { b = 2; c = 3; }") {
        Statement::If { then_branch, else_branch, .. } => {
            assert!(matches!(*then_branch, Statement::Block { ref statements, .. } if statements.len() == 1));
            assert!(matches!(else_branch.as_deref(), Some(Statement::Block { statements, .. }) if statements.len() == 2));
        }
        other => panic!("expected an if, got {:?}", other),
    }
    match parse_stmt("for (int i = 0; i < n; i = i + 1) { s = s + i; }") {
        Statement::For { condition, update, body, .. } => {
            assert!(condition.is_some());
            assert!(update.is_some());
            assert!(matches!(*body, Statement::Block { ref statements, .. } if statements.len() == 1));
        }
        other => panic!("expected a for, got {:?}", other),
    }
    match parse_stmt("int total = 1 + 2;") {
        Statement::VariableDeclaration { name, initializer, .. } => {
            assert_eq!(name, "total");
            assert!(matches!(initializer, Some(Expression::Binary { operator: BinaryOp::Add, .. })));
        }
        other => panic!("expected a declaration, got {:?}", other),
    }
}

#[test]
fn typed_lambda_keeps_its_parameters() {
    match parse_expr("Handler:(int a, string b) -> a").unwrap() {
        Expression::Lambda { parameters, body, .. } => {
            assert_eq!(parameters.len(), 2);
            assert_eq!(parameters[0].name, "a");
            assert_eq!(parameters[1].name, "b");
            assert!(matches!(body, LambdaBody::Expression(_)));
        }
        other => panic!("expected a lambda, got {:?}", other),
    }
}

#[test]
fn plain_using_is_kept_with_its_names() {
    let file = parse_source("using Game.Core; using Util; class App { int x; }").unwrap();
    assert_eq!(file.usings.len(), 2);
    assert_eq!(file.usings[0].name.parts, vec!["Game".to_string(), "Core".to_string()]);
    assert!(file.usings[0].alias.is_none());
    assert_eq!(file.usings[1].name.parts, vec!["Util".to_string()]);
    assert_eq!(file.members.len(), 1);
}
