use gorge_compiler::ast::{Expression, Literal, Modifier};
use gorge_compiler::cancellation::{CancellationToken, CompileError};
use gorge_compiler::compiler::{
    bump_frozen_type_count, literal_to_string, modifier_name, type_info_eq, FieldOffsetCounters,
    ValueType,
};
use gorge_compiler::progress::{
    format_progress, CompileProgress, ConsoleReporter, ProgressReporter, SilentReporter,
};
use gorge_compiler::span::Span;
use gorge_compiler::symbol::{ClassId, EnumId, FrozenTypeCount, TypeInfo};
use gorge_compiler::text::simple_name;

fn sp() -> Span {
    Span::new(0, 1, 1, 1, 0)
}

#[test]
fn field_offsets_count_per_kind() {
    let mut c = FieldOffsetCounters::new();
    assert_eq!(c.next(ValueType::Int), 0);
    assert_eq!(c.next(ValueType::Float), 0);
    assert_eq!(c.next(ValueType::Int), 1);
    assert_eq!(c.next(ValueType::Object), 0);
    assert_eq!(c.next(ValueType::Int), 2);
    assert_eq!(c.int_offset, 3);
    assert_eq!(c.string_offset, 0);
}

#[test]
fn modifier_words() {
    assert_eq!(modifier_name(Modifier::Native), "native");
    assert_eq!(modifier_name(Modifier::Static), "static");
    assert_eq!(modifier_name(Modifier::Abstract), "abstract");
    assert_eq!(modifier_name(Modifier::Injector), "injector");
}

#[test]
fn signature_type_equality() {
    assert!(type_info_eq(&TypeInfo::Int, &TypeInfo::Int));
    assert!(!type_info_eq(&TypeInfo::Int, &TypeInfo::Float));
    assert!(type_info_eq(&TypeInfo::Object(ClassId(2)), &TypeInfo::Object(ClassId(2))));
    assert!(!type_info_eq(&TypeInfo::Object(ClassId(2)), &TypeInfo::Object(ClassId(3))));
    let a = TypeInfo::Array(Box::new(TypeInfo::Int));
    let b = TypeInfo::Array(Box::new(TypeInfo::Int));
    let c = TypeInfo::Array(Box::new(TypeInfo::Float));
    assert!(type_info_eq(&a, &b));
    assert!(type_info_eq(&b, &a));
    assert!(!type_info_eq(&a, &c));
    let d1 = TypeInfo::Delegate { return_type: Box::new(TypeInfo::Void), param_types: vec![TypeInfo::Int] };
    let d2 = TypeInfo::Delegate { return_type: Box::new(TypeInfo::Void), param_types: vec![TypeInfo::Int] };
    let d3 = TypeInfo::Delegate { return_type: Box::new(TypeInfo::Void), param_types: vec![] };
    assert!(type_info_eq(&d1, &d2));
    assert!(!type_info_eq(&d1, &d3));
    let g1 = TypeInfo::GenericInstance { base: Box::new(TypeInfo::Object(ClassId(1))), type_args: vec![TypeInfo::Int] };
    let g2 = TypeInfo::GenericInstance { base: Box::new(TypeInfo::Object(ClassId(1))), type_args: vec![TypeInfo::Int] };
    assert!(type_info_eq(&g1, &g2));
}

#[test]
fn frozen_counts_by_kind() {
    let mut tc = FrozenTypeCount::default();
    bump_frozen_type_count(&mut tc, &TypeInfo::Int);
    bump_frozen_type_count(&mut tc, &TypeInfo::Enum(EnumId(0)));
    bump_frozen_type_count(&mut tc, &TypeInfo::String);
    bump_frozen_type_count(&mut tc, &TypeInfo::Array(Box::new(TypeInfo::Int)));
    bump_frozen_type_count(&mut tc, &TypeInfo::Unresolved);
    assert_eq!(tc, FrozenTypeCount { int: 2, float: 0, bool: 0, string: 1, object: 2 });
}

#[test]
fn literal_texts() {
    assert_eq!(literal_to_string(&Expression::Literal(Literal::Int(-42), sp())), "-42");
    assert_eq!(literal_to_string(&Expression::Literal(Literal::Int(0), sp())), "0");
    assert_eq!(
        literal_to_string(&Expression::Literal(Literal::Int(i64::MIN), sp())),
        "-9223372036854775808"
    );
    assert_eq!(literal_to_string(&Expression::Literal(Literal::Bool(true), sp())), "true");
    assert_eq!(literal_to_string(&Expression::Literal(Literal::Bool(false), sp())), "false");
    assert_eq!(
        literal_to_string(&Expression::Literal(Literal::String("hi".to_string()), sp())),
        "hi"
    );
    assert_eq!(
        literal_to_string(&Expression::Literal(Literal::Float("1.25".to_string()), sp())),
        "1.25"
    );
    assert_eq!(literal_to_string(&Expression::Identifier("x".to_string(), sp())), "");
}

#[test]
fn simple_names() {
    assert_eq!(simple_name("Dremu.Core.Note"), "Note");
    assert_eq!(simple_name("Note"), "Note");
    assert_eq!(simple_name("a."), "");
    assert_eq!(simple_name(""), "");
}

#[test]
fn progress_lines() {
    let p = CompileProgress { current_step: 2, total_steps: 4, description: "pass two".to_string() };
    assert_eq!(format_progress(&p), "[2/4] pass two");
    let q = CompileProgress { current_step: 10, total_steps: 120, description: String::new() };
    assert_eq!(format_progress(&q), "[10/120] ");
    SilentReporter.report(&p);
    ConsoleReporter.report(&p);
}

#[test]
fn cancellation_is_shared_by_clones() {
    let t = CancellationToken::new();
    let u = t.clone();
    assert!(!t.is_cancelled());
    u.cancel();
    assert!(t.is_cancelled());
    assert_ne!(CompileError::Cancelled, CompileError::CompilationFailed);
}
