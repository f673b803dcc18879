use gorge_compiler::ast::{
    Annotation, ClassDeclaration, ClassMember, ConstructorDeclaration, Expression,
    FieldDeclaration, InjectorDeclaration, InjectorField, InterfaceDeclaration, Literal,
    MetadataEntry, MethodDeclaration, MethodSignature, Modifier, Parameter, SourceFile,
    TopLevelMember, TypeRef,
};
use gorge_compiler::cancellation::{CancellationToken, CompileError};
use gorge_compiler::compiler::{Compiler, TaskKind, ValueType};
use gorge_compiler::span::Span;
use gorge_compiler::symbol::TypeInfo;

fn dummy_span() -> Span {
    Span::new(0, 1, 1, 1, 0)
}

fn empty_source() -> SourceFile {
    SourceFile { namespace: None, usings: vec![], members: vec![], span: dummy_span() }
}

fn simple(name: &str) -> TypeRef {
    TypeRef::simple(name.into(), dummy_span())
}

fn field(name: &str, ty: &str) -> ClassMember {
    ClassMember::Field(FieldDeclaration {
        annotations: vec![],
        modifiers: vec![],
        field_type: simple(ty),
        name: name.into(),
        initializer: None,
        span: dummy_span(),
    })
}

fn class(name: &str, super_class: Option<&str>, members: Vec<ClassMember>) -> ClassDeclaration {
    ClassDeclaration {
        annotations: vec![],
        modifiers: vec![],
        name: name.into(),
        generic_params: vec![],
        super_class: super_class.map(simple),
        super_interfaces: vec![],
        members,
        injector: None,
        span: dummy_span(),
    }
}

fn messages(c: &Compiler) -> Vec<String> {
    c.diagnostics.items.iter().map(|d| d.message.clone()).collect()
}

fn offsets_of(c: &Compiler, class_name: &str) -> Vec<(String, usize)> {
    let cid = c.symbol_table.lookup_class(c.symbol_table.global_scope, class_name).unwrap();
    c.symbol_table
        .classes
        .get(cid.0)
        .fields
        .iter()
        .map(|fid| {
            let fi = c.symbol_table.fields.get(fid.0);
            (fi.name.clone(), fi.offset.unwrap())
        })
        .collect()
}

#[test]
fn test_pass3_field_declaration() {
    let source = SourceFile {
        members: vec![TopLevelMember::Class(ClassDeclaration {
            annotations: vec![],
            modifiers: vec![],
            name: "Point".into(),
            generic_params: vec![],
            super_class: None,
            super_interfaces: vec![],
            members: vec![
                ClassMember::Field(FieldDeclaration {
                    annotations: vec![],
                    modifiers: vec![],
                    field_type: TypeRef::simple("int".into(), dummy_span()),
                    name: "x".into(),
                    initializer: Some(Expression::Literal(Literal::Int(0), dummy_span())),
                    span: dummy_span(),
                }),
                ClassMember::Field(FieldDeclaration {
                    annotations: vec![],
                    modifiers: vec![],
                    field_type: TypeRef::simple("int".into(), dummy_span()),
                    name: "y".into(),
                    initializer: None,
                    span: dummy_span(),
                }),
            ],
            injector: None,
            span: dummy_span(),
        })],
        ..empty_source()
    };

    let mut compiler = Compiler::new();
    compiler.declare_types(&[source]).unwrap();

    let class_id = compiler
        .symbol_table
        .lookup_class(compiler.symbol_table.global_scope, "Point")
        .unwrap();
    let info = compiler.symbol_table.classes.get(class_id.0);
    assert_eq!(info.fields.len(), 2, "Point 应该有 2 个字段");

    let field_init_tasks: Vec<_> = compiler
        .tasks
        .iter()
        .filter(|t| matches!(t.kind, TaskKind::FieldInitializer { .. }))
        .collect();
    assert_eq!(field_init_tasks.len(), 1, "字段 x 有初始化器，应产生 1 个任务");
}

#[test]
fn test_pass3_method_declaration() {
    let source = SourceFile {
        members: vec![TopLevelMember::Class(ClassDeclaration {
            annotations: vec![],
            modifiers: vec![],
            name: "Calculator".into(),
            generic_params: vec![],
            super_class: None,
            super_interfaces: vec![],
            members: vec![ClassMember::Method(MethodDeclaration {
                annotations: vec![],
                modifiers: vec![],
                return_type: TypeRef::simple("int".into(), dummy_span()),
                name: "add".into(),
                parameters: vec![
                    Parameter {
                        name: "a".into(),
                        param_type: TypeRef::simple("int".into(), dummy_span()),
                        span: dummy_span(),
                    },
                    Parameter {
                        name: "b".into(),
                        param_type: TypeRef::simple("int".into(), dummy_span()),
                        span: dummy_span(),
                    },
                ],
                body: Some(vec![]),
                span: dummy_span(),
            })],
            injector: None,
            span: dummy_span(),
        })],
        ..empty_source()
    };

    let mut compiler = Compiler::new();
    compiler.declare_types(&[source]).unwrap();

    let class_id = compiler
        .symbol_table
        .lookup_class(compiler.symbol_table.global_scope, "Calculator")
        .unwrap();
    let class_scope = compiler.symbol_table.classes.get(class_id.0).scope_id;
    let methods = compiler.symbol_table.lookup_method(class_scope, "add");
    assert_eq!(methods.len(), 1);

    let method_info = compiler.symbol_table.methods.get(methods[0].0);
    assert_eq!(method_info.parameters.len(), 2);
    assert!(method_info.body_scope_id.is_some(), "有方法体的方法应有 body scope");

    let method_tasks: Vec<_> = compiler
        .tasks
        .iter()
        .filter(|t| matches!(t.kind, TaskKind::Method { .. }))
        .collect();
    assert_eq!(method_tasks.len(), 1);
}

#[test]
fn test_pass3_native_method_no_task() {
    let source = SourceFile {
        members: vec![TopLevelMember::Class(ClassDeclaration {
            annotations: vec![],
            modifiers: vec![Modifier::Native],
            name: "Console".into(),
            generic_params: vec![],
            super_class: None,
            super_interfaces: vec![],
            members: vec![ClassMember::Method(MethodDeclaration {
                annotations: vec![],
                modifiers: vec![],
                return_type: TypeRef::simple("void".into(), dummy_span()),
                name: "print".into(),
                parameters: vec![],
                body: None,
                span: dummy_span(),
            })],
            injector: None,
            span: dummy_span(),
        })],
        ..empty_source()
    };

    let mut compiler = Compiler::new();
    compiler.declare_types(&[source]).unwrap();

    assert!(compiler.tasks.is_empty());
}

#[test]
fn test_pass3_constructor_declaration() {
    let source = SourceFile {
        members: vec![TopLevelMember::Class(ClassDeclaration {
            annotations: vec![],
            modifiers: vec![],
            name: "Person".into(),
            generic_params: vec![],
            super_class: None,
            super_interfaces: vec![],
            members: vec![ClassMember::Constructor(ConstructorDeclaration {
                annotations: vec![],
                modifiers: vec![],
                parameters: vec![Parameter {
                    name: "name".into(),
                    param_type: TypeRef::simple("string".into(), dummy_span()),
                    span: dummy_span(),
                }],
                base_arguments: vec![],
                body: Some(vec![]),
                span: dummy_span(),
            })],
            injector: None,
            span: dummy_span(),
        })],
        ..empty_source()
    };

    let mut compiler = Compiler::new();
    compiler.declare_types(&[source]).unwrap();

    let class_id = compiler
        .symbol_table
        .lookup_class(compiler.symbol_table.global_scope, "Person")
        .unwrap();
    let info = compiler.symbol_table.classes.get(class_id.0);
    assert_eq!(info.constructors.len(), 1);

    let ctor_tasks: Vec<_> = compiler
        .tasks
        .iter()
        .filter(|t| matches!(t.kind, TaskKind::Constructor { .. }))
        .collect();
    assert_eq!(ctor_tasks.len(), 1);
}

#[test]
fn test_pass3_interface_method_signatures() {
    let source = SourceFile {
        members: vec![TopLevelMember::Interface(InterfaceDeclaration {
            annotations: vec![],
            modifiers: vec![],
            name: "IComparable".into(),
            super_interfaces: vec![],
            methods: vec![MethodSignature {
                annotations: vec![],
                return_type: TypeRef::simple("bool".into(), dummy_span()),
                name: "compare".into(),
                parameters: vec![Parameter {
                    name: "other".into(),
                    param_type: TypeRef::simple("object".into(), dummy_span()),
                    span: dummy_span(),
                }],
                span: dummy_span(),
            }],
            span: dummy_span(),
        })],
        ..empty_source()
    };

    let mut compiler = Compiler::new();
    compiler.declare_types(&[source]).unwrap();

    let iface_id = compiler
        .symbol_table
        .lookup_interface(compiler.symbol_table.global_scope, "IComparable")
        .unwrap();
    let info = compiler.symbol_table.interfaces.get(iface_id.0);
    assert_eq!(info.methods.len(), 1);
}

#[test]
fn test_pass3_field_offset_allocation() {
    let source = SourceFile {
        members: vec![TopLevelMember::Class(ClassDeclaration {
            annotations: vec![],
            modifiers: vec![],
            name: "Vector3".into(),
            generic_params: vec![],
            super_class: None,
            super_interfaces: vec![],
            members: vec![field("x", "float"), field("y", "float"), field("z", "float")],
            injector: None,
            span: dummy_span(),
        })],
        ..empty_source()
    };

    let mut compiler = Compiler::new();
    compiler.declare_types(&[source]).unwrap();

    let class_id = compiler
        .symbol_table
        .lookup_class(compiler.symbol_table.global_scope, "Vector3")
        .unwrap();
    let info = compiler.symbol_table.classes.get(class_id.0);

    for (i, &field_id) in info.fields.iter().enumerate() {
        let fi = compiler.symbol_table.fields.get(field_id.0);
        assert_eq!(fi.offset, Some(i), "字段 {} 偏移应为 {}", fi.name, i);
    }
}

#[test]
fn test_pass3_field_offset_by_value_type() {
    let source = SourceFile {
        members: vec![TopLevelMember::Class(ClassDeclaration {
            annotations: vec![],
            modifiers: vec![],
            name: "Mixed".into(),
            generic_params: vec![],
            super_class: None,
            super_interfaces: vec![],
            members: vec![
                field("a", "int"),
                field("b", "float"),
                field("c", "int"),
                field("d", "float"),
                field("e", "bool"),
            ],
            injector: None,
            span: dummy_span(),
        })],
        ..empty_source()
    };

    let mut compiler = Compiler::new();
    compiler.declare_types(&[source]).unwrap();

    let class_id = compiler
        .symbol_table
        .lookup_class(compiler.symbol_table.global_scope, "Mixed")
        .unwrap();
    let info = compiler.symbol_table.classes.get(class_id.0);

    let offsets: Vec<(&str, usize)> = info
        .fields
        .iter()
        .map(|&fid| {
            let fi = compiler.symbol_table.fields.get(fid.0);
            (fi.name.as_str(), fi.offset.unwrap())
        })
        .collect();

    let expected = vec![("a", 0), ("b", 0), ("c", 1), ("d", 1), ("e", 0)];

    assert_eq!(offsets.len(), expected.len(), "字段数量应匹配");
    for (&(name, offset), &(exp_name, exp_offset)) in offsets.iter().zip(expected.iter()) {
        assert_eq!(name, exp_name, "字段名应匹配");
        assert_eq!(offset, exp_offset, "字段 {} 的偏移应为 {}，实际为 {}", name, exp_offset, offset);
    }
}

#[test]
fn test_b1_constructor_with_static_rejected() {
    let class_decl = ClassDeclaration {
        annotations: vec![],
        modifiers: vec![],
        name: "Foo".into(),
        generic_params: vec![],
        super_class: None,
        super_interfaces: vec![],
        members: vec![ClassMember::Constructor(ConstructorDeclaration {
            annotations: vec![],
            modifiers: vec![Modifier::Static],
            parameters: vec![],
            base_arguments: vec![],
            body: Some(vec![]),
            span: dummy_span(),
        })],
        injector: None,
        span: dummy_span(),
    };
    let source = SourceFile { members: vec![TopLevelMember::Class(class_decl)], ..empty_source() };
    let mut compiler = Compiler::new();
    let _ = compiler.declare_types(&[source]);
    assert!(compiler.diagnostics.has_errors());
}

#[test]
fn test_b2_duplicate_field_rejected() {
    let source = SourceFile {
        members: vec![TopLevelMember::Class(ClassDeclaration {
            annotations: vec![],
            modifiers: vec![],
            name: "Foo".into(),
            generic_params: vec![],
            super_class: None,
            super_interfaces: vec![],
            members: vec![
                ClassMember::Field(FieldDeclaration {
                    annotations: vec![],
                    modifiers: vec![],
                    field_type: simple("int"),
                    name: "x".into(),
                    initializer: None,
                    span: dummy_span(),
                }),
                ClassMember::Field(FieldDeclaration {
                    annotations: vec![],
                    modifiers: vec![],
                    field_type: simple("int"),
                    name: "x".into(),
                    initializer: None,
                    span: dummy_span(),
                }),
            ],
            injector: None,
            span: dummy_span(),
        })],
        ..empty_source()
    };
    let mut compiler = Compiler::new();
    let _ = compiler.declare_types(&[source]);
    assert!(compiler.diagnostics.has_errors());
}

#[test]
fn test_injector_field_interface_rejected() {
    let source = SourceFile {
        members: vec![
            TopLevelMember::Interface(InterfaceDeclaration {
                annotations: vec![],
                modifiers: vec![],
                name: "IService".into(),
                super_interfaces: vec![],
                methods: vec![],
                span: dummy_span(),
            }),
            TopLevelMember::Class(ClassDeclaration {
                annotations: vec![],
                modifiers: vec![],
                name: "Consumer".into(),
                generic_params: vec![],
                super_class: None,
                super_interfaces: vec![],
                members: vec![],
                injector: Some(InjectorDeclaration {
                    fields: vec![InjectorField {
                        name: "svc".into(),
                        field_type: TypeRef::simple("IService".into(), dummy_span()),
                        span: dummy_span(),
                    }],
                    span: dummy_span(),
                }),
                span: dummy_span(),
            }),
        ],
        ..empty_source()
    };

    let mut compiler = Compiler::new();
    let _ = compiler.declare_types(&[source]);
    assert!(compiler.diagnostics.has_errors(), "注入器字段类型为接口时应报错");
}

#[test]
fn inherited_fields_shift_offsets_per_kind() {
    let base = class("Base", None, vec![field("a", "int"), field("b", "string"), field("c", "int")]);
    let derived = class("Derived", Some("Base"), vec![field("d", "int"), field("e", "bool"), field("f", "string")]);
    let source = SourceFile {
        members: vec![TopLevelMember::Class(base), TopLevelMember::Class(derived)],
        ..empty_source()
    };
    let mut c = Compiler::new();
    c.declare_types(&[source]).unwrap();
    assert_eq!(
        offsets_of(&c, "Base"),
        vec![("a".to_string(), 0), ("b".to_string(), 0), ("c".to_string(), 1)]
    );
    assert_eq!(
        offsets_of(&c, "Derived"),
        vec![("d".to_string(), 2), ("e".to_string(), 0), ("f".to_string(), 1)]
    );
}

#[test]
fn enum_and_class_fields_count_as_their_kinds() {
    let mut holder = class("Holder", None, vec![field("p", "Other"), field("q", "Other"), field("r", "float")]);
    holder.members.push(field("s", "object"));
    let other = class("Other", None, vec![]);
    let source = SourceFile {
        members: vec![TopLevelMember::Class(other), TopLevelMember::Class(holder)],
        ..empty_source()
    };
    let mut c = Compiler::new();
    c.declare_types(&[source]).unwrap();
    assert_eq!(
        offsets_of(&c, "Holder"),
        vec![
            ("p".to_string(), 0),
            ("q".to_string(), 1),
            ("r".to_string(), 0),
            ("s".to_string(), 2),
        ]
    );
}

#[test]
fn member_errors_are_reported_in_order() {
    let bad_field = ClassMember::Field(FieldDeclaration {
        annotations: vec![],
        modifiers: vec![Modifier::Static],
        field_type: simple("Missing"),
        name: "x".into(),
        initializer: None,
        span: dummy_span(),
    });
    let again = field("x", "int");
    let method = ClassMember::Method(MethodDeclaration {
        annotations: vec![],
        modifiers: vec![Modifier::Static, Modifier::Native],
        return_type: simple("void"),
        name: "run".into(),
        parameters: vec![Parameter { name: "p".into(), param_type: simple("Nope"), span: dummy_span() }],
        body: None,
        span: dummy_span(),
    });
    let ctor = ClassMember::Constructor(ConstructorDeclaration {
        annotations: vec![],
        modifiers: vec![Modifier::Injector, Modifier::Abstract],
        parameters: vec![],
        base_arguments: vec![],
        body: None,
        span: dummy_span(),
    });
    let source = SourceFile {
        members: vec![TopLevelMember::Class(class("Foo", None, vec![bad_field, again, method, ctor]))],
        ..empty_source()
    };
    let mut c = Compiler::new();
    assert!(c.declare_types(&[source]).is_err());
    assert_eq!(
        messages(&c),
        vec![
            "未找到类型 `Missing`".to_string(),
            "字段 `x` 不允许使用修饰符 `static`".to_string(),
            "重复的字段声明 `x`".to_string(),
            "类方法 `run` 不允许使用修饰符 `native`，类方法只允许 `static`".to_string(),
            "未找到类型 `Nope`".to_string(),
            "构造方法不允许使用修饰符 `abstract`，构造方法只允许 `injector`".to_string(),
        ]
    );
    let cid = c.symbol_table.lookup_class(c.symbol_table.global_scope, "Foo").unwrap();
    let info = c.symbol_table.classes.get(cid.0);
    let first = c.symbol_table.fields.get(info.fields[0].0);
    assert!(matches!(first.field_type, TypeInfo::Unresolved));
    let m = c.symbol_table.methods.get(info.methods[0].0);
    assert!(m.is_static);
    assert!(m.body_scope_id.is_none());
    assert_eq!(c.class_injector_constructor_count, vec![(cid, 1)]);
}

#[test]
fn overloaded_methods_share_a_name() {
    let one = ClassMember::Method(MethodDeclaration {
        annotations: vec![],
        modifiers: vec![],
        return_type: simple("void"),
        name: "bar".into(),
        parameters: vec![],
        body: Some(vec![]),
        span: dummy_span(),
    });
    let two = ClassMember::Method(MethodDeclaration {
        annotations: vec![],
        modifiers: vec![],
        return_type: simple("void"),
        name: "bar".into(),
        parameters: vec![Parameter { name: "x".into(), param_type: simple("int"), span: dummy_span() }],
        body: Some(vec![]),
        span: dummy_span(),
    });
    let source = SourceFile {
        members: vec![TopLevelMember::Class(class("Foo", None, vec![one, two]))],
        ..empty_source()
    };
    let mut c = Compiler::new();
    c.declare_types(&[source]).unwrap();
    let cid = c.symbol_table.lookup_class(c.symbol_table.global_scope, "Foo").unwrap();
    let scope = c.symbol_table.classes.get(cid.0).scope_id;
    assert_eq!(c.symbol_table.lookup_method(scope, "bar").len(), 2);
    assert_eq!(c.tasks.len(), 2);
}

#[test]
fn generic_parameters_name_member_types() {
    let mut decl = class(
        "ObjectArray",
        None,
        vec![
            field("first", "TItem"),
            ClassMember::Field(FieldDeclaration {
                annotations: vec![],
                modifiers: vec![],
                field_type: TypeRef::Array { element_type: Box::new(simple("TItem")), span: dummy_span() },
                name: "items".into(),
                initializer: None,
                span: dummy_span(),
            }),
        ],
    );
    decl.generic_params = vec!["TItem".into()];
    decl.modifiers = vec![Modifier::Native];
    let source = SourceFile { members: vec![TopLevelMember::Class(decl)], ..empty_source() };
    let mut c = Compiler::new();
    c.declare_types(&[source]).unwrap();
    let cid = c.symbol_table.lookup_class(c.symbol_table.global_scope, "ObjectArray").unwrap();
    let info = c.symbol_table.classes.get(cid.0);
    let first = c.symbol_table.fields.get(info.fields[0].0);
    assert!(matches!(&first.field_type, TypeInfo::GenericParam(n) if n == "TItem"));
    let items = c.symbol_table.fields.get(info.fields[1].0);
    assert!(matches!(&items.field_type, TypeInfo::Array(inner) if matches!(&**inner, TypeInfo::GenericParam(n) if n == "TItem")));
    assert!(c.current_generic_params.is_empty());
    assert!(info.declaration_frozen);
}

#[test]
fn injector_fields_come_from_inject_annotations_and_the_block() {
    let injected = ClassMember::Field(FieldDeclaration {
        annotations: vec![Annotation {
            name: "Inject".into(),
            generic_type: Some(simple("float")),
            arguments: vec![],
            metadatas: vec![MetadataEntry {
                type_text: "float".into(),
                name: "defaultValue".into(),
                value: Some(Expression::Literal(Literal::Int(3), dummy_span())),
            }],
            span: dummy_span(),
        }],
        modifiers: vec![],
        field_type: simple("int"),
        name: "speed".into(),
        initializer: None,
        span: dummy_span(),
    });
    let mut decl = class("Enemy", None, vec![injected]);
    decl.injector = Some(InjectorDeclaration {
        fields: vec![
            InjectorField { name: "hp".into(), field_type: simple("int"), span: dummy_span() },
            InjectorField { name: "target".into(), field_type: simple("Enemy"), span: dummy_span() },
        ],
        span: dummy_span(),
    });
    let source = SourceFile { members: vec![TopLevelMember::Class(decl)], ..empty_source() };
    let mut c = Compiler::new();
    c.declare_types(&[source]).unwrap();
    assert_eq!(c.injector_fields.len(), 1);
    let (name, defs) = &c.injector_fields[0];
    assert_eq!(name, "Enemy");
    let views: Vec<(String, ValueType, bool)> =
        defs.iter().map(|d| (d.name.clone(), d.value_type, d.has_default)).collect();
    assert_eq!(
        views,
        vec![
            ("speed".to_string(), ValueType::Float, true),
            ("hp".to_string(), ValueType::Int, true),
            ("target".to_string(), ValueType::Object, true),
        ]
    );
}

#[test]
fn frozen_class_takes_no_more_members() {
    let first = class("Foo", None, vec![field("a", "int")]);
    let mut compiler = Compiler::new();
    compiler
        .declare_types(&[SourceFile { members: vec![TopLevelMember::Class(first)], ..empty_source() }])
        .unwrap();
    let second = class("Foo", None, vec![field("b", "int")]);
    let source = SourceFile { members: vec![TopLevelMember::Class(second)], ..empty_source() };
    let r = compiler.pass3_type_declaration(&[source]);
    assert!(r.is_err());
    assert_eq!(messages(&compiler), vec!["类 `Foo` 的声明已冻结，不允许再添加成员".to_string()]);
    assert_eq!(offsets_of(&compiler, "Foo"), vec![("a".to_string(), 0)]);
}

fn simple_method(name: &str) -> ClassMember {
    ClassMember::Method(MethodDeclaration {
        annotations: vec![],
        modifiers: vec![],
        return_type: TypeRef::simple("int".into(), dummy_span()),
        name: name.into(),
        parameters: vec![],
        body: Some(vec![]),
        span: dummy_span(),
    })
}

#[test]
fn test_freeze_inheritance_numbering() {
    let source = SourceFile {
        members: vec![
            TopLevelMember::Class(ClassDeclaration {
                annotations: vec![],
                modifiers: vec![],
                name: "Base".into(),
                generic_params: vec![],
                super_class: None,
                super_interfaces: vec![],
                members: vec![simple_method("methodA"), simple_method("methodB")],
                injector: None,
                span: dummy_span(),
            }),
            TopLevelMember::Class(ClassDeclaration {
                annotations: vec![],
                modifiers: vec![],
                name: "Derived".into(),
                generic_params: vec![],
                super_class: Some(TypeRef::simple("Base".into(), dummy_span())),
                super_interfaces: vec![],
                members: vec![simple_method("methodB"), simple_method("methodC")],
                injector: None,
                span: dummy_span(),
            }),
        ],
        ..empty_source()
    };

    let mut compiler = Compiler::new();
    compiler.declare_types(&[source]).unwrap();

    let g = compiler.symbol_table.global_scope;
    let base_id = compiler.symbol_table.lookup_class(g, "Base").unwrap();
    let derived_id = compiler.symbol_table.lookup_class(g, "Derived").unwrap();
    let base = compiler.symbol_table.classes.get(base_id.0);
    let derived = compiler.symbol_table.classes.get(derived_id.0);

    assert_eq!(base.method_start_id, 0, "Base 起始编号应为 0");
    assert_eq!(base.method_count_total, 2, "Base 方法总数应为 2");
    assert_eq!(derived.method_start_id, 2, "Derived 起始编号应为 2");
    assert_eq!(derived.method_count_total, 4, "Derived 方法总数应为 4");
    assert_eq!(derived.method_override_id.get(&1), Some(&2), "重写映射应为 1→2");
    assert_eq!(derived.method_override_id.len(), 1, "只应有一个重写映射");
}

#[test]
fn test_freeze_inheritance_fields() {
    let source = SourceFile {
        members: vec![
            TopLevelMember::Class(ClassDeclaration {
                annotations: vec![],
                modifiers: vec![],
                name: "Base".into(),
                generic_params: vec![],
                super_class: None,
                super_interfaces: vec![],
                members: vec![field("a", "int"), field("b", "float")],
                injector: None,
                span: dummy_span(),
            }),
            TopLevelMember::Class(ClassDeclaration {
                annotations: vec![],
                modifiers: vec![],
                name: "Derived".into(),
                generic_params: vec![],
                super_class: Some(TypeRef::simple("Base".into(), dummy_span())),
                super_interfaces: vec![],
                members: vec![field("c", "int"), field("d", "float")],
                injector: None,
                span: dummy_span(),
            }),
        ],
        ..empty_source()
    };

    let mut compiler = Compiler::new();
    compiler.declare_types(&[source]).unwrap();

    let g = compiler.symbol_table.global_scope;
    let derived_id = compiler.symbol_table.lookup_class(g, "Derived").unwrap();
    let derived = compiler.symbol_table.classes.get(derived_id.0);

    assert_eq!(derived.field_start_type_count.int, 1, "Derived int 字段起始应为 1");
    assert_eq!(derived.field_start_type_count.float, 1, "Derived float 字段起始应为 1");
    assert_eq!(derived.field_type_count_total.int, 2, "int 字段总数应为 2");
    assert_eq!(derived.field_type_count_total.float, 2, "float 字段总数应为 2");
}

fn foo_with_method() -> SourceFile {
    SourceFile {
        members: vec![TopLevelMember::Class(ClassDeclaration {
            annotations: vec![],
            modifiers: vec![],
            name: "Foo".into(),
            generic_params: vec![],
            super_class: None,
            super_interfaces: vec![],
            members: vec![simple_method("m")],
            injector: None,
            span: dummy_span(),
        })],
        ..empty_source()
    }
}

#[test]
fn test_freeze_inheritance_requires_declaration_frozen() {
    let mut compiler = Compiler::new();
    compiler.pass1_type_identifier(&[foo_with_method()]).unwrap();
    compiler.pass3_type_declaration(&[foo_with_method()]).unwrap();
    let g = compiler.symbol_table.global_scope;
    let cid = compiler.symbol_table.lookup_class(g, "Foo").unwrap();
    compiler.symbol_table.classes.get_mut(cid.0).declaration_frozen = false;
    compiler.freeze_inheritance();
    assert!(compiler.diagnostics.has_errors(), "声明未冻结时应报错");
}

#[test]
fn unfrozen_class_is_named_and_nothing_is_numbered() {
    let mut compiler = Compiler::new();
    compiler.pass1_type_identifier(&[foo_with_method()]).unwrap();
    compiler.freeze_inheritance();
    assert_eq!(messages(&compiler), vec!["类 `Foo` 声明尚未冻结，不能进行继承编号冻结".to_string()]);
    let cid = compiler.symbol_table.lookup_class(compiler.symbol_table.global_scope, "Foo").unwrap();
    assert!(!compiler.symbol_table.classes.get(cid.0).inheritance_frozen);
}

#[test]
fn three_level_chain_numbers_after_each_parent() {
    let a = class("A", None, vec![simple_method("one"), field("x", "int")]);
    let b = class("B", Some("A"), vec![simple_method("two"), simple_method("one"), field("y", "string")]);
    let c = class("C", Some("B"), vec![simple_method("three"), field("z", "int")]);
    // The subclass is listed first: the freeze still takes parents first.
    let source = SourceFile {
        members: vec![TopLevelMember::Class(c), TopLevelMember::Class(b), TopLevelMember::Class(a)],
        ..empty_source()
    };
    let mut compiler = Compiler::new();
    compiler.declare_types(&[source]).unwrap();
    let g = compiler.symbol_table.global_scope;
    let get = |n: &str| {
        let id = compiler.symbol_table.lookup_class(g, n).unwrap();
        compiler.symbol_table.classes.get(id.0)
    };
    let (a, b, c) = (get("A"), get("B"), get("C"));
    assert_eq!((a.method_start_id, a.method_count_total), (0, 1));
    assert_eq!((b.method_start_id, b.method_count_total), (1, 3));
    assert_eq!((c.method_start_id, c.method_count_total), (3, 4));
    assert_eq!(b.method_override_id.get(&0), Some(&2));
    assert_eq!(b.method_override_id.len(), 1);
    assert!(c.method_override_id.is_empty());
    assert_eq!(c.field_start_type_count.int, 1);
    assert_eq!(c.field_start_type_count.string, 1);
    assert_eq!(c.field_type_count_total.int, 2);
    assert!(a.inheritance_frozen && b.inheritance_frozen && c.inheritance_frozen);
    // Offsets count every inherited field, whatever the order of the
    // declarations: A's `x` comes before C's `z` among the ints.
    assert_eq!(offsets_of(&compiler, "C"), vec![("z".to_string(), 1)]);
    assert_eq!(offsets_of(&compiler, "B"), vec![("y".to_string(), 0)]);
}

#[test]
fn cyclic_inheritance_is_reported() {
    let a = class("A", Some("B"), vec![]);
    let b = class("B", Some("A"), vec![]);
    let source = SourceFile {
        members: vec![TopLevelMember::Class(a), TopLevelMember::Class(b)],
        ..empty_source()
    };
    let mut compiler = Compiler::new();
    assert!(compiler.declare_types(&[source]).is_err());
    assert_eq!(
        messages(&compiler),
        vec![
            "类 `A` 存在循环继承（自身出现在父类链中）".to_string(),
            "类 `B` 存在循环继承（自身出现在父类链中）".to_string(),
        ]
    );
}

#[test]
fn interface_methods_map_to_their_implementations() {
    let shape = TopLevelMember::Interface(InterfaceDeclaration {
        annotations: vec![],
        modifiers: vec![],
        name: "IShape".into(),
        super_interfaces: vec![],
        methods: vec![
            MethodSignature {
                annotations: vec![],
                return_type: simple("int"),
                name: "area".into(),
                parameters: vec![],
                span: dummy_span(),
            },
            MethodSignature {
                annotations: vec![],
                return_type: simple("int"),
                name: "scale".into(),
                parameters: vec![Parameter { name: "k".into(), param_type: simple("int"), span: dummy_span() }],
                span: dummy_span(),
            },
        ],
        span: dummy_span(),
    });
    let base = class("Base", None, vec![simple_method("area")]);
    let mut square = class("Square", Some("Base"), vec![simple_method("scale")]);
    square.super_interfaces = vec![simple("IShape")];
    let source = SourceFile {
        members: vec![shape, TopLevelMember::Class(base), TopLevelMember::Class(square)],
        ..empty_source()
    };
    let mut compiler = Compiler::new();
    assert!(compiler.declare_types(&[source]).is_err());
    assert_eq!(messages(&compiler), vec!["没有实现 IShape 接口的 scale 方法".to_string()]);
}

#[test]
fn complete_interface_implementation_is_recorded() {
    let iface = TopLevelMember::Interface(InterfaceDeclaration {
        annotations: vec![],
        modifiers: vec![],
        name: "IRun".into(),
        super_interfaces: vec![],
        methods: vec![MethodSignature {
            annotations: vec![],
            return_type: simple("int"),
            name: "run".into(),
            parameters: vec![],
            span: dummy_span(),
        }],
        span: dummy_span(),
    });
    let mut runner = class("Runner", None, vec![simple_method("stop"), simple_method("run")]);
    runner.super_interfaces = vec![simple("IRun")];
    let source = SourceFile { members: vec![iface, TopLevelMember::Class(runner)], ..empty_source() };
    let mut compiler = Compiler::new();
    compiler.declare_types(&[source]).unwrap();
    let cid = compiler.symbol_table.lookup_class(compiler.symbol_table.global_scope, "Runner").unwrap();
    let info = compiler.symbol_table.classes.get(cid.0);
    assert_eq!(info.interface_method_impl_id.get("IRun"), Some(&vec![1usize]));
}

fn parse_text(source_text: &str) -> SourceFile {
    let (tokens, _) = gorge_compiler::lexer::tokenize(source_text, 0);
    let mut parser = gorge_compiler::parser::Parser::new(tokens);
    parser.parse_source_file().unwrap()
}

#[test]
fn test_constructor_parse_to_compile_task() {
    let source_text = r#"
class Point {
    int x;
    int y;
    Point(int x, int y) {
        this.x = x;
        this.y = y;
    }
}
"#;
    let source_file = parse_text(source_text);

    let mut compiler = Compiler::new();
    compiler.pass1_type_identifier(std::slice::from_ref(&source_file)).unwrap();
    compiler.pass2_type_extension(std::slice::from_ref(&source_file)).unwrap();
    compiler.pass3_type_declaration(&[source_file]).unwrap();

    let class_id = compiler
        .symbol_table
        .lookup_class(compiler.symbol_table.global_scope, "Point")
        .unwrap();
    let class_info = compiler.symbol_table.classes.get(class_id.0);
    assert_eq!(class_info.constructors.len(), 1, "应有 1 个构造函数");

    let ctor_tasks: Vec<_> = compiler
        .tasks
        .iter()
        .filter(|t| matches!(t.kind, TaskKind::Constructor { .. }))
        .collect();
    assert_eq!(ctor_tasks.len(), 1, "应有 1 个构造编译任务");

    let ctor_id = class_info.constructors[0];
    let ctor_info = compiler.symbol_table.constructors.get(ctor_id.0);
    assert_eq!(ctor_info.parameters.len(), 2, "构造函数应有 2 个参数");
}

#[test]
fn test_constructor_with_super_compile() {
    let source_text = r#"
class Animal {
    int age;
    Animal(int a) { age = a; }
}
class Dog : Animal {
    int weight;
    Dog(int w) : super(w) { weight = w; }
}
"#;
    let source_file = parse_text(source_text);

    assert_eq!(source_file.members.len(), 2, "应有两个类");

    match &source_file.members[1] {
        TopLevelMember::Class(dog) => {
            assert_eq!(dog.name, "Dog");
            assert!(matches!(&dog.super_class, Some(TypeRef::Simple { name, .. }) if name == "Animal"));

            let ctors: Vec<_> = dog
                .members
                .iter()
                .filter_map(|m| if let ClassMember::Constructor(c) = m { Some(c) } else { None })
                .collect();
            assert_eq!(ctors.len(), 1);
            assert_eq!(ctors[0].base_arguments.len(), 1, "super(w) 应有 1 个参数");

            match &ctors[0].base_arguments[0] {
                Expression::Identifier(name, _) => assert_eq!(name, "w"),
                _ => panic!("super 参数应为标识符 w"),
            }
        }
        _ => panic!("Dog 应为类声明"),
    }

    let mut compiler = Compiler::new();
    compiler.pass1_type_identifier(std::slice::from_ref(&source_file)).unwrap();
    compiler.pass2_type_extension(std::slice::from_ref(&source_file)).unwrap();
    compiler.pass3_type_declaration(&[source_file]).unwrap();

    let dog_id = compiler.symbol_table.lookup_class(compiler.symbol_table.global_scope, "Dog").unwrap();
    let dog_info = compiler.symbol_table.classes.get(dog_id.0);
    assert!(dog_info.super_class.is_some(), "Dog 应有父类");
    let animal_id = dog_info.super_class.unwrap();
    assert_eq!(compiler.symbol_table.classes.get(animal_id.0).name, "Animal");

    let animal_id2 =
        compiler.symbol_table.lookup_class(compiler.symbol_table.global_scope, "Animal").unwrap();
    let animal_info = compiler.symbol_table.classes.get(animal_id2.0);
    assert_eq!(animal_info.constructors.len(), 1);

    let all_ctor_tasks: Vec<_> = compiler
        .tasks
        .iter()
        .filter(|t| matches!(t.kind, TaskKind::Constructor { .. }))
        .collect();
    assert_eq!(all_ctor_tasks.len(), 2, "Animal + Dog 共 2 个构造任务");
}

#[test]
fn inferred_kinds_follow_the_operands() {
    let int = Expression::Literal(Literal::Int(1), dummy_span());
    let float = Expression::Literal(Literal::Float("2.5".into()), dummy_span());
    let sum = Expression::Binary {
        left: Box::new(int),
        operator: gorge_compiler::ast::BinaryOp::Add,
        right: Box::new(float),
        span: dummy_span(),
    };
    assert_eq!(Compiler::infer_expression_value_type(&sum), ValueType::Float);
    let neg = Expression::Unary {
        operator: gorge_compiler::ast::UnaryOp::Negate,
        operand: Box::new(Expression::Literal(Literal::Int(3), dummy_span())),
        span: dummy_span(),
    };
    assert_eq!(Compiler::infer_expression_value_type(&neg), ValueType::Int);
    let text = Expression::Literal(Literal::String("s".into()), dummy_span());
    assert_eq!(Compiler::infer_expression_value_type(&text), ValueType::String);
    let name = Expression::Identifier("x".into(), dummy_span());
    assert_eq!(Compiler::infer_expression_value_type(&name), ValueType::Object);
}

#[test]
fn cancellation_checkpoint() {
    assert_eq!(Compiler::check_cancelled(&None), Ok(()));
    let token = CancellationToken::new();
    assert_eq!(Compiler::check_cancelled(&Some(token.clone())), Ok(()));
    token.cancel();
    assert_eq!(Compiler::check_cancelled(&Some(token)), Err(CompileError::Cancelled));
}

#[test]
fn bodies_are_found_by_name_and_signature() {
    let by_int = ClassMember::Method(MethodDeclaration {
        annotations: vec![],
        modifiers: vec![],
        return_type: simple("void"),
        name: "put".into(),
        parameters: vec![Parameter { name: "v".into(), param_type: simple("int"), span: dummy_span() }],
        body: Some(vec![]),
        span: dummy_span(),
    });
    let by_text = ClassMember::Method(MethodDeclaration {
        annotations: vec![],
        modifiers: vec![],
        return_type: simple("void"),
        name: "put".into(),
        parameters: vec![Parameter { name: "v".into(), param_type: simple("string"), span: dummy_span() }],
        body: Some(vec![gorge_compiler::ast::Statement::Return { value: None, span: dummy_span() }]),
        span: dummy_span(),
    });
    let ctor = ClassMember::Constructor(ConstructorDeclaration {
        annotations: vec![],
        modifiers: vec![],
        parameters: vec![Parameter { name: "b".into(), param_type: simple("Box"), span: dummy_span() }],
        base_arguments: vec![],
        body: Some(vec![]),
        span: dummy_span(),
    });
    let decl = class("Box", None, vec![by_int, by_text, ctor]);
    let source = SourceFile { members: vec![TopLevelMember::Class(decl)], ..empty_source() };
    let mut c = Compiler::new();
    c.declare_types(std::slice::from_ref(&source)).unwrap();
    let decl = match &source.members[0] {
        TopLevelMember::Class(d) => d,
        _ => unreachable!(),
    };
    assert_eq!(c.find_method_body(decl, "put").map(|b| b.len()), Some(0));
    assert!(c.find_method_body(decl, "take").is_none());
    let cid = c.symbol_table.lookup_class(c.symbol_table.global_scope, "Box").unwrap();
    let info = c.symbol_table.classes.get(cid.0);
    let second = c.symbol_table.methods.get(info.methods[1].0);
    assert_eq!(c.find_matching_method_body(decl, second).map(|b| b.len()), Some(1));
    let k = c.symbol_table.constructors.get(info.constructors[0].0);
    assert!(c.find_matching_constructor_decl(decl, k).is_some());
    assert_eq!(c.find_constructor_body(decl).map(|b| b.len()), Some(0));
    assert!(c.find_constructor_decl(decl).is_some());
    assert!(c.type_ref_matches_type_info(&simple("Box"), &TypeInfo::Object(cid)));
    assert!(!c.type_ref_matches_type_info(&simple("int"), &TypeInfo::Float));
}

fn constructor(modifiers: Vec<Modifier>) -> ClassMember {
    ClassMember::Constructor(ConstructorDeclaration {
        annotations: vec![],
        modifiers,
        parameters: vec![],
        base_arguments: vec![],
        body: Some(vec![]),
        span: dummy_span(),
    })
}

#[test]
fn injector_constructors_map_to_global_constructor_numbers() {
    let source = SourceFile {
        members: vec![
            TopLevelMember::Class(class("Base", None, vec![constructor(vec![])])),
            TopLevelMember::Class(class(
                "Widget",
                Some("Base"),
                vec![
                    constructor(vec![Modifier::Injector]),
                    constructor(vec![]),
                    constructor(vec![Modifier::Injector]),
                ],
            )),
        ],
        ..empty_source()
    };
    let mut c = Compiler::new();
    assert!(c.declare_types(&[source]).is_ok(), "{:?}", messages(&c));
    // Base has no injector constructor; Widget's constructors are numbered
    // after Base's one, and its two injector constructors are the first and
    // the third of them.
    assert_eq!(c.injector_constructor_impl_id.len(), 1);
    assert_eq!(c.injector_constructor_impl_id[0].0, "Widget");
    assert_eq!(c.injector_constructor_impl_id[0].1, vec![1, 3]);
}

#[test]
fn cancellation_outcome_follows_the_flag() {
    assert_eq!(Compiler::cancellation_outcome(true), Err(CompileError::Cancelled));
    assert_eq!(Compiler::cancellation_outcome(false), Ok(()));
}

#[test]
fn subclass_declared_before_super_class_counts_its_fields() {
    let source = SourceFile {
        members: vec![
            TopLevelMember::Class(class("Derived", Some("Base"), vec![field("c", "int")])),
            TopLevelMember::Class(class("Base", None, vec![field("a", "int")])),
        ],
        ..empty_source()
    };
    let mut c = Compiler::new();
    assert!(c.declare_types(&[source]).is_ok(), "{:?}", messages(&c));
    assert_eq!(offsets_of(&c, "Derived"), vec![("c".to_string(), 1)]);
    assert_eq!(offsets_of(&c, "Base"), vec![("a".to_string(), 0)]);
}
