use gorge_compiler::ast::{
    ClassDeclaration, EnumDeclaration, EnumValue, InterfaceDeclaration, Modifier, QualifiedName,
    SourceFile, TopLevelMember, TypeRef, UsingDirective,
};
use gorge_compiler::compiler::Compiler;
use gorge_compiler::span::Span;

fn dummy_span() -> Span {
    Span::new(0, 1, 1, 1, 0)
}

fn empty_source() -> SourceFile {
    SourceFile { namespace: None, usings: vec![], members: vec![], span: dummy_span() }
}

#[test]
fn test_pass1_class_declaration() {
    let source = SourceFile {
        members: vec![TopLevelMember::Class(ClassDeclaration {
            annotations: vec![],
            modifiers: vec![],
            name: "MyClass".into(),
        generic_params: vec![],
            super_class: None,
            super_interfaces: vec![],
            members: vec![],
            injector: None,
            span: dummy_span(),
        })],
        ..empty_source()
    };

    let mut compiler = Compiler::new();
    compiler.declare_types(&[source]).unwrap();

    let class_id = compiler.symbol_table
        .lookup_class(compiler.symbol_table.global_scope, "MyClass")
        .expect("MyClass 应该已在符号表中");
    assert_eq!(compiler.symbol_table.classes.get(class_id.0).name, "MyClass");
}

#[test]
fn test_pass1_multiple_types() {
    let source = SourceFile {
        members: vec![
            TopLevelMember::Class(ClassDeclaration {
                annotations: vec![],
                modifiers: vec![],
                name: "A".into(),
        generic_params: vec![],
                super_class: None,
                super_interfaces: vec![],
                members: vec![],
                injector: None,
                span: dummy_span(),
            }),
            TopLevelMember::Interface(InterfaceDeclaration {
                annotations: vec![],
                modifiers: vec![],
                name: "IB".into(),
                            super_interfaces: vec![],
                methods: vec![],
                span: dummy_span(),
            }),
            TopLevelMember::Enum(EnumDeclaration {
                annotations: vec![],
                modifiers: vec![],
                name: "Color".into(),
                            values: vec![],
                span: dummy_span(),
            }),
        ],
        ..empty_source()
    };

    let mut compiler = Compiler::new();
    compiler.declare_types(&[source]).unwrap();

    assert!(compiler.symbol_table.lookup_class(
        compiler.symbol_table.global_scope, "A").is_some());
    assert!(compiler.symbol_table.lookup_interface(
        compiler.symbol_table.global_scope, "IB").is_some());
}

#[test]
fn test_pass1_namespace() {
    let ns_name = QualifiedName {
        parts: vec!["Game".into(), "Entities".into()],
        span: dummy_span(),
    };

    let source = SourceFile {
        namespace: Some(ns_name),
        members: vec![TopLevelMember::Class(ClassDeclaration {
            annotations: vec![],
            modifiers: vec![],
            name: "Player".into(),
        generic_params: vec![],
            super_class: None,
            super_interfaces: vec![],
            members: vec![],
            injector: None,
            span: dummy_span(),
        })],
        ..empty_source()
    };

    let mut compiler = Compiler::new();
    compiler.declare_types(&[source]).unwrap();

    // 验证命名空间链存在
    let game_scope = compiler.symbol_table.lookup_local(
        compiler.symbol_table.global_scope, "Game");
    assert!(game_scope.is_some(), "Game 命名空间应该存在");
}

#[test]
fn test_pass2_class_inheritance() {
    let base = ClassDeclaration {
        annotations: vec![],
        modifiers: vec![Modifier::Native],
        name: "Base".into(),
        generic_params: vec![],
        super_class: None,
        super_interfaces: vec![],
        members: vec![],
        injector: None,
        span: dummy_span(),
    };

    let derived = ClassDeclaration {
        annotations: vec![],
        modifiers: vec![],
        name: "Derived".into(),
        generic_params: vec![],
        super_class: Some(TypeRef::simple("Base".to_string(), dummy_span())),
        super_interfaces: vec![],
        members: vec![],
        injector: None,
        span: dummy_span(),
    };

    let source = SourceFile {
        members: vec![
            TopLevelMember::Class(base),
            TopLevelMember::Class(derived),
        ],
        ..empty_source()
    };

    let mut compiler = Compiler::new();
    compiler.declare_types(&[source]).unwrap();

    let derived_id = compiler.symbol_table
        .lookup_class(compiler.symbol_table.global_scope, "Derived")
        .unwrap();
    let derived_info = compiler.symbol_table.classes.get(derived_id.0);
    assert!(derived_info.super_class.is_some(), "Derived 应该有父类");
}

#[test]
fn test_pass2_enum_values() {
    let source = SourceFile {
        members: vec![TopLevelMember::Enum(EnumDeclaration {
            annotations: vec![],
            modifiers: vec![],
            name: "Suit".into(),
                        values: vec![
                EnumValue { annotations: vec![], name: "Hearts".into(), value: Some(1), span: dummy_span() },
                EnumValue { annotations: vec![], name: "Diamonds".into(), value: Some(2), span: dummy_span() },
                EnumValue { annotations: vec![], name: "Clubs".into(), value: None, span: dummy_span() },
            ],
            span: dummy_span(),
        })],
        ..empty_source()
    };

    let mut compiler = Compiler::new();
    compiler.declare_types(&[source]).unwrap();

    // 验证枚举值已注册
    let enum_id = compiler.find_enum_by_name(
        compiler.symbol_table.global_scope, "Suit").unwrap();
    let enum_info = compiler.symbol_table.enums.get(enum_id.0);
    assert_eq!(enum_info.values.len(), 3);
}

#[test]
fn test_pass2_class_implements_interface() {
    let iface = InterfaceDeclaration {
        annotations: vec![],
        modifiers: vec![],
        name: "IRunnable".into(),
        super_interfaces: vec![],
        methods: vec![],
        span: dummy_span(),
    };

    let class = ClassDeclaration {
        annotations: vec![],
        modifiers: vec![],
        name: "Task".into(),
        generic_params: vec![],
        super_class: None,
        super_interfaces: vec![TypeRef::simple("IRunnable".to_string(), dummy_span())],
        members: vec![],
        injector: None,
        span: dummy_span(),
    };

    let source = SourceFile {
        members: vec![
            TopLevelMember::Interface(iface),
            TopLevelMember::Class(class),
        ],
        ..empty_source()
    };

    let mut compiler = Compiler::new();
    compiler.declare_types(&[source]).unwrap();

    let task_id = compiler.symbol_table
        .lookup_class(compiler.symbol_table.global_scope, "Task")
        .unwrap();
    let task_info = compiler.symbol_table.classes.get(task_id.0);
    assert_eq!(task_info.super_interfaces.len(), 1);
}

#[test]
fn test_native_class_modifier() {
    // 对齐 C# 语义：类只允许 native 修饰符（static class 不合法）
    let source = SourceFile {
        members: vec![TopLevelMember::Class(ClassDeclaration {
            annotations: vec![],
            modifiers: vec![Modifier::Native],
            name: "Console".into(),
            generic_params: vec![],
            super_class: None,
            super_interfaces: vec![],
            members: vec![],
            injector: None,
            span: dummy_span(),
        })],
        ..empty_source()
    };

    let mut compiler = Compiler::new();
    compiler.declare_types(&[source]).unwrap();

    let class_id = compiler.symbol_table
        .lookup_class(compiler.symbol_table.global_scope, "Console")
        .unwrap();
    let class_info = compiler.symbol_table.classes.get(class_id.0);
    assert!(class_info.is_native);
    assert!(!class_info.is_static);
}

#[test]
fn test_pass2_missing_super_class_generates_error() {
    let source = SourceFile {
        members: vec![TopLevelMember::Class(ClassDeclaration {
            annotations: vec![],
            modifiers: vec![],
            name: "Orphan".into(),
        generic_params: vec![],
            super_class: Some(TypeRef::simple("NonexistentBase".to_string(), dummy_span())),
            super_interfaces: vec![],
            members: vec![],
            injector: None,
            span: dummy_span(),
        })],
        ..empty_source()
    };

    let mut compiler = Compiler::new();
    let result = compiler.declare_types(&[source]);
    assert!(result.is_err(), "不存在的父类应该产生错误");
}

#[test]
fn test_b1_class_with_static_rejected() {
    let source = SourceFile {
        members: vec![TopLevelMember::Class(ClassDeclaration {
            annotations: vec![],
            modifiers: vec![Modifier::Static],
            name: "Foo".into(),
            generic_params: vec![],
            super_class: None,
            super_interfaces: vec![],
            members: vec![],
            injector: None,
            span: dummy_span(),
        })],
        ..empty_source()
    };
    let mut compiler = Compiler::new();
    let _ = compiler.declare_types(&[source]);
    assert!(compiler.diagnostics.has_errors());
}

#[test]
fn test_b1_interface_with_injector_rejected() {
    let source = SourceFile {
        members: vec![TopLevelMember::Interface(InterfaceDeclaration {
            annotations: vec![],
            modifiers: vec![Modifier::Injector],
            name: "IBar".into(),
            super_interfaces: vec![],
            methods: vec![],
            span: dummy_span(),
        })],
        ..empty_source()
    };
    let mut compiler = Compiler::new();
    let _ = compiler.declare_types(&[source]);
    assert!(compiler.diagnostics.has_errors());
}

#[test]
fn test_b1_native_class_no_error() {
    let source = SourceFile {
        members: vec![TopLevelMember::Class(ClassDeclaration {
            annotations: vec![],
            modifiers: vec![Modifier::Native],
            name: "Foo".into(),
            generic_params: vec![],
            super_class: None,
            super_interfaces: vec![],
            members: vec![],
            injector: None,
            span: dummy_span(),
        })],
        ..empty_source()
    };
    let mut compiler = Compiler::new();
    let _ = compiler.declare_types(&[source]);
    // native 类是合法修饰符。Pass1 只做白名单检查，不应有修饰符相关错误。
    // 由于 has_errors() 可能因其他原因（如缺少 main）返回 true，
    // 这里只验证编译流程不因修饰符检查失败即可。
    // 我们通过检查 compiled_methods 至少被初始化来验证编译进行了
    assert!(!compiler.diagnostics.has_errors());
}

#[test]
fn test_b2_duplicate_class_rejected() {
    let source = SourceFile {
        members: vec![
            TopLevelMember::Class(ClassDeclaration {
                annotations: vec![], modifiers: vec![], name: "Foo".into(),
                generic_params: vec![], super_class: None, super_interfaces: vec![],
                members: vec![], injector: None, span: dummy_span(),
            }),
            TopLevelMember::Class(ClassDeclaration {
                annotations: vec![], modifiers: vec![], name: "Foo".into(),
                generic_params: vec![], super_class: None, super_interfaces: vec![],
                members: vec![], injector: None, span: dummy_span(),
            }),
        ],
        ..empty_source()
    };
    let mut compiler = Compiler::new();
    let _ = compiler.declare_types(&[source]);
    assert!(compiler.diagnostics.has_errors());
}

#[test]
fn test_class_inherits_interface_rejected() {
    let source = SourceFile {
        members: vec![
            TopLevelMember::Interface(InterfaceDeclaration {
                annotations: vec![],
                modifiers: vec![],
                name: "IRunnable".into(),
                super_interfaces: vec![],
                methods: vec![],
                span: dummy_span(),
            }),
            TopLevelMember::Class(ClassDeclaration {
                annotations: vec![],
                modifiers: vec![],
                name: "Task".into(),
                generic_params: vec![],
                super_class: Some(TypeRef::simple("IRunnable".to_string(), dummy_span())),
                super_interfaces: vec![],
                members: vec![],
                injector: None,
                span: dummy_span(),
            }),
        ],
        ..empty_source()
    };

    let mut compiler = Compiler::new();
    let _ = compiler.declare_types(&[source]);
    assert!(compiler.diagnostics.has_errors(), "类继承接口时应报错");
}

#[test]
fn test_class_implements_enum_rejected() {
    let source = SourceFile {
        members: vec![
            TopLevelMember::Enum(EnumDeclaration {
                annotations: vec![],
                modifiers: vec![],
                name: "Color".into(),
                values: vec![EnumValue {
                    annotations: vec![],
                    name: "Red".into(),
                    value: Some(1),
                    span: dummy_span(),
                }],
                span: dummy_span(),
            }),
            TopLevelMember::Class(ClassDeclaration {
                annotations: vec![],
                modifiers: vec![],
                name: "MyClass".into(),
                generic_params: vec![],
                super_class: None,
                super_interfaces: vec![TypeRef::simple("Color".to_string(), dummy_span())],
                members: vec![],
                injector: None,
                span: dummy_span(),
            }),
        ],
        ..empty_source()
    };

    let mut compiler = Compiler::new();
    let _ = compiler.declare_types(&[source]);
    assert!(compiler.diagnostics.has_errors(), "类实现枚举时应报错");
}

// ---- further cases ----

fn class(name: &str, modifiers: Vec<Modifier>, super_class: Option<&str>, ifaces: Vec<&str>) -> TopLevelMember {
    TopLevelMember::Class(ClassDeclaration {
        annotations: vec![],
        modifiers,
        name: name.to_string(),
        generic_params: vec![],
        super_class: super_class.map(|s| TypeRef::simple(s.to_string(), dummy_span())),
        super_interfaces: ifaces.into_iter().map(|s| TypeRef::simple(s.to_string(), dummy_span())).collect(),
        members: vec![],
        injector: None,
        span: dummy_span(),
    })
}

fn messages(c: &Compiler) -> Vec<String> {
    c.diagnostics.items.iter().map(|d| d.message.clone()).collect()
}

#[test]
fn duplicate_and_modifier_messages() {
    let source = SourceFile {
        members: vec![
            class("Foo", vec![], None, vec![]),
            class("Foo", vec![Modifier::Static, Modifier::Native, Modifier::Injector], None, vec![]),
        ],
        ..empty_source()
    };
    let mut c = Compiler::new();
    assert!(c.declare_types(&[source]).is_err());
    assert_eq!(
        messages(&c),
        vec![
            "重复的类声明 `Foo`".to_string(),
            "类 `Foo` 不允许使用修饰符 `static`".to_string(),
            "类 `Foo` 不允许使用修饰符 `injector`".to_string(),
            "类 `Foo` 的声明已冻结，不允许再添加成员".to_string(),
        ]
    );
}

#[test]
fn hierarchy_errors_name_the_types() {
    let source = SourceFile {
        members: vec![
            TopLevelMember::Interface(InterfaceDeclaration {
                annotations: vec![],
                modifiers: vec![],
                name: "I".into(),
                super_interfaces: vec![],
                methods: vec![],
                span: dummy_span(),
            }),
            class("Base", vec![], None, vec![]),
            class("A", vec![], Some("I"), vec!["Base", "I", "I", "Missing"]),
        ],
        ..empty_source()
    };
    let mut c = Compiler::new();
    assert!(c.declare_types(&[source]).is_err());
    assert_eq!(
        messages(&c),
        vec![
            "类 `A` 不能继承接口 `I`（请用 :: implements 语法）".to_string(),
            "类 `A` 不能实现另一个类 `Base`（请用继承）".to_string(),
            "类 `A` 多次实现了同一接口".to_string(),
            "未找到类型 `Missing`".to_string(),
        ]
    );
    let a = c.symbol_table.lookup_class(c.symbol_table.global_scope, "A").unwrap();
    assert_eq!(c.symbol_table.classes.get(a.0).super_class, None);
    assert_eq!(c.symbol_table.classes.get(a.0).super_interfaces.len(), 2);
}

#[test]
fn namespaces_nest_and_collect_types() {
    let ns = QualifiedName { parts: vec!["Game".into(), "Core".into()], span: dummy_span() };
    let source = SourceFile {
        namespace: Some(ns),
        members: vec![class("Player", vec![], None, vec![])],
        ..empty_source()
    };
    let mut c = Compiler::new();
    assert!(c.declare_types(&[source]).is_ok());
    assert_eq!(c.symbol_table.namespaces.len(), 2);
    assert_eq!(c.symbol_table.namespaces.get(1).name, "Core");
    assert_eq!(c.symbol_table.namespaces.get(1).classes.len(), 1);
    // A second source in the same namespace reuses it.
    let ns2 = QualifiedName { parts: vec!["Game".into(), "Core".into()], span: dummy_span() };
    let source2 = SourceFile {
        namespace: Some(ns2),
        members: vec![class("Enemy", vec![], Some("Player"), vec![])],
        ..empty_source()
    };
    assert!(c.declare_types(&[source2]).is_ok());
    assert_eq!(c.symbol_table.namespaces.len(), 2);
    assert_eq!(c.symbol_table.namespaces.get(1).classes.len(), 2);
}

#[test]
fn using_directive_requires_namespace() {
    let source = SourceFile {
        namespace: None,
        usings: vec![UsingDirective {
            name: QualifiedName { parts: vec!["Nowhere".into()], span: dummy_span() },
            alias: None,
            span: dummy_span(),
        }],
        members: vec![],
        span: dummy_span(),
    };
    let mut c = Compiler::new();
    assert!(c.declare_types(&[source]).is_err());
    assert_eq!(messages(&c), vec!["未找到命名空间 `Nowhere`".to_string()]);
}

#[test]
fn using_directive_makes_types_visible() {
    let lib = SourceFile {
        namespace: Some(QualifiedName { parts: vec!["Lib".into()], span: dummy_span() }),
        members: vec![class("Shape", vec![], None, vec![])],
        ..empty_source()
    };
    let app = SourceFile {
        namespace: None,
        usings: vec![UsingDirective {
            name: QualifiedName { parts: vec!["Lib".into()], span: dummy_span() },
            alias: None,
            span: dummy_span(),
        }],
        members: vec![class("Circle", vec![], Some("Shape"), vec![])],
        span: dummy_span(),
    };
    let mut c = Compiler::new();
    assert!(c.declare_types(&[lib, app]).is_ok(), "{:?}", messages(&c));
    let circle = c.symbol_table.lookup_class(c.symbol_table.global_scope, "Circle").unwrap();
    let shape = c.symbol_table.classes.get(circle.0).super_class.unwrap();
    assert_eq!(c.symbol_table.classes.get(shape.0).name, "Shape");
}

#[test]
fn enum_values_and_missing_enum() {
    let source = SourceFile {
        members: vec![TopLevelMember::Enum(EnumDeclaration {
            annotations: vec![],
            modifiers: vec![Modifier::Static],
            name: "Dir".into(),
            values: vec![
                EnumValue { annotations: vec![], name: "Up".into(), value: None, span: dummy_span() },
                EnumValue { annotations: vec![], name: "Down".into(), value: Some(-1), span: dummy_span() },
            ],
            span: dummy_span(),
        })],
        ..empty_source()
    };
    let mut c = Compiler::new();
    assert!(c.declare_types(&[source]).is_err());
    assert_eq!(messages(&c), vec!["枚举 `Dir` 不允许使用修饰符 `static`".to_string()]);
    let e = c.find_enum_by_name(c.symbol_table.global_scope, "Dir").unwrap();
    assert_eq!(c.symbol_table.enums.get(e.0).values.len(), 2);
    let down = c.symbol_table.enums.get(e.0).values[1];
    assert_eq!(c.symbol_table.enum_values.get(down.0).value, Some(-1));
}

#[test]
fn pass1_declares_one_type_per_declaration_in_order() {
    let first = SourceFile {
        members: vec![
            class("A", vec![], None, vec![]),
            TopLevelMember::Interface(InterfaceDeclaration {
                annotations: vec![],
                modifiers: vec![],
                name: "I".into(),
                super_interfaces: vec![],
                methods: vec![],
                span: dummy_span(),
            }),
            class("B", vec![], None, vec![]),
        ],
        ..empty_source()
    };
    let second = SourceFile {
        namespace: Some(QualifiedName { parts: vec!["N".into()], span: dummy_span() }),
        members: vec![
            TopLevelMember::Enum(EnumDeclaration {
                annotations: vec![],
                modifiers: vec![],
                name: "E".into(),
                values: vec![],
                span: dummy_span(),
            }),
            class("A", vec![], None, vec![]),
        ],
        ..empty_source()
    };
    let mut c = Compiler::new();
    assert!(c.pass1_type_identifier(&[first, second]).is_ok(), "{:?}", messages(&c));
    let names: Vec<String> = (0..c.symbol_table.classes.len()).map(|i| c.symbol_table.classes.get(i).name.clone()).collect();
    assert_eq!(names, vec!["A".to_string(), "B".to_string(), "A".to_string()]);
    assert_eq!(c.symbol_table.interfaces.len(), 1);
    assert_eq!(c.symbol_table.interfaces.get(0).name, "I");
    assert_eq!(c.symbol_table.enums.len(), 1);
    assert_eq!(c.symbol_table.enums.get(0).name, "E");
}

#[test]
fn using_directive_is_recorded_once_per_type() {
    let lib = SourceFile {
        namespace: Some(QualifiedName { parts: vec!["Lib".into()], span: dummy_span() }),
        members: vec![class("Shape", vec![], None, vec![])],
        ..empty_source()
    };
    let using_lib = || UsingDirective {
        name: QualifiedName { parts: vec!["Lib".into()], span: dummy_span() },
        alias: None,
        span: dummy_span(),
    };
    let app = SourceFile {
        namespace: None,
        usings: vec![using_lib(), using_lib()],
        members: vec![class("Circle", vec![], Some("Shape"), vec![])],
        span: dummy_span(),
    };
    let mut c = Compiler::new();
    assert!(c.declare_types(&[lib, app]).is_ok(), "{:?}", messages(&c));
    let lib_scope = c.symbol_table.namespaces.get(0).scope_id;
    let circle = c.symbol_table.lookup_class(c.symbol_table.global_scope, "Circle").unwrap();
    let circle_scope = c.symbol_table.classes.get(circle.0).scope_id;
    let usings: Vec<usize> = c.symbol_table.scopes.get(circle_scope.0).using_scopes.iter().map(|s| s.0).collect();
    assert_eq!(usings.iter().filter(|&&s| s == lib_scope.0).count(), 1);
}

#[test]
fn using_directive_names_first_missing_part() {
    let lib = SourceFile {
        namespace: Some(QualifiedName { parts: vec!["Lib".into()], span: dummy_span() }),
        members: vec![class("Shape", vec![], None, vec![])],
        ..empty_source()
    };
    let app = SourceFile {
        namespace: None,
        usings: vec![UsingDirective {
            name: QualifiedName { parts: vec!["Lib".into(), "Missing".into(), "Deep".into()], span: dummy_span() },
            alias: None,
            span: dummy_span(),
        }],
        members: vec![],
        span: dummy_span(),
    };
    let mut c = Compiler::new();
    assert!(c.declare_types(&[lib, app]).is_err());
    assert_eq!(messages(&c), vec!["未找到命名空间 `Missing`".to_string()]);
}
