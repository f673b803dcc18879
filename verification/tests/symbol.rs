use gorge_compiler::ast::TypeRef;
use gorge_compiler::span::Span;
use gorge_compiler::symbol::{
    Arena, BlockContext, EnumId, MethodId, ScopeKind, SymbolEntry, SymbolTable, TypeInfo,
};

fn dummy_span() -> Span {
    Span::new(0, 1, 1, 1, 0)
}

#[test]
fn test_create_symbol_table() {
    let st = SymbolTable::new();
    assert_eq!(st.scopes.len(), 1);
}

#[test]
fn test_push_scope() {
    let mut st = SymbolTable::new();
    let ns_scope = st.push_scope(st.global_scope, ScopeKind::Namespace { name: "Test".into() });
    assert_eq!(st.scopes.len(), 2);
    assert!(st.scopes.get(st.global_scope.0).children.contains(&ns_scope));
}

#[test]
fn test_declare_and_lookup_class() {
    let mut st = SymbolTable::new();
    let ns_scope = st.push_scope(st.global_scope, ScopeKind::Namespace { name: "Test".into() });
    let class_id = st.declare_class("MyClass", ns_scope, None, vec![], false, dummy_span());
    assert_eq!(st.classes.get(class_id.0).name, "MyClass");

    let found = st.lookup_class(ns_scope, "MyClass");
    assert_eq!(found, Some(class_id));
}

#[test]
fn test_declare_and_lookup_field() {
    let mut st = SymbolTable::new();
    let class_id = st.declare_class("Point", st.global_scope, None, vec![], false, dummy_span());
    let field_id = st.declare_field("x", class_id, TypeInfo::Int, false, dummy_span());

    let class_scope = st.classes.get(class_id.0).scope_id;
    let found = st.lookup_field(class_scope, "x");
    assert_eq!(found, Some(field_id));
}

#[test]
fn test_declare_and_lookup_method() {
    let mut st = SymbolTable::new();
    let class_id = st.declare_class("Math", st.global_scope, None, vec![], false, dummy_span());
    let param = st.declare_parameter("n", TypeInfo::Int, 0, dummy_span());
    let method_id = st.declare_method(
        "abs",
        Some(class_id),
        None,
        TypeInfo::Int,
        vec![param],
        false,
        false,
        dummy_span(),
    );

    let class_scope = st.classes.get(class_id.0).scope_id;
    let found = st.lookup_method(class_scope, "abs");
    assert_eq!(found, vec![method_id]);
}

#[test]
fn test_method_overloading() {
    let mut st = SymbolTable::new();
    let class_id = st.declare_class("Printer", st.global_scope, None, vec![], false, dummy_span());

    let m1 = st.declare_method(
        "print",
        Some(class_id),
        None,
        TypeInfo::Void,
        vec![],
        false,
        false,
        dummy_span(),
    );
    let param = st.declare_parameter("msg", TypeInfo::String, 0, dummy_span());
    let m2 = st.declare_method(
        "print",
        Some(class_id),
        None,
        TypeInfo::Void,
        vec![param],
        false,
        false,
        dummy_span(),
    );

    let class_scope = st.classes.get(class_id.0).scope_id;
    let found = st.lookup_method(class_scope, "print");
    assert_eq!(found.len(), 2);
    assert!(found.contains(&m1));
    assert!(found.contains(&m2));
}

#[test]
fn test_scoped_lookup() {
    let mut st = SymbolTable::new();
    let class_id = st.declare_class("Outer", st.global_scope, None, vec![], false, dummy_span());
    let class_scope = st.classes.get(class_id.0).scope_id;

    st.declare_field("value", class_id, TypeInfo::Int, false, dummy_span());

    let method_scope = st.push_scope(
        class_scope,
        ScopeKind::CodeBlock { context: BlockContext::Instance },
    );
    st.declare_local_var(method_scope, "x", TypeInfo::Int, 0, dummy_span());

    assert!(st.lookup_local_var(method_scope, "x").is_some());
    assert!(st.lookup_field(method_scope, "value").is_some());
}

#[test]
fn test_resolve_basic_type() {
    let st = SymbolTable::new();
    let tref = TypeRef::simple("int".to_string(), dummy_span());
    let resolved = st.resolve_type(st.global_scope, &tref);
    assert_eq!(resolved, Some(TypeInfo::Int));
}

#[test]
fn test_resolve_class_type() {
    let mut st = SymbolTable::new();
    st.declare_class("Vector", st.global_scope, None, vec![], false, dummy_span());

    let tref = TypeRef::simple("Vector".to_string(), dummy_span());
    let resolved = st.resolve_type(st.global_scope, &tref);
    assert!(matches!(resolved, Some(TypeInfo::Object(_))));
}

#[test]
fn test_undeclared_type_returns_none() {
    let st = SymbolTable::new();
    let tref = TypeRef::simple("UnknownType".to_string(), dummy_span());
    let resolved = st.resolve_type(st.global_scope, &tref);
    assert_eq!(resolved, None);
}

#[test]
fn test_enclosing_class_scope() {
    let mut st = SymbolTable::new();
    let class_id = st.declare_class("Container", st.global_scope, None, vec![], false, dummy_span());
    let class_scope = st.classes.get(class_id.0).scope_id;

    let method_scope = st.push_scope(class_scope, ScopeKind::Method { method_id: MethodId(0) });
    let block_scope = st.push_scope(
        method_scope,
        ScopeKind::CodeBlock { context: BlockContext::Instance },
    );

    let found = st.enclosing_class_scope(block_scope);
    assert_eq!(found, Some(class_scope));
}

#[test]
fn test_declare_interface_and_enum() {
    let mut st = SymbolTable::new();
    let iface_id = st.declare_interface("IComparable", st.global_scope, vec![], dummy_span());
    assert_eq!(st.interfaces.get(iface_id.0).name, "IComparable");

    let enum_id = st.declare_enum("Color", st.global_scope, dummy_span());
    assert_eq!(st.enums.get(enum_id.0).name, "Color");
}

// ---- further cases ----

#[test]
fn arena_allocates_in_order() {
    let mut a: Arena<u32> = Arena::new();
    assert_eq!(a.len(), 0);
    assert_eq!(a.allocate(7), 0);
    assert_eq!(a.allocate(9), 1);
    assert_eq!(*a.get(0), 7);
    assert_eq!(*a.get(1), 9);
    *a.get_mut(0) = 11;
    assert_eq!(*a.get(0), 11);
    let items: Vec<u32> = a.iter().copied().collect();
    assert_eq!(items, vec![11, 9]);
}

#[test]
fn redefinition_replaces_entry() {
    let mut st = SymbolTable::new();
    let g = st.global_scope;
    let c = st.declare_class("A", g, None, vec![], false, dummy_span());
    let e = st.declare_enum("A", g, dummy_span());
    assert_eq!(st.lookup_class(g, "A"), None);
    assert_eq!(st.find_enum_by_name(g, "A"), Some(e));
    assert_eq!(c.0, 0);
}

#[test]
fn inner_declaration_shadows_outer() {
    let mut st = SymbolTable::new();
    let g = st.global_scope;
    let outer = st.declare_local_var(g, "v", TypeInfo::Int, 0, dummy_span());
    let inner_scope = st.push_scope(g, ScopeKind::CodeBlock { context: BlockContext::Instance });
    assert_eq!(st.lookup_local_var(inner_scope, "v"), Some(outer));
    let inner = st.declare_local_var(inner_scope, "v", TypeInfo::Bool, 1, dummy_span());
    assert_eq!(st.lookup_local_var(inner_scope, "v"), Some(inner));
    assert_eq!(st.lookup_local_var(g, "v"), Some(outer));
    let (_, found_in) = st.lookup(inner_scope, "v").unwrap();
    assert_eq!(found_in, inner_scope);
}

#[test]
fn class_scope_sees_namespace_through_using() {
    let mut st = SymbolTable::new();
    let g = st.global_scope;
    let ns = st.declare_namespace("N", g);
    let ns_scope = st.namespaces.get(ns.0).scope_id;
    let helper = st.declare_class("Helper", ns_scope, None, vec![], false, dummy_span());
    let user = st.declare_class("User", ns_scope, None, vec![], false, dummy_span());
    let user_scope = st.classes.get(user.0).scope_id;
    let (entry, found_in) = st.lookup(user_scope, "Helper").unwrap();
    assert!(matches!(entry, SymbolEntry::Class(id) if *id == helper));
    assert_eq!(found_in, ns_scope);
    assert!(st.lookup_local_only(g, "Helper").is_none());
    assert!(matches!(st.lookup(g, "N"), Some((SymbolEntry::Namespace(_), _))));
}

#[test]
fn interface_method_joins_earlier_one() {
    let mut st = SymbolTable::new();
    let g = st.global_scope;
    let i = st.declare_interface("I", g, vec![], dummy_span());
    let iscope = st.interfaces.get(i.0).scope_id;
    let m1 = st.declare_method("f", None, Some(i), TypeInfo::Void, vec![], false, false, dummy_span());
    let m2 = st.declare_method("f", None, Some(i), TypeInfo::Int, vec![], false, false, dummy_span());
    assert_eq!(st.lookup_method(iscope, "f"), vec![m1, m2]);
    assert_eq!(st.interfaces.get(i.0).methods.len(), 2);
}

#[test]
fn constructors_are_overloads() {
    let mut st = SymbolTable::new();
    let c = st.declare_class("C", st.global_scope, None, vec![], false, dummy_span());
    let k1 = st.declare_constructor(c, vec![], false, dummy_span());
    let k2 = st.declare_constructor(c, vec![], true, dummy_span());
    let cs = st.classes.get(c.0).scope_id;
    match st.lookup_local(cs, "constructor") {
        Some(SymbolEntry::Constructor(ids)) => assert_eq!(ids, &vec![k1, k2]),
        _ => panic!("no constructor entry"),
    }
    assert_eq!(st.classes.get(c.0).constructors, vec![k1, k2]);
}

#[test]
fn enum_values_live_in_enum_scope() {
    let mut st = SymbolTable::new();
    let g = st.global_scope;
    let e = st.declare_enum("Color", g, dummy_span());
    let red = st.declare_enum_value("Red", e, Some(3), dummy_span());
    let es = st.enums.get(e.0).scope_id;
    assert!(matches!(st.lookup(es, "Red"), Some((SymbolEntry::EnumValue(v), _)) if *v == red));
    assert!(st.lookup(g, "Red").is_none());
    assert_eq!(st.enums.get(e.0).values, vec![red]);
    assert_eq!(st.enum_values.get(red.0).value, Some(3));
}

#[test]
fn enclosing_method_scope_and_ancestor_search() {
    let mut st = SymbolTable::new();
    let c = st.declare_class("C", st.global_scope, None, vec![], false, dummy_span());
    let cs = st.classes.get(c.0).scope_id;
    let ms = st.push_scope(cs, ScopeKind::Method { method_id: MethodId(0) });
    let bs = st.push_scope(ms, ScopeKind::CodeBlock { context: BlockContext::Instance });
    assert_eq!(st.enclosing_method_scope(bs), Some(ms));
    assert_eq!(st.enclosing_method_scope(cs), None);
    assert_eq!(st.enclosing_class_scope(st.global_scope), None);
    let found = st.find_ancestor_scope(bs, |k| matches!(k, ScopeKind::Global));
    assert_eq!(found, Some(st.global_scope));
    assert_eq!(st.parent_scope(bs), Some(ms));
    assert_eq!(st.scope_kind(ms), &ScopeKind::Method { method_id: MethodId(0) });
}

#[test]
fn resolve_composite_types() {
    let mut st = SymbolTable::new();
    let g = st.global_scope;
    let c = st.declare_class("List", g, None, vec![], false, dummy_span());
    let i = st.declare_interface("Shape", g, vec![], dummy_span());
    let list_of_int = TypeRef::Generic {
        name: "List".to_string(),
        type_args: vec![TypeRef::simple("int".to_string(), dummy_span())],
        span: dummy_span(),
    };
    assert_eq!(
        st.resolve_type(g, &list_of_int),
        Some(TypeInfo::GenericInstance {
            base: Box::new(TypeInfo::Object(c)),
            type_args: vec![TypeInfo::Int],
        })
    );
    let arr = TypeRef::Array {
        element_type: Box::new(TypeRef::simple("Shape".to_string(), dummy_span())),
        span: dummy_span(),
    };
    assert_eq!(st.resolve_type(g, &arr), Some(TypeInfo::Array(Box::new(TypeInfo::Interface(i)))));
    let del = TypeRef::Delegate {
        return_type: Box::new(TypeRef::simple("void".to_string(), dummy_span())),
        param_types: vec![
            TypeRef::simple("float".to_string(), dummy_span()),
            TypeRef::simple("Missing".to_string(), dummy_span()),
        ],
        span: dummy_span(),
    };
    assert_eq!(st.resolve_type(g, &del), None);
    // a generic base must be a class, not an interface
    let bad_generic = TypeRef::Generic {
        name: "Shape".to_string(),
        type_args: vec![],
        span: dummy_span(),
    };
    assert_eq!(st.resolve_type(g, &bad_generic), None);
    let inj = TypeRef::Injector {
        base_type: Box::new(TypeRef::simple("string".to_string(), dummy_span())),
        span: dummy_span(),
    };
    assert_eq!(st.resolve_type(g, &inj), Some(TypeInfo::String));
}

#[test]
fn keyword_types_and_casts() {
    assert_eq!(TypeInfo::from_keyword("int"), Some(TypeInfo::Int));
    assert_eq!(TypeInfo::from_keyword("float"), Some(TypeInfo::Float));
    assert_eq!(TypeInfo::from_keyword("bool"), Some(TypeInfo::Bool));
    assert_eq!(TypeInfo::from_keyword("string"), Some(TypeInfo::String));
    assert_eq!(TypeInfo::from_keyword("void"), Some(TypeInfo::Void));
    assert_eq!(TypeInfo::from_keyword("object"), Some(TypeInfo::Unresolved));
    assert_eq!(TypeInfo::from_keyword("Int"), None);
    assert_eq!(TypeInfo::from_keyword(""), None);

    assert!(TypeInfo::Int.can_auto_cast_to(&TypeInfo::Float));
    assert!(!TypeInfo::Float.can_auto_cast_to(&TypeInfo::Int));
    assert!(TypeInfo::Float.can_cast_to(&TypeInfo::Int));
    assert!(!TypeInfo::Bool.can_cast_to(&TypeInfo::Int));
    assert!(TypeInfo::Unresolved.can_auto_cast_to(&TypeInfo::Bool));
    assert!(TypeInfo::Bool.can_auto_cast_to(&TypeInfo::Unresolved));
    assert!(TypeInfo::Enum(EnumId(0)).can_auto_cast_to(&TypeInfo::Int));
    assert!(!TypeInfo::Int.can_auto_cast_to(&TypeInfo::Enum(EnumId(0))));
    assert!(TypeInfo::Int.can_cast_to(&TypeInfo::Enum(EnumId(0))));
    assert!(!TypeInfo::Enum(EnumId(0)).can_auto_cast_to(&TypeInfo::Float));
    let a = TypeInfo::Array(Box::new(TypeInfo::GenericParam("T".to_string())));
    let b = TypeInfo::Array(Box::new(TypeInfo::GenericParam("T".to_string())));
    let c = TypeInfo::Array(Box::new(TypeInfo::GenericParam("U".to_string())));
    assert!(a.can_auto_cast_to(&b));
    assert!(!a.can_cast_to(&c));
}

#[test]
fn frozen_class_checks() {
    let mut st = SymbolTable::new();
    let c = st.declare_class("Box", st.global_scope, None, vec![], false, dummy_span());
    assert_eq!(st.classes.get(c.0).check_declaration_not_frozen(), Ok(()));
    st.classes.get_mut(c.0).declaration_frozen = true;
    st.classes.get_mut(c.0).inheritance_frozen = true;
    assert_eq!(
        st.classes.get(c.0).check_declaration_not_frozen(),
        Err("类 `Box` 的声明已冻结，不允许再添加成员".to_string())
    );
    assert_eq!(
        st.classes.get(c.0).check_inheritance_not_frozen(),
        Err("类 `Box` 的继承关系已冻结，不允许修改".to_string())
    );
}

#[test]
fn setters_update_one_entity() {
    let mut st = SymbolTable::new();
    let g = st.global_scope;
    let a = st.declare_class("A", g, None, vec![], false, dummy_span());
    let b = st.declare_class("B", g, None, vec![], false, dummy_span());
    let i = st.declare_interface("I", g, vec![], dummy_span());
    st.set_super_class(b, a);
    st.set_super_interfaces(b, vec![i]);
    assert_eq!(st.classes.get(b.0).super_class, Some(a));
    assert_eq!(st.classes.get(b.0).super_interfaces, vec![i]);
    assert_eq!(st.classes.get(a.0).super_class, None);
    let f = st.declare_field("x", a, TypeInfo::Float, false, dummy_span());
    st.allocate_field_offset(f, 4);
    assert_eq!(st.fields.get(f.0).offset, Some(4));
    let m = st.declare_method("run", Some(a), None, TypeInfo::Void, vec![], false, false, dummy_span());
    let body = st.push_scope(st.classes.get(a.0).scope_id, ScopeKind::Method { method_id: m });
    st.set_method_body_scope(m, body);
    assert_eq!(st.methods.get(m.0).body_scope_id, Some(body));
    let k = st.declare_constructor(a, vec![], false, dummy_span());
    st.set_constructor_body_scope(k, body);
    assert_eq!(st.constructors.get(k.0).body_scope_id, Some(body));
}

#[test]
fn interface_methods_of_one_name_are_overloads() {
    let sp = dummy_span();
    let mut st = SymbolTable::new();
    let g = st.global_scope;
    let i = st.declare_interface("I", g, vec![], sp);
    let m1 = st.declare_method("f", None, Some(i), TypeInfo::Void, vec![], false, false, sp);
    let p = st.declare_parameter("x", TypeInfo::Int, 0, sp);
    let m2 = st.declare_method("f", None, Some(i), TypeInfo::Void, vec![p], false, false, sp);
    assert_eq!(st.interfaces.get(i.0).methods, vec![m1, m2]);
    let scope = st.interfaces.get(i.0).scope_id;
    match st.lookup_local(scope, "f") {
        Some(SymbolEntry::Method(ids)) => assert_eq!(ids, &vec![m1, m2]),
        other => panic!("unexpected {:?}", other),
    }
}

#[test]
fn enums_resolve_as_types() {
    let sp = dummy_span();
    let mut st = SymbolTable::new();
    let g = st.global_scope;
    let e = st.declare_enum("Color", g, sp);
    assert_eq!(st.resolve_type(g, &TypeRef::simple("Color".to_string(), sp)), Some(TypeInfo::Enum(e)));
}
