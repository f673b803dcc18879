//! The declaration passes of the compiler: the first collects the types of
//! each source into the symbol table, the second resolves inheritance, enum
//! values and `using` directives, the third declares the members of the types
//! and lays out their fields, and the freeze numbers the methods, constructors
//! and fields of each class after those it inherits. Beside them stand the
//! value kinds that fields are laid out by, the compile tasks left for code
//! generation, and the lookups that find a declaration's body again.

use vstd::prelude::*;
use vstd::string::StringExecFns;
use crate::ast::{
    Annotation, ClassDeclaration, ClassMember, ConstructorDeclaration, EnumDeclaration,
    Expression, FieldDeclaration, InjectorField, InterfaceDeclaration, Literal, MetadataEntry,
    MethodDeclaration, Modifier, Parameter, QualifiedName, SourceFile, Statement, TopLevelMember,
    TypeRef, UsingDirective,
};
use crate::cancellation::{CancellationToken, CompileError};
use crate::span::{Diagnostic, Diagnostics, Severity, Span};
use crate::symbol::{
    declaration_effect, declaration_frozen_message, inheritance_frozen_message, keyword_type, lemma_chain_entry_valid,
    chain_find, lemma_chain_find_same_but_usings, lemma_resolve_entry_valid, lemma_resolve_same_but_usings,
    lemma_resolved_type_valid, on_scope_chain,
    resolve, resolves_to, same_but_usings, same_type, scope_wf, types_equal,
    simple_type, type_resolves, zero_count, ClassId, ClassInfo, ConstructorId, ConstructorInfo,
    EnumId, EnumInfo, FieldId,
    FieldInfo, FrozenTypeCount, InterfaceId, InterfaceInfo, MethodId, MethodInfo, NamespaceId,
    ParameterId, ParameterInfo, Scope, ScopeId, ScopeKind, SymbolEntry, SymbolTable, TypeInfo,
};
use std::collections::HashMap;
use crate::text::{
    chars_of, push_decimal, signed_decimal, signed_decimal_chars, string_from_chars, text_is,
};

verus! {

/// The kind of storage a value takes at run time; instance fields are laid
/// out in one array per kind.
#[derive(Debug, Clone, Copy, PartialEq, Eq, Structural)]
pub enum ValueType {
    Int,
    Float,
    Bool,
    String,
    Object,
}

/// The next free offset in each kind's field array.
#[derive(Debug)]
pub struct FieldOffsetCounters {
    pub int_offset: usize,
    pub float_offset: usize,
    pub bool_offset: usize,
    pub string_offset: usize,
    pub object_offset: usize,
}

impl FieldOffsetCounters {
    /// The counter of kind `vt`.
    pub open spec fn counter(&self, vt: ValueType) -> usize {
        match vt {
            ValueType::Int => self.int_offset,
            ValueType::Float => self.float_offset,
            ValueType::Bool => self.bool_offset,
            ValueType::String => self.string_offset,
            ValueType::Object => self.object_offset,
        }
    }

    /// All counters at zero.
    pub fn new() -> (c: Self)
        ensures
            forall|vt: ValueType| #[trigger] c.counter(vt) == 0,
    {
        FieldOffsetCounters {
            int_offset: 0,
            float_offset: 0,
            bool_offset: 0,
            string_offset: 0,
            object_offset: 0,
        }
    }

    /// The current offset of kind `vt`, which the call then advances by one.
    pub fn next(&mut self, vt: ValueType) -> (offset: usize)
        requires
            old(self).counter(vt) < usize::MAX,
        ensures
            offset == old(self).counter(vt),
            final(self).counter(vt) == offset + 1,
            forall|other: ValueType| other != vt ==> #[trigger] final(self).counter(other) == old(self).counter(other),
    {
        match vt {
            ValueType::Int => {
                let current = self.int_offset;
                self.int_offset = current + 1;
                current
            },
            ValueType::Float => {
                let current = self.float_offset;
                self.float_offset = current + 1;
                current
            },
            ValueType::Bool => {
                let current = self.bool_offset;
                self.bool_offset = current + 1;
                current
            },
            ValueType::String => {
                let current = self.string_offset;
                self.string_offset = current + 1;
                current
            },
            ValueType::Object => {
                let current = self.object_offset;
                self.object_offset = current + 1;
                current
            },
        }
    }
}

/// A unit of code generation that the declaration pass leaves for the last pass.
#[derive(Debug, Clone, Copy, PartialEq, Eq, Structural)]
pub enum TaskKind {
    /// The body of a method.
    Method { method_id: MethodId },
    /// The body of a constructor.
    Constructor { constructor_id: ConstructorId },
    /// The initializer of a field.
    FieldInitializer { field_id: FieldId, class_id: ClassId },
}

/// A unit of code generation, with the place of the declaration it comes from.
#[derive(Debug, Clone, Copy)]
pub struct CompileTask {
    pub kind: TaskKind,
    pub span: Span,
}

/// A field that a class's injector provides.
#[derive(Debug, Clone)]
pub struct InjectorFieldDef {
    pub name: String,
    pub value_type: ValueType,
    /// Whether the injector may leave the field out.
    pub has_default: bool,
}

/// The keyword of a modifier.
pub open spec fn modifier_word(m: Modifier) -> Seq<char> {
    match m {
        Modifier::Native => "native"@,
        Modifier::Static => "static"@,
        Modifier::Abstract => "abstract"@,
        Modifier::Injector => "injector"@,
    }
}

/// The keyword of modifier `m`, as diagnostics name it.
pub fn modifier_name(m: Modifier) -> (r: &'static str)
    ensures
        r@ == modifier_word(m),
{
    match m {
        Modifier::Native => {
            proof {
                reveal_strlit("native");
            }
            "native"
        },
        Modifier::Static => {
            proof {
                reveal_strlit("static");
            }
            "static"
        },
        Modifier::Abstract => {
            proof {
                reveal_strlit("abstract");
            }
            "abstract"
        },
        Modifier::Injector => {
            proof {
                reveal_strlit("injector");
            }
            "injector"
        },
    }
}

/// Whether `a` and `b` are the same type in an override's signature: the
/// same type, arrays, delegates and generic types compared part by part.
pub open spec fn same_signature_type(a: TypeInfo, b: TypeInfo) -> bool {
    same_type(a, b)
}

/// Whether `a` and `b` are the same type in an override's signature.
pub fn type_info_eq(a: &TypeInfo, b: &TypeInfo) -> (r: bool)
    ensures
        r == same_signature_type(*a, *b),
{
    types_equal(a, b)
}

/// The field array that a field of type `ti` is counted in: enums count as
/// integers, and every type that is not a primitive as an object.
pub open spec fn count_kind(ti: TypeInfo) -> ValueType {
    match ti {
        TypeInfo::Int => ValueType::Int,
        TypeInfo::Enum(_) => ValueType::Int,
        TypeInfo::Float => ValueType::Float,
        TypeInfo::Bool => ValueType::Bool,
        TypeInfo::String => ValueType::String,
        _ => ValueType::Object,
    }
}

/// The count of kind `vt` in `tc`.
pub open spec fn kind_count(tc: FrozenTypeCount, vt: ValueType) -> usize {
    match vt {
        ValueType::Int => tc.int,
        ValueType::Float => tc.float,
        ValueType::Bool => tc.bool,
        ValueType::String => tc.string,
        ValueType::Object => tc.object,
    }
}

/// Counts one more field of type `ti` in `tc`.
pub fn bump_frozen_type_count(tc: &mut FrozenTypeCount, ti: &TypeInfo)
    requires
        kind_count(*old(tc), count_kind(*ti)) < usize::MAX,
    ensures
        kind_count(*final(tc), count_kind(*ti)) == kind_count(*old(tc), count_kind(*ti)) + 1,
        forall|vt: ValueType|
            vt != count_kind(*ti) ==> #[trigger] kind_count(*final(tc), vt) == kind_count(*old(tc), vt),
{
    match ti {
        TypeInfo::Int | TypeInfo::Enum(_) => tc.int = tc.int + 1,
        TypeInfo::Float => tc.float = tc.float + 1,
        TypeInfo::Bool => tc.bool = tc.bool + 1,
        TypeInfo::String => tc.string = tc.string + 1,
        _ => tc.object = tc.object + 1,
    }
}

/// The text of a literal expression, as annotation values are recorded: a
/// string's contents, an integer in decimal, a float as written, `true` or
/// `false`; any other expression gives the empty string.
pub open spec fn literal_text(expr: Expression) -> Seq<char> {
    match expr {
        Expression::Literal(lit, _) => match lit {
            Literal::String(s) => s@,
            Literal::Int(v) => signed_decimal(v as int),
            Literal::Float(t) => t@,
            Literal::Bool(b) => if b {
                "true"@
            } else {
                "false"@
            },
        },
        _ => Seq::empty(),
    }
}

/// The text of a literal expression.
pub fn literal_to_string(expr: &Expression) -> (r: String)
    ensures
        r@ == literal_text(*expr),
{
    match expr {
        Expression::Literal(lit, _) => match lit {
            Literal::String(s) => s.clone(),
            Literal::Int(v) => {
                let digits = signed_decimal_chars(*v);
                string_from_chars(&digits)
            },
            Literal::Float(t) => t.clone(),
            Literal::Bool(b) => {
                proof {
                    reveal_strlit("true");
                    reveal_strlit("false");
                }
                if *b {
                    "true".to_owned()
                } else {
                    "false".to_owned()
                }
            },
        },
        _ => String::new(),
    }
}

/// The names of the classes, interfaces and enums that `ms` declares, in
/// order, each kind apart.
pub open spec fn declared_names(ms: Seq<TopLevelMember>) -> (Seq<Seq<char>>, Seq<Seq<char>>, Seq<Seq<char>>)
    decreases ms.len(),
{
    if ms.len() == 0 {
        (Seq::empty(), Seq::empty(), Seq::empty())
    } else {
        let (c, i, e) = declared_names(ms.drop_last());
        match ms.last() {
            TopLevelMember::Class(d) => (c.push(d.name@), i, e),
            TopLevelMember::Interface(d) => (c, i.push(d.name@), e),
            TopLevelMember::Enum(d) => (c, i, e.push(d.name@)),
        }
    }
}

/// The names of the classes, interfaces and enums that `sources` declare, in
/// order, each kind apart.
pub open spec fn sources_declared_names(sources: Seq<SourceFile>) -> (Seq<Seq<char>>, Seq<Seq<char>>, Seq<Seq<char>>)
    decreases sources.len(),
{
    if sources.len() == 0 {
        (Seq::empty(), Seq::empty(), Seq::empty())
    } else {
        let (c, i, e) = sources_declared_names(sources.drop_last());
        let (c2, i2, e2) = declared_names(sources.last().members@);
        (c + c2, i + i2, e + e2)
    }
}

/// The names of the classes, interfaces and enums of `st`, in order of
/// declaration.
pub open spec fn table_names(st: SymbolTable) -> (Seq<Seq<char>>, Seq<Seq<char>>, Seq<Seq<char>>) {
    (
        st.classes@.map_values(|c: ClassInfo| c.name@),
        st.interfaces@.map_values(|d: InterfaceInfo| d.name@),
        st.enums@.map_values(|d: EnumInfo| d.name@),
    )
}

/// `b` has the classes, interfaces and enums of `a`, under the same names.
pub open spec fn names_kept(a: SymbolTable, b: SymbolTable) -> bool {
    &&& b.classes@.len() == a.classes@.len()
    &&& b.interfaces@.len() == a.interfaces@.len()
    &&& b.enums@.len() == a.enums@.len()
    &&& forall|i: int| 0 <= i < a.classes@.len() ==> (#[trigger] b.classes@[i]).name@ == a.classes@[i].name@
    &&& forall|i: int|
        0 <= i < a.interfaces@.len() ==> (#[trigger] b.interfaces@[i]).name@ == a.interfaces@[i].name@
    &&& forall|i: int| 0 <= i < a.enums@.len() ==> (#[trigger] b.enums@[i]).name@ == a.enums@[i].name@
}

/// Tables that keep the names of the types have the same names.
pub proof fn lemma_names_kept_table_names(a: SymbolTable, b: SymbolTable)
    requires
        names_kept(a, b),
    ensures
        table_names(b) == table_names(a),
{
    assert(table_names(b).0 =~= table_names(a).0);
    assert(table_names(b).1 =~= table_names(a).1);
    assert(table_names(b).2 =~= table_names(a).2);
}

/// `a` with the names of `b` appended, kind by kind.
pub open spec fn names_appended(
    a: (Seq<Seq<char>>, Seq<Seq<char>>, Seq<Seq<char>>),
    b: (Seq<Seq<char>>, Seq<Seq<char>>, Seq<Seq<char>>),
) -> (Seq<Seq<char>>, Seq<Seq<char>>, Seq<Seq<char>>) {
    (a.0 + b.0, a.1 + b.1, a.2 + b.2)
}

/// Whether the namespace that `source` declares, if any, has a name.
pub open spec fn namespace_named(source: SourceFile) -> bool {
    source.namespace matches Some(q) ==> q.parts@.len() >= 1
}

/// Whether any of `items` is an error.
pub open spec fn has_error(items: Seq<Diagnostic>) -> bool {
    exists|k: int| 0 <= k < items.len() && items[k].severity == Severity::Error
}

/// Whether `mods` holds `m`.
fn contains_modifier(mods: &Vec<Modifier>, m: Modifier) -> (r: bool)
    ensures
        r == mods@.contains(m),
{
    let mut i: usize = 0;
    while i < mods.len()
        invariant
            i <= mods@.len(),
            forall|j: int| 0 <= j < i ==> mods@[j] != m,
        decreases mods.len() - i,
    {
        if mods[i] == m {
            return true;
        }
        i = i + 1;
    }
    false
}

/// Whether `ids` holds `id`.
fn contains_interface(ids: &Vec<InterfaceId>, id: InterfaceId) -> (r: bool)
    ensures
        r == ids@.contains(id),
{
    let mut i: usize = 0;
    while i < ids.len()
        invariant
            i <= ids@.len(),
            forall|j: int| 0 <= j < i ==> ids@[j] != id,
        decreases ids.len() - i,
    {
        if ids[i].0 == id.0 {
            return true;
        }
        i = i + 1;
    }
    false
}

/// Whether `ids` holds `id`.
fn contains_scope(ids: &Vec<ScopeId>, id: ScopeId) -> (r: bool)
    ensures
        r == ids@.contains(id),
{
    let mut i: usize = 0;
    while i < ids.len()
        invariant
            i <= ids@.len(),
            forall|j: int| 0 <= j < i ==> ids@[j] != id,
        decreases ids.len() - i,
    {
        if ids[i].0 == id.0 {
            return true;
        }
        i = i + 1;
    }
    false
}

/// A copy of `v`.
fn copy_strings(v: &Vec<String>) -> (r: Vec<String>)
    ensures
        r@.len() == v@.len(),
        forall|i: int| 0 <= i < v@.len() ==> (#[trigger] r@[i])@ == v@[i]@,
{
    let mut r: Vec<String> = Vec::new();
    let mut i: usize = 0;
    while i < v.len()
        invariant
            i <= v@.len(),
            r@.len() == i,
            forall|j: int| 0 <= j < i ==> (#[trigger] r@[j])@ == v@[j]@,
        decreases v.len() - i,
    {
        r.push(v[i].clone());
        i = i + 1;
    }
    r
}

/// Adds `using` to the scopes that scope `scope` uses, unless it is there.
fn add_using_scope(st: &mut SymbolTable, scope: ScopeId, using: ScopeId)
    requires
        old(st).wf(),
        old(st).type_entries_valid(),
        old(st).has_scope(scope),
        old(st).has_scope(using),
    ensures
        final(st).wf(),
        final(st).type_entries_valid(),
        final(st).scopes@.len() == old(st).scopes@.len(),
        final(st).namespaces@ == old(st).namespaces@,
        final(st).classes@ == old(st).classes@,
        final(st).interfaces@ == old(st).interfaces@,
        final(st).enums@ == old(st).enums@,
        final(st).enum_values@ == old(st).enum_values@,
        final(st).fields@ == old(st).fields@,
        final(st).methods@ == old(st).methods@,
        final(st).constructors@ == old(st).constructors@,
        final(st).injectors@ == old(st).injectors@,
        final(st).parameters@ == old(st).parameters@,
        final(st).annotations@ == old(st).annotations@,
        final(st).local_vars@ == old(st).local_vars@,
        final(st).global_scope == old(st).global_scope,
        forall|i: int|
            0 <= i < old(st).scopes@.len() && i != scope.0 ==> #[trigger] final(st).scopes@[i]
                == old(st).scopes@[i],
        final(st).scopes@[scope.0 as int].kind == old(st).scopes@[scope.0 as int].kind,
        final(st).scopes@[scope.0 as int].parent == old(st).scopes@[scope.0 as int].parent,
        final(st).scopes@[scope.0 as int].children == old(st).scopes@[scope.0 as int].children,
        final(st).scopes@[scope.0 as int].symbols == old(st).scopes@[scope.0 as int].symbols,
        final(st).scopes@[scope.0 as int].using_scopes@ == (if old(
            st,
        ).scopes@[scope.0 as int].using_scopes@.contains(using) {
            old(st).scopes@[scope.0 as int].using_scopes@
        } else {
            old(st).scopes@[scope.0 as int].using_scopes@.push(using)
        }),
{
    proof {
        assert(scope_wf(st.scopes@, scope.0 as int));
    }
    let present = contains_scope(&st.scopes.get(scope.0).using_scopes, using);
    if !present {
        let ghost before = st.scopes@;
        st.scopes.get_mut(scope.0).using_scopes.push(using);
        proof {
            let after = st.scopes@;
            assert forall|i: int| 0 <= i < after.len() implies #[trigger] scope_wf(after, i) by {
                assert(scope_wf(before, i));
                if i == scope.0 {
                    assert forall|j: int| 0 <= j < after[i].using_scopes@.len() implies (
                    #[trigger] after[i].using_scopes@[j]).0 < after.len() by {
                        if j < before[i].using_scopes@.len() {
                            assert(after[i].using_scopes@[j] == before[i].using_scopes@[j]);
                        }
                    }
                }
            }
            assert forall|i: int, k: Seq<char>|
                0 <= i < after.len() && #[trigger] after[i].symbols@.contains_key(k) implies st.type_entry_valid(
                after[i].symbols@[k]) by {
                assert(before[i].symbols@ == after[i].symbols@);
            }
        }
    }
}

/// The name of type `t` in messages: the name alone of a simple or generic
/// type, `T[]`, `T^`, and `delegate<R, P, ...>` (with `, ` after the return
/// type even where no parameter follows).
pub open spec fn type_name_text(t: TypeRef) -> Seq<char>
    decreases t,
{
    match t {
        TypeRef::Simple { name, .. } => name@,
        TypeRef::Generic { name, .. } => name@,
        TypeRef::Array { element_type, .. } => type_name_text(*element_type) + "[]"@,
        TypeRef::Injector { base_type, .. } => type_name_text(*base_type) + "^"@,
        TypeRef::Delegate { return_type, param_types, .. } => "delegate<"@ + type_name_text(
            *return_type,
        ) + ", "@ + type_names_joined(param_types@) + ">"@,
    }
}

/// The names of `ts` in messages, joined by `, `.
pub open spec fn type_names_joined(ts: Seq<TypeRef>) -> Seq<char>
    decreases ts,
{
    if ts.len() == 0 {
        Seq::empty()
    } else if ts.len() == 1 {
        type_name_text(ts[0])
    } else {
        type_names_joined(ts.drop_last()) + ", "@ + type_name_text(ts.last())
    }
}

/// The text of type `t` as recorded with annotations: `Name`, `Name<A, B>`,
/// `T[]`, `Delegate<R>`, `Injector<T>`.
pub open spec fn type_record_text(t: TypeRef) -> Seq<char>
    decreases t,
{
    match t {
        TypeRef::Simple { name, .. } => name@,
        TypeRef::Generic { name, type_args, .. } => name@ + "<"@ + type_records_joined(type_args@)
            + ">"@,
        TypeRef::Array { element_type, .. } => type_record_text(*element_type) + "[]"@,
        TypeRef::Delegate { return_type, .. } => "Delegate<"@ + type_record_text(*return_type)
            + ">"@,
        TypeRef::Injector { base_type, .. } => "Injector<"@ + type_record_text(*base_type) + ">"@,
    }
}

/// The texts of `ts` as recorded with annotations, joined by `, `.
pub open spec fn type_records_joined(ts: Seq<TypeRef>) -> Seq<char>
    decreases ts,
{
    if ts.len() == 0 {
        Seq::empty()
    } else if ts.len() == 1 {
        type_record_text(ts[0])
    } else {
        type_records_joined(ts.drop_last()) + ", "@ + type_record_text(ts.last())
    }
}

/// Appends to `out` the name of type `t` in messages.
#[verifier::loop_isolation(false)]
fn push_type_ref_name(t: &TypeRef, out: &mut Vec<char>)
    ensures
        final(out)@ == old(out)@ + type_name_text(*t),
    decreases t,
{
    proof {
        reveal_strlit("[]");
        reveal_strlit("^");
        reveal_strlit(", ");
        reveal_strlit(">");
    }
    match t {
        TypeRef::Simple { name, .. } => {
            let mut cs = chars_of(name.as_str());
            out.append(&mut cs);
        },
        TypeRef::Generic { name, .. } => {
            let mut cs = chars_of(name.as_str());
            out.append(&mut cs);
        },
        TypeRef::Array { element_type, .. } => {
            push_type_ref_name(element_type, out);
            out.push('[');
            out.push(']');
            assert(out@ =~= old(out)@ + type_name_text(*t));
        },
        TypeRef::Injector { base_type, .. } => {
            push_type_ref_name(base_type, out);
            out.push('^');
            assert(out@ =~= old(out)@ + type_name_text(*t));
        },
        TypeRef::Delegate { return_type, param_types, .. } => {
            let mut cs = chars_of("delegate<");
            out.append(&mut cs);
            push_type_ref_name(return_type, out);
            out.push(',');
            out.push(' ');
            let ghost head = out@;
            let mut i: usize = 0;
            while i < param_types.len()
                invariant
                    i <= param_types@.len(),
                    out@ == head + type_names_joined(param_types@.take(i as int)),
                decreases param_types.len() - i,
            {
                let ghost before = out@;
                if i > 0 {
                    out.push(',');
                    out.push(' ');
                }
                proof {
                    assert(decreases_to!(*t => param_types@[i as int]));
                }
                push_type_ref_name(&param_types[i], out);
                proof {
                    let tk = param_types@.take(i + 1);
                    assert(tk.drop_last() =~= param_types@.take(i as int));
                    assert(tk.last() == param_types@[i as int]);
                    if i == 0 {
                        assert(tk.len() == 1 && tk[0] == param_types@[0]);
                    }
                    assert(out@ =~= head + type_names_joined(tk));
                }
                i = i + 1;
            }
            out.push('>');
            proof {
                assert(param_types@.take(param_types@.len() as int) =~= param_types@);
                assert(out@ =~= old(out)@ + type_name_text(*t));
            }
        },
    }
}

/// The name of type `t` in messages.
fn type_ref_name(t: &TypeRef) -> (r: String)
    ensures
        r@ == type_name_text(*t),
{
    let mut out: Vec<char> = Vec::new();
    push_type_ref_name(t, &mut out);
    assert(out@ =~= type_name_text(*t));
    string_from_chars(&out)
}

/// Appends to `out` the text of type `t` as recorded with annotations.
#[verifier::loop_isolation(false)]
fn push_format_type_ref(t: &TypeRef, out: &mut Vec<char>)
    ensures
        final(out)@ == old(out)@ + type_record_text(*t),
    decreases t,
{
    proof {
        reveal_strlit("[]");
        reveal_strlit("<");
        reveal_strlit(", ");
        reveal_strlit(">");
    }
    match t {
        TypeRef::Simple { name, .. } => {
            let mut cs = chars_of(name.as_str());
            out.append(&mut cs);
        },
        TypeRef::Generic { name, type_args, .. } => {
            let mut cs = chars_of(name.as_str());
            out.append(&mut cs);
            out.push('<');
            let ghost head = out@;
            let mut i: usize = 0;
            while i < type_args.len()
                invariant
                    i <= type_args@.len(),
                    out@ == head + type_records_joined(type_args@.take(i as int)),
                decreases type_args.len() - i,
            {
                if i > 0 {
                    out.push(',');
                    out.push(' ');
                }
                proof {
                    assert(decreases_to!(*t => type_args@[i as int]));
                }
                push_format_type_ref(&type_args[i], out);
                proof {
                    let tk = type_args@.take(i + 1);
                    assert(tk.drop_last() =~= type_args@.take(i as int));
                    assert(tk.last() == type_args@[i as int]);
                    if i == 0 {
                        assert(tk.len() == 1 && tk[0] == type_args@[0]);
                    }
                    assert(out@ =~= head + type_records_joined(tk));
                }
                i = i + 1;
            }
            out.push('>');
            proof {
                assert(type_args@.take(type_args@.len() as int) =~= type_args@);
                assert(out@ =~= old(out)@ + type_record_text(*t));
            }
        },
        TypeRef::Array { element_type, .. } => {
            push_format_type_ref(element_type, out);
            out.push('[');
            out.push(']');
            assert(out@ =~= old(out)@ + type_record_text(*t));
        },
        TypeRef::Delegate { return_type, .. } => {
            let mut cs = chars_of("Delegate<");
            out.append(&mut cs);
            push_format_type_ref(return_type, out);
            out.push('>');
            assert(out@ =~= old(out)@ + type_record_text(*t));
        },
        TypeRef::Injector { base_type, .. } => {
            let mut cs = chars_of("Injector<");
            out.append(&mut cs);
            push_format_type_ref(base_type, out);
            out.push('>');
            assert(out@ =~= old(out)@ + type_record_text(*t));
        },
    }
}

/// The text of type `t` as recorded with annotations.
fn format_type_ref(t: &TypeRef) -> (r: String)
    ensures
        r@ == type_record_text(*t),
{
    let mut out: Vec<char> = Vec::new();
    push_format_type_ref(t, &mut out);
    assert(out@ =~= type_record_text(*t));
    string_from_chars(&out)
}

/// The name and the text of each argument of an annotation.
pub open spec fn argument_texts(args: Seq<(String, Expression)>) -> Seq<(Seq<char>, Seq<char>)> {
    args.map_values(|a: (String, Expression)| (a.0@, literal_text(a.1)))
}

/// The name and the text of the value of each metadata entry that has one.
pub open spec fn metadata_texts(ms: Seq<MetadataEntry>) -> Seq<(Seq<char>, Seq<char>)>
    decreases ms.len(),
{
    if ms.len() == 0 {
        Seq::empty()
    } else {
        metadata_texts(ms.drop_last()) + match ms.last().value {
            Some(v) => seq![(ms.last().name@, literal_text(v))],
            None => Seq::empty(),
        }
    }
}

/// The pairs of `v` as text.
pub open spec fn text_pairs(v: Seq<(String, String)>) -> Seq<(Seq<char>, Seq<char>)> {
    v.map_values(|p: (String, String)| (p.0@, p.1@))
}

/// An annotation as recorded for a class: its generic type as text, its
/// arguments as text, then the metadata entries that have a value.
fn compile_annotation(a: &Annotation) -> (r: CompiledAnnotation)
    ensures
        r.name@ == a.name@,
        match a.generic_type {
            Some(t) => r.generic_type matches Some(g) && g@ == type_record_text(t),
            None => r.generic_type is None,
        },
        text_pairs(r.arguments@) == argument_texts(a.arguments@) + metadata_texts(a.metadatas@),
{
    let generic_type = match &a.generic_type {
        Some(t) => Some(format_type_ref(t)),
        None => None,
    };
    let mut arguments: Vec<(String, String)> = Vec::new();
    let mut i: usize = 0;
    while i < a.arguments.len()
        invariant
            i <= a.arguments@.len(),
            text_pairs(arguments@) == argument_texts(a.arguments@.take(i as int)),
        decreases a.arguments.len() - i,
    {
        let (k, expr) = &a.arguments[i];
        let key = k.clone();
        let text = literal_to_string(expr);
        let ghost before = arguments@;
        arguments.push((key, text));
        proof {
            assert(text_pairs(arguments@) =~= text_pairs(before).push((key@, text@)));
            assert(a.arguments@.take(i + 1) =~= a.arguments@.take(i as int).push(a.arguments@[i as int]));
            assert(argument_texts(a.arguments@.take(i + 1)) =~= argument_texts(a.arguments@.take(i as int)).push(
                (a.arguments@[i as int].0@, literal_text(a.arguments@[i as int].1)),
            ));
        }
        i = i + 1;
    }
    proof {
        assert(a.arguments@.take(a.arguments@.len() as int) =~= a.arguments@);
    }
    let ghost head = argument_texts(a.arguments@);
    let mut j: usize = 0;
    while j < a.metadatas.len()
        invariant
            j <= a.metadatas@.len(),
            text_pairs(arguments@) == head + metadata_texts(a.metadatas@.take(j as int)),
        decreases a.metadatas.len() - j,
    {
        let meta = &a.metadatas[j];
        let ghost before = arguments@;
        proof {
            let tk = a.metadatas@.take(j + 1);
            assert(tk.drop_last() =~= a.metadatas@.take(j as int));
            assert(tk.last() == a.metadatas@[j as int]);
        }
        match &meta.value {
            Some(expr) => {
                let key = meta.name.clone();
                let text = literal_to_string(expr);
                arguments.push((key, text));
                proof {
                    assert(text_pairs(arguments@) =~= text_pairs(before).push((key@, text@)));
                    assert(text_pairs(arguments@) =~= head + metadata_texts(a.metadatas@.take(j + 1)));
                }
            },
            None => {
                proof {
                    assert(metadata_texts(a.metadatas@.take(j + 1)) =~= metadata_texts(a.metadatas@.take(j as int)));
                }
            },
        }
        j = j + 1;
    }
    proof {
        assert(a.metadatas@.take(a.metadatas@.len() as int) =~= a.metadatas@);
    }
    CompiledAnnotation { name: a.name.clone(), generic_type, arguments }
}

// ==================== declaration passes ====================

/// An annotation as recorded for a class: its name, its generic type as
/// text, and its arguments and metadata values as text.
#[derive(Debug)]
pub struct CompiledAnnotation {
    pub name: String,
    pub generic_type: Option<String>,
    pub arguments: Vec<(String, String)>,
}

/// The declaration passes of the compiler and what they build: the symbol
/// table, the diagnostics, the annotations and injector fields of each class,
/// and the tasks left for code generation.
pub struct Compiler {
    pub symbol_table: SymbolTable,
    pub diagnostics: Diagnostics,
    /// The namespace of the source being declared, if it names one.
    pub current_namespace_id: Option<NamespaceId>,
    /// The annotations of each class, by class name.
    pub class_annotations: Vec<(String, Vec<CompiledAnnotation>)>,
    /// The bodies and initializers left for code generation, in the order
    /// they were declared.
    pub tasks: Vec<CompileTask>,
    /// The injector fields of each class, by class name.
    pub injector_fields: Vec<(String, Vec<InjectorFieldDef>)>,
    /// How many injector constructors each class has declared.
    pub class_injector_constructor_count: Vec<(ClassId, usize)>,
    /// Each injector constructor declared, with its number among the
    /// injector constructors of its class.
    pub injector_constructor_ids: Vec<(ConstructorId, usize)>,
    /// For each frozen class with injector constructors, by class name: for
    /// each injector constructor number, the global number of the
    /// constructor of the class that has it (0 where none has).
    pub injector_constructor_impl_id: Vec<(String, Vec<usize>)>,
    /// The generic parameters of the class whose members are being declared.
    pub current_generic_params: Vec<String>,
}

/// The scope reached from scope `scope` by following `parts[k..]` while each
/// part names a namespace declared in the scope reached so far.
pub open spec fn namespace_scope_walk(st: SymbolTable, scope: int, parts: Seq<String>, k: int) -> int
    decreases parts.len() - k,
{
    if k < 0 || k >= parts.len() {
        scope
    } else if st.scopes@[scope].symbols@.contains_key(parts[k]@)
        && st.scopes@[scope].symbols@[parts[k]@] is Namespace {
        namespace_scope_walk(
            st,
            st.namespaces@[st.scopes@[scope].symbols@[parts[k]@]->Namespace_0.0 as int].scope_id.0 as int,
            parts,
            k + 1,
        )
    } else {
        scope
    }
}

/// The scope of the type that top-level member `m` declares, as its name
/// resolves from scope `search`.
pub open spec fn member_type_scope(st: SymbolTable, search: int, m: TopLevelMember) -> Option<ScopeId> {
    match m {
        TopLevelMember::Class(d) => match resolve(st.scopes@, search, d.name@) {
            Some((SymbolEntry::Class(id), _)) => Some(st.classes@[id.0 as int].scope_id),
            _ => None,
        },
        TopLevelMember::Interface(d) => match resolve(st.scopes@, search, d.name@) {
            Some((SymbolEntry::Interface(id), _)) => Some(st.interfaces@[id.0 as int].scope_id),
            _ => None,
        },
        TopLevelMember::Enum(d) => match resolve(st.scopes@, search, d.name@) {
            Some((SymbolEntry::Enum(id), _)) => Some(st.enums@[id.0 as int].scope_id),
            _ => None,
        },
    }
}

/// The first of the parts `parts[k..]` of a namespace name that does not
/// name a namespace, each looked up in the namespace the parts before it
/// reached, starting from scope `scope`.
pub open spec fn missing_namespace_part(st: SymbolTable, scope: int, parts: Seq<String>, k: int) -> Option<Seq<char>>
    decreases parts.len() - k,
{
    if k < 0 || k >= parts.len() {
        None
    } else {
        match chain_find(st.scopes@, scope, parts[k]@) {
            Some(SymbolEntry::Namespace(ns)) => missing_namespace_part(
                st,
                st.namespaces@[ns.0 as int].scope_id.0 as int,
                parts,
                k + 1,
            ),
            _ => Some(parts[k]@),
        }
    }
}

/// The errors, message and place, that the `using` directives `usings`
/// give: one for each whose namespace does not exist, naming its first part
/// that is not found, at the namespace name.
pub open spec fn using_errors(st: SymbolTable, usings: Seq<UsingDirective>) -> Seq<(Seq<char>, Span)>
    decreases usings.len(),
{
    if usings.len() == 0 {
        seq![]
    } else {
        let prev = using_errors(st, usings.drop_last());
        match missing_namespace_part(st, st.global_scope.0 as int, usings.last().name.parts@, 0) {
            Some(part) => prev.push(("未找到命名空间 `"@ + part + "`"@, usings.last().name.span)),
            None => prev,
        }
    }
}

/// The scope of a type that a member names exists.
pub proof fn lemma_member_type_scope_exists(st: SymbolTable, search: int, m: TopLevelMember)
    requires
        st.wf(),
        st.type_entries_valid(),
    ensures
        member_type_scope(st, search, m) matches Some(t) ==> t.0 < st.scopes@.len(),
{
    let name = match m {
        TopLevelMember::Class(d) => d.name@,
        TopLevelMember::Interface(d) => d.name@,
        TopLevelMember::Enum(d) => d.name@,
    };
    lemma_resolve_entry_valid(&st, search, name);
}

/// Whether `o` is scope `j`.
pub open spec fn is_scope(o: Option<ScopeId>, j: int) -> bool {
    o matches Some(t) && t.0 == j
}

/// No type that `members` declare has its scope where resolution from
/// `search` looks.
pub open spec fn member_scopes_off_chain(st: SymbolTable, search: int, members: Seq<TopLevelMember>) -> bool {
    forall|k: int|
        0 <= k < members.len() ==> ((#[trigger] member_type_scope(st, search, members[k])) matches Some(
            t,
        ) ==> !on_scope_chain(st.scopes@, search, t.0 as int))
}

/// The number of modifiers in `mods` that are not `native`.
pub open spec fn non_native_count(mods: Seq<Modifier>) -> nat
    decreases mods.len(),
{
    if mods.len() == 0 {
        0
    } else {
        non_native_count(mods.drop_last()) + if mods.last() == Modifier::Native {
            0nat
        } else {
            1nat
        }
    }
}

/// `f` is `o` after the super class and super interfaces of class `decl`
/// (found from `scope`) are resolved, or the errors reported.
pub open spec fn class_hierarchy_resolved(o: Compiler, f: Compiler, scope: ScopeId, decl: ClassDeclaration) -> bool {
    &&& f.wf()
    &&& f.reports_after(o)
    &&& new_reports_are_errors(o, f)
    &&& f.symbol_table.scopes@ == o.symbol_table.scopes@
    &&& f.symbol_table.classes@.len() == o.symbol_table.classes@.len()
    &&& f.current_namespace_id == o.current_namespace_id
    &&& match resolve(o.symbol_table.scopes@, scope.0 as int, decl.name@) {
        Some((SymbolEntry::Class(cid), _)) => {
            let oc = o.symbol_table.classes@[cid.0 as int];
            let nc = f.symbol_table.classes@[cid.0 as int];
            let sc = o.symbol_table.scopes@;
            let cs = oc.scope_id.0 as int;
            let ids = implemented_ids(sc, cs, decl.super_interfaces@);
            &&& forall|i: int|
                0 <= i < o.symbol_table.classes@.len() && i != cid.0
                    ==> #[trigger] f.symbol_table.classes@[i]
                    == o.symbol_table.classes@[i]
            &&& if oc.inheritance_frozen && (decl.super_class is Some
                || decl.super_interfaces@.len() > 0) {
                &&& nc == oc
                &&& f.diagnostics.items@.len() == o.diagnostics.items@.len() + 1
                &&& f.diagnostics.items@.last().message@ == inheritance_frozen_message(
                    oc.name@,
                )
            } else {
                &&& nc.super_class == match decl.super_class {
                    Some(t) => match entity_named(sc, cs, t) {
                        Some(TypeInfo::Object(c)) => Some(c),
                        _ => oc.super_class,
                    },
                    None => oc.super_class,
                }
                &&& nc.super_interfaces@ == if ids.len() > 0 {
                    ids
                } else {
                    oc.super_interfaces@
                }
                &&& nc == (ClassInfo {
                    super_class: nc.super_class,
                    super_interfaces: nc.super_interfaces,
                    ..oc
                })
                &&& f.diagnostics.items@.len() == o.diagnostics.items@.len()
                    + one_if(
                    match decl.super_class {
                        Some(t) => !(entity_named(sc, cs, t) matches Some(TypeInfo::Object(_))),
                        None => false,
                    },
                ) + implement_errors(sc, cs, decl.super_interfaces@)
            }
        },
        _ => f.symbol_table.classes@ == o.symbol_table.classes@
            && f.diagnostics.items@.len() == o.diagnostics.items@.len() + 1,
    }
    &&& names_kept(o.symbol_table, f.symbol_table)
}

/// Every diagnostic that `f` holds beyond those of `o` is an error.
pub open spec fn new_reports_are_errors(o: Compiler, f: Compiler) -> bool {
    forall|k: int|
        o.diagnostics.items@.len() <= k < f.diagnostics.items@.len()
            ==> (#[trigger] f.diagnostics.items@[k]).severity == Severity::Error
}

/// `f` is `o` after the super interfaces of interface `decl` (found from
/// `scope`) are resolved, or the errors reported.
pub open spec fn interface_hierarchy_resolved(o: Compiler, f: Compiler, scope: ScopeId, decl: InterfaceDeclaration) -> bool {
    &&& f.wf()
    &&& f.reports_after(o)
    &&& f.symbol_table.scopes@ == o.symbol_table.scopes@
    &&& f.symbol_table.classes@ == o.symbol_table.classes@
    &&& f.symbol_table.interfaces@.len() == o.symbol_table.interfaces@.len()
    &&& f.current_namespace_id == o.current_namespace_id
    &&& match resolve(o.symbol_table.scopes@, scope.0 as int, decl.name@) {
        Some((SymbolEntry::Interface(iid), _)) => {
            let oi = o.symbol_table.interfaces@[iid.0 as int];
            let ni = f.symbol_table.interfaces@[iid.0 as int];
            let sc = o.symbol_table.scopes@;
            let is = oi.scope_id.0 as int;
            let ids = implemented_ids(sc, is, decl.super_interfaces@);
            &&& forall|i: int|
                0 <= i < o.symbol_table.interfaces@.len() && i != iid.0
                    ==> #[trigger] f.symbol_table.interfaces@[i]
                    == o.symbol_table.interfaces@[i]
            &&& ni == (InterfaceInfo {
                super_interfaces: if ids.len() > 0 {
                    ni.super_interfaces
                } else {
                    oi.super_interfaces
                },
                ..oi
            })
            &&& ids.len() > 0 ==> ni.super_interfaces@ == ids
            &&& f.diagnostics.items@.len() == o.diagnostics.items@.len()
                + non_interfaces(sc, is, decl.super_interfaces@)
        },
        _ => f.symbol_table.interfaces@ == o.symbol_table.interfaces@
            && f.diagnostics.items@.len() == o.diagnostics.items@.len() + 1,
    }
    &&& names_kept(o.symbol_table, f.symbol_table)
}

/// `f` is `o` after the values of enum `decl` (found from `scope`) are
/// declared, or the error reported where it names no enum.
pub open spec fn enum_values_resolved(o: Compiler, f: Compiler, scope: ScopeId, decl: EnumDeclaration) -> bool {
    &&& f.wf()
    &&& f.reports_after(o)
    &&& f.symbol_table.scopes@.len() == o.symbol_table.scopes@.len()
    &&& f.symbol_table.classes@ == o.symbol_table.classes@
    &&& f.current_namespace_id == o.current_namespace_id
    &&& match resolve(o.symbol_table.scopes@, scope.0 as int, decl.name@) {
        Some((SymbolEntry::Enum(eid), _)) => {
            let ov = o.symbol_table.enum_values@.len();
            let old_ids = o.symbol_table.enums@[eid.0 as int].values@;
            let new_ids = f.symbol_table.enums@[eid.0 as int].values@;
            &&& f.diagnostics == o.diagnostics
            &&& new_ids.len() == old_ids.len() + decl.values@.len()
            &&& new_ids.take(old_ids.len() as int) == old_ids
            &&& f.symbol_table.enum_values@.len() == ov + decl.values@.len()
            &&& f.symbol_table.enum_values@.take(ov as int)
                == o.symbol_table.enum_values@
            &&& forall|k: int|
                0 <= k < decl.values@.len() ==> {
                    let v = #[trigger] f.symbol_table.enum_values@[ov + k];
                    &&& new_ids[old_ids.len() + k].0 == ov + k
                    &&& v.name@ == decl.values@[k].name@
                    &&& v.value == decl.values@[k].value
                    &&& v.enum_id == eid
                }
        },
        _ => f.diagnostics.items@.len() == o.diagnostics.items@.len() + 1,
    }
    &&& names_kept(o.symbol_table, f.symbol_table)
}

/// `b` is `a` after the `using` directives of source `src`: one error for
/// each whose namespace does not exist, and, for the others, the namespace
/// made visible to types (scopes gain used scopes and nothing else).
pub open spec fn usings_reported(a: Compiler, b: Compiler, src: SourceFile) -> bool {
    let n0 = a.diagnostics.items@.len();
    let errs = using_errors(a.symbol_table, src.usings@);
    &&& b.wf()
    &&& b.reports_after(a)
    &&& b.diagnostics.items@.len() == n0 + errs.len()
    &&& forall|j: int|
        0 <= j < errs.len() ==> {
            let d = #[trigger] b.diagnostics.items@[n0 + j];
            &&& d.severity == Severity::Error
            &&& d.message@ == errs[j].0
            &&& d.span == errs[j].1
        }
    &&& same_but_usings(a.symbol_table.scopes@, b.symbol_table.scopes@)
    &&& b.symbol_table.namespaces@ == a.symbol_table.namespaces@
    &&& b.symbol_table.classes@ == a.symbol_table.classes@
    &&& b.symbol_table.interfaces@ == a.symbol_table.interfaces@
    &&& b.symbol_table.enums@ == a.symbol_table.enums@
    &&& b.symbol_table.global_scope == a.symbol_table.global_scope
    &&& b.current_namespace_id == a.current_namespace_id
}

/// One top-level member in pass 2: a class or an interface has its super
/// types resolved, an enum its values declared.
pub open spec fn pass2_member_step(s0: Compiler, s1: Compiler, scope: ScopeId, m: TopLevelMember) -> bool {
    match m {
        TopLevelMember::Class(d) => class_hierarchy_resolved(s0, s1, scope, d),
        TopLevelMember::Interface(d) => interface_hierarchy_resolved(s0, s1, scope, d),
        TopLevelMember::Enum(d) => enum_values_resolved(s0, s1, scope, d),
    }
}

/// `b` is `a` after pass 2 has taken `members`, in order, from `scope`.
pub open spec fn pass2_members_run(a: Compiler, b: Compiler, scope: ScopeId, members: Seq<TopLevelMember>) -> bool
    decreases members.len(),
{
    if members.len() == 0 {
        b == a
    } else {
        exists|m0: Compiler|
            #![trigger pass2_member_step(m0, b, scope, members.last())]
            pass2_members_run(a, m0, scope, members.drop_last()) && pass2_member_step(
                m0,
                b,
                scope,
                members.last(),
            )
    }
}

/// `b` is `a` after pass 2 has taken `sources`, source by source: its
/// `using` directives, then its members from the scope of its namespace.
pub open spec fn pass2_sources_run(a: Compiler, b: Compiler, sources: Seq<SourceFile>) -> bool
    decreases sources.len(),
{
    if sources.len() == 0 {
        b == a
    } else {
        exists|m: Compiler, u: Compiler|
            #![trigger usings_reported(m, u, sources.last())]
            pass2_sources_run(a, m, sources.drop_last()) && usings_reported(m, u, sources.last())
                && pass2_members_run(u, b, source_scope(m.symbol_table, sources.last()), sources.last().members@)
    }
}

impl Compiler {
    /// The compiler's invariant: a sound symbol table, and a current
    /// namespace that exists.
    pub closed spec fn wf(&self) -> bool {
        &&& self.symbol_table.wf()
        &&& self.symbol_table.type_entries_valid()
        &&& (self.current_namespace_id matches Some(ns) ==> ns.0
            < self.symbol_table.namespaces@.len())
    }

    /// `self` is `old` with diagnostics added after `old`'s.
    pub open spec fn reports_after(&self, old: Compiler) -> bool {
        &&& old.diagnostics.items@.len() <= self.diagnostics.items@.len()
        &&& forall|k: int|
            0 <= k < old.diagnostics.items@.len() ==> #[trigger] self.diagnostics.items@[k]
                == old.diagnostics.items@[k]
    }

    /// `self` is `old` but for its diagnostics.
    pub open spec fn only_reports_changed(&self, old: Compiler) -> bool {
        &&& self.symbol_table == old.symbol_table
        &&& self.current_namespace_id == old.current_namespace_id
        &&& self.class_annotations@ == old.class_annotations@
        &&& self.tasks@ == old.tasks@
        &&& self.injector_fields@ == old.injector_fields@
        &&& self.class_injector_constructor_count@ == old.class_injector_constructor_count@
        &&& self.injector_constructor_ids@ == old.injector_constructor_ids@
        &&& self.injector_constructor_impl_id@ == old.injector_constructor_impl_id@
        &&& self.current_generic_params@ == old.current_generic_params@
    }

    /// A compiler with an empty symbol table and nothing reported.
    pub fn new() -> (c: Self)
        ensures
            c.wf(),
            c.symbol_table.scopes@.len() == 1,
            c.symbol_table.classes@.len() == 0,
            c.diagnostics.items@.len() == 0,
            c.class_annotations@.len() == 0,
            c.tasks@.len() == 0,
            c.injector_fields@.len() == 0,
            c.injector_constructor_ids@.len() == 0,
            c.injector_constructor_impl_id@.len() == 0,
            c.class_injector_constructor_count@.len() == 0,
            c.current_generic_params@.len() == 0,
            c.current_namespace_id is None,
    {
        Compiler {
            symbol_table: SymbolTable::new(),
            diagnostics: Diagnostics::new(),
            current_namespace_id: None,
            class_annotations: Vec::new(),
            tasks: Vec::new(),
            injector_fields: Vec::new(),
            class_injector_constructor_count: Vec::new(),
            injector_constructor_ids: Vec::new(),
            injector_constructor_impl_id: Vec::new(),
            current_generic_params: Vec::new(),
        }
    }

    /// Reports error `message` at `span`.
    fn report(&mut self, span: Span, message: String)
        requires
            old(self).wf(),
        ensures
            final(self).wf(),
            final(self).reports_after(*old(self)),
            final(self).diagnostics.items@.len() == old(self).diagnostics.items@.len() + 1,
            final(self).diagnostics.items@.last().severity == Severity::Error,
            final(self).diagnostics.items@.last().message@ == message@,
            final(self).diagnostics.items@.last().span == span,
            final(self).only_reports_changed(*old(self)),
            final(self).symbol_table == old(self).symbol_table,
            final(self).current_namespace_id == old(self).current_namespace_id,
            final(self).class_annotations@ == old(self).class_annotations@,
    {
        let ghost before = self.diagnostics.items@;
        self.diagnostics.emit_error(span, message);
        proof {
            assert forall|k: int| 0 <= k < before.len() implies #[trigger] self.diagnostics.items@[k]
                == before[k] by {
                assert(self.diagnostics.items@.take(before.len() as int)[k]
                    == self.diagnostics.items@[k]);
            }
        }
    }

    /// Reports each modifier of `modifiers` but `native` as not allowed on
    /// the `kind` named `name`.
    fn report_non_native_modifiers(&mut self, span: Span, kind: &str, name: &String, modifiers: &Vec<Modifier>)
        requires
            old(self).wf(),
        ensures
            final(self).wf(),
            final(self).reports_after(*old(self)),
            final(self).diagnostics.items@.len() == old(self).diagnostics.items@.len()
                + non_native_count(modifiers@),
            final(self).only_reports_changed(*old(self)),
            final(self).symbol_table == old(self).symbol_table,
            final(self).current_namespace_id == old(self).current_namespace_id,
            final(self).class_annotations@ == old(self).class_annotations@,
    {
        let ghost start = *self;
        let mut i: usize = 0;
        while i < modifiers.len()
            invariant
                self.wf(),
                self.reports_after(start),
                i <= modifiers@.len(),
                self.diagnostics.items@.len() == start.diagnostics.items@.len() + non_native_count(
                    modifiers@.take(i as int),
                ),
                self.only_reports_changed(start),
                self.symbol_table == start.symbol_table,
                self.current_namespace_id == start.current_namespace_id,
                self.class_annotations@ == start.class_annotations@,
            decreases modifiers.len() - i,
        {
            let m = modifiers[i];
            proof {
                assert(modifiers@.take(i + 1).drop_last() =~= modifiers@.take(i as int));
            }
            if m != Modifier::Native {
                let msg = String::from_str(kind).concat(" `").concat(name.as_str()).concat(
                    "` 不允许使用修饰符 `",
                ).concat(modifier_name(m)).concat("`");
                self.report(span, msg);
            }
            i = i + 1;
        }
        proof {
            assert(modifiers@.take(modifiers@.len() as int) =~= modifiers@);
        }
    }

    /// Whether scope `scope` declares `name` itself.
    fn has_symbol_in_scope(&self, scope: ScopeId, name: &str) -> (r: bool)
        requires
            self.symbol_table.wf(),
            self.symbol_table.has_scope(scope),
        ensures
            r == self.symbol_table.scopes@[scope.0 as int].symbols@.contains_key(name@),
    {
        self.symbol_table.lookup_local(scope, name).is_some()
    }

    /// Finds the namespace `A.B.C` from the global scope, declaring each part
    /// that does not exist yet.
    fn lookup_or_create_namespace(&mut self, name: &QualifiedName) -> (ns: NamespaceId)
        requires
            old(self).wf(),
            name.parts@.len() >= 1,
        ensures
            final(self).wf(),
            ns.0 < final(self).symbol_table.namespaces@.len(),
            final(self).diagnostics == old(self).diagnostics,
            final(self).current_namespace_id == old(self).current_namespace_id,
            final(self).class_annotations@ == old(self).class_annotations@,
            final(self).symbol_table.classes@ == old(self).symbol_table.classes@,
            final(self).symbol_table.interfaces@ == old(self).symbol_table.interfaces@,
            final(self).symbol_table.enums@ == old(self).symbol_table.enums@,
    {
        let ghost start = *self;
        let mut current_scope = self.symbol_table.global_scope;
        let mut ns_id = NamespaceId(0);
        let mut k: usize = 0;
        while k < name.parts.len()
            invariant
                self.wf(),
                self.symbol_table.has_scope(current_scope),
                k <= name.parts@.len(),
                k > 0 ==> ns_id.0 < self.symbol_table.namespaces@.len(),
                self.diagnostics == start.diagnostics,
                self.current_namespace_id == start.current_namespace_id,
                self.class_annotations@ == start.class_annotations@,
                self.symbol_table.classes@ == start.symbol_table.classes@,
                self.symbol_table.interfaces@ == start.symbol_table.interfaces@,
                self.symbol_table.enums@ == start.symbol_table.enums@,
                start.current_namespace_id matches Some(c) ==> c.0 < start.symbol_table.namespaces@.len(),
                start.symbol_table.namespaces@.len() <= self.symbol_table.namespaces@.len(),
            decreases name.parts.len() - k,
        {
            let part = name.parts[k].as_str();
            let found = match self.symbol_table.lookup_local(current_scope, part) {
                Some(SymbolEntry::Namespace(id)) => Some(*id),
                _ => None,
            };
            match found {
                Some(id) => {
                    proof {
                        assert(self.symbol_table.scopes@[current_scope.0 as int].symbols@.contains_key(
                            part@,
                        ));
                    }
                    ns_id = id;
                    current_scope = self.symbol_table.namespaces.get(id.0).scope_id;
                },
                None => {
                    let new_id = self.symbol_table.declare_namespace(part, current_scope);
                    ns_id = new_id;
                    current_scope = self.symbol_table.namespaces.get(new_id.0).scope_id;
                },
            }
            k = k + 1;
        }
        ns_id
    }

    /// Records `anns` as the annotations of class `name`, replacing what was recorded for it.
    fn set_class_annotations(&mut self, name: String, anns: Vec<CompiledAnnotation>)
        requires
            old(self).wf(),
        ensures
            final(self).wf(),
            final(self).symbol_table == old(self).symbol_table,
            final(self).diagnostics == old(self).diagnostics,
            final(self).current_namespace_id == old(self).current_namespace_id,
            final(self).tasks@ == old(self).tasks@,
            final(self).injector_fields@ == old(self).injector_fields@,
            final(self).class_injector_constructor_count@ == old(
                self,
            ).class_injector_constructor_count@,
            final(self).injector_constructor_ids@ == old(self).injector_constructor_ids@,
            final(self).injector_constructor_impl_id@ == old(self).injector_constructor_impl_id@,
            final(self).current_generic_params@ == old(self).current_generic_params@,
            (forall|k: int|
                0 <= k < old(self).class_annotations@.len()
                    ==> (#[trigger] old(self).class_annotations@[k]).0@ != name@)
                ==> final(self).class_annotations@ == old(self).class_annotations@.push((name, anns)),
            forall|k: int|
                0 <= k < old(self).class_annotations@.len()
                    && (#[trigger] old(self).class_annotations@[k]).0@ == name@
                    && (forall|j: int| 0 <= j < k ==> old(self).class_annotations@[j].0@ != name@)
                    ==> final(self).class_annotations@
                    == old(self).class_annotations@.update(k, (name, anns)),
    {
        let mut i: usize = 0;
        while i < self.class_annotations.len()
            invariant
                i <= self.class_annotations@.len(),
                *self == *old(self),
                old(self).wf(),
                forall|j: int| 0 <= j < i ==> old(self).class_annotations@[j].0@ != name@,
            decreases self.class_annotations.len() - i,
        {
            if self.class_annotations[i].0 == name {
                self.class_annotations.set(i, (name, anns));
                return;
            }
            i = i + 1;
        }
        self.class_annotations.push((name, anns));
    }

    /// Pass 1 for a class: reports a name already declared in `scope` and
    /// every modifier but `native`, declares the class, records it in the
    /// current namespace, and keeps its generic parameters and annotations.
    fn pass1_declare_class(&mut self, scope: ScopeId, decl: &ClassDeclaration)
        requires
            old(self).wf(),
            old(self).symbol_table.has_scope(scope),
        ensures
            final(self).wf(),
            final(self).reports_after(*old(self)),
            final(self).diagnostics.items@.len() == old(self).diagnostics.items@.len() + (if old(
                self,
            ).symbol_table.scopes@[scope.0 as int].symbols@.contains_key(decl.name@) {
                1int
            } else {
                0int
            }) + non_native_count(decl.modifiers@),
            final(self).symbol_table.scopes@.len() == old(self).symbol_table.scopes@.len() + 1,
            final(self).symbol_table.classes@.len() == old(self).symbol_table.classes@.len() + 1,
            final(self).symbol_table.classes@.last().name@ == decl.name@,
            final(self).symbol_table.classes@.drop_last() == old(self).symbol_table.classes@,
            final(self).symbol_table.interfaces@ == old(self).symbol_table.interfaces@,
            final(self).symbol_table.enums@ == old(self).symbol_table.enums@,
            final(self).symbol_table.classes@.last().is_native == decl.modifiers@.contains(Modifier::Native),
            resolve(final(self).symbol_table.scopes@, scope.0 as int, decl.name@) == Some(
                (SymbolEntry::Class(ClassId(old(self).symbol_table.classes@.len() as usize)), scope),
            ),
            final(self).current_namespace_id == old(self).current_namespace_id,
    {
        let ghost start = *self;
        if self.has_symbol_in_scope(scope, decl.name.as_str()) {
            let msg = String::from_str("重复的类声明 `").concat(decl.name.as_str()).concat("`");
            self.report(decl.span, msg);
        }
        self.report_non_native_modifiers(decl.span, "类", &decl.name, &decl.modifiers);
        let is_native = contains_modifier(&decl.modifiers, Modifier::Native);
        let class_id = self.symbol_table.declare_class(
            decl.name.as_str(),
            scope,
            None,
            Vec::new(),
            is_native,
            decl.span,
        );
        let ghost after_decl = self.symbol_table;
        match self.current_namespace_id {
            Some(ns) => {
                self.symbol_table.namespaces.get_mut(ns.0).classes.push(class_id);
            },
            None => {},
        }
        let params = copy_strings(&decl.generic_params);
        self.symbol_table.classes.get_mut(class_id.0).generic_params = params;
        proof {
            let st = self.symbol_table;
            assert forall|i: int| 0 <= i < st.namespaces@.len() implies (#[trigger] st.namespaces@[i]).scope_id.0
                < st.scopes@.len() by {
                assert(after_decl.namespaces@[i].scope_id == st.namespaces@[i].scope_id);
            }
            assert forall|i: int| 0 <= i < st.classes@.len() implies (#[trigger] st.classes@[i]).scope_id.0
                < st.scopes@.len() by {
                assert(after_decl.classes@[i].scope_id == st.classes@[i].scope_id);
            }
        }
        let mut anns: Vec<CompiledAnnotation> = Vec::new();
        let mut a: usize = 0;
        while a < decl.annotations.len()
            decreases decl.annotations.len() - a,
        {
            anns.push(compile_annotation(&decl.annotations[a]));
            a = a + 1;
        }
        if anns.len() > 0 {
            self.set_class_annotations(decl.name.clone(), anns);
        }
    }

    /// Pass 1 for an interface: reports a name already declared in `scope`
    /// and every modifier but `native`, declares the interface and records it
    /// in the current namespace.
    fn pass1_declare_interface(&mut self, scope: ScopeId, decl: &InterfaceDeclaration)
        requires
            old(self).wf(),
            old(self).symbol_table.has_scope(scope),
        ensures
            final(self).wf(),
            final(self).reports_after(*old(self)),
            final(self).diagnostics.items@.len() == old(self).diagnostics.items@.len() + (if old(
                self,
            ).symbol_table.scopes@[scope.0 as int].symbols@.contains_key(decl.name@) {
                1int
            } else {
                0int
            }) + non_native_count(decl.modifiers@),
            final(self).symbol_table.scopes@.len() == old(self).symbol_table.scopes@.len() + 1,
            final(self).symbol_table.interfaces@.len() == old(self).symbol_table.interfaces@.len() + 1,
            final(self).symbol_table.interfaces@.last().name@ == decl.name@,
            final(self).symbol_table.interfaces@.drop_last() == old(self).symbol_table.interfaces@,
            final(self).symbol_table.classes@ == old(self).symbol_table.classes@,
            final(self).symbol_table.enums@ == old(self).symbol_table.enums@,
            resolve(final(self).symbol_table.scopes@, scope.0 as int, decl.name@) == Some(
                (
                    SymbolEntry::Interface(InterfaceId(old(self).symbol_table.interfaces@.len() as usize)),
                    scope,
                ),
            ),
            final(self).current_namespace_id == old(self).current_namespace_id,
    {
        if self.has_symbol_in_scope(scope, decl.name.as_str()) {
            let msg = String::from_str("重复的接口声明 `").concat(decl.name.as_str()).concat("`");
            self.report(decl.span, msg);
        }
        self.report_non_native_modifiers(decl.span, "接口", &decl.name, &decl.modifiers);
        let iface_id = self.symbol_table.declare_interface(decl.name.as_str(), scope, Vec::new(), decl.span);
        let ghost after_decl = self.symbol_table;
        match self.current_namespace_id {
            Some(ns) => {
                self.symbol_table.namespaces.get_mut(ns.0).interfaces.push(iface_id);
            },
            None => {},
        }
        proof {
            let st = self.symbol_table;
            assert forall|i: int| 0 <= i < st.namespaces@.len() implies (#[trigger] st.namespaces@[i]).scope_id.0
                < st.scopes@.len() by {
                assert(after_decl.namespaces@[i].scope_id == st.namespaces@[i].scope_id);
            }
        }
    }

    /// Pass 1 for an enum: reports every modifier but `native`, declares the
    /// enum and records it in the current namespace.
    fn pass1_declare_enum(&mut self, scope: ScopeId, decl: &EnumDeclaration)
        requires
            old(self).wf(),
            old(self).symbol_table.has_scope(scope),
        ensures
            final(self).wf(),
            final(self).reports_after(*old(self)),
            final(self).diagnostics.items@.len() == old(self).diagnostics.items@.len()
                + non_native_count(decl.modifiers@),
            final(self).symbol_table.scopes@.len() == old(self).symbol_table.scopes@.len() + 1,
            final(self).symbol_table.enums@.len() == old(self).symbol_table.enums@.len() + 1,
            final(self).symbol_table.enums@.last().name@ == decl.name@,
            final(self).symbol_table.enums@.drop_last() == old(self).symbol_table.enums@,
            final(self).symbol_table.classes@ == old(self).symbol_table.classes@,
            final(self).symbol_table.interfaces@ == old(self).symbol_table.interfaces@,
            resolve(final(self).symbol_table.scopes@, scope.0 as int, decl.name@) == Some(
                (SymbolEntry::Enum(EnumId(old(self).symbol_table.enums@.len() as usize)), scope),
            ),
            final(self).current_namespace_id == old(self).current_namespace_id,
    {
        self.report_non_native_modifiers(decl.span, "枚举", &decl.name, &decl.modifiers);
        let enum_id = self.symbol_table.declare_enum(decl.name.as_str(), scope, decl.span);
        let ghost after_decl = self.symbol_table;
        match self.current_namespace_id {
            Some(ns) => {
                self.symbol_table.namespaces.get_mut(ns.0).enums.push(enum_id);
            },
            None => {},
        }
        proof {
            let st = self.symbol_table;
            assert forall|i: int| 0 <= i < st.namespaces@.len() implies (#[trigger] st.namespaces@[i]).scope_id.0
                < st.scopes@.len() by {
                assert(after_decl.namespaces@[i].scope_id == st.namespaces@[i].scope_id);
            }
        }
    }

    /// Pass 1 for one source: the scope of its namespace (declared where
    /// new) or the global scope, and every top-level declaration in it.
    fn pass1_process_source(&mut self, source: &SourceFile)
        requires
            old(self).wf(),
            namespace_named(*source),
        ensures
            final(self).wf(),
            final(self).reports_after(*old(self)),
            table_names(final(self).symbol_table) == names_appended(
                table_names(old(self).symbol_table),
                declared_names(source.members@),
            ),
    {
        let ghost start = *self;
        let scope = match &source.namespace {
            Some(ns_name) => {
                let ns_id = self.lookup_or_create_namespace(ns_name);
                self.current_namespace_id = Some(ns_id);
                self.symbol_table.namespaces.get(ns_id.0).scope_id
            },
            None => {
                self.current_namespace_id = None;
                self.symbol_table.global_scope
            },
        };
        assert(table_names(self.symbol_table) == table_names(start.symbol_table));
        assert(source.members@.take(0) =~= Seq::<TopLevelMember>::empty());
        let mut i: usize = 0;
        while i < source.members.len()
            invariant
                self.wf(),
                self.reports_after(start),
                self.symbol_table.has_scope(scope),
                i <= source.members@.len(),
                table_names(self.symbol_table) == names_appended(
                    table_names(start.symbol_table),
                    declared_names(source.members@.take(i as int)),
                ),
            decreases source.members.len() - i,
        {
            let ghost before = self.symbol_table;
            proof {
                let tk = source.members@.take(i + 1);
                assert(tk.drop_last() =~= source.members@.take(i as int));
                assert(tk.last() == source.members@[i as int]);
            }
            match &source.members[i] {
                TopLevelMember::Class(class_decl) => {
                    self.pass1_declare_class(scope, class_decl);
                    proof {
                        let a = self.symbol_table.classes@;
                        assert(a.map_values(|c: ClassInfo| c.name@) =~= before.classes@.map_values(
                            |c: ClassInfo| c.name@,
                        ).push(class_decl.name@)) by {
                            assert forall|k: int| 0 <= k < before.classes@.len() implies a[k]
                                == before.classes@[k] by {
                                assert(a.drop_last()[k] == a[k]);
                            }
                        }
                    }
                },
                TopLevelMember::Interface(iface_decl) => {
                    self.pass1_declare_interface(scope, iface_decl);
                    proof {
                        let a = self.symbol_table.interfaces@;
                        assert(a.map_values(|d: InterfaceInfo| d.name@) =~= before.interfaces@.map_values(
                            |d: InterfaceInfo| d.name@,
                        ).push(iface_decl.name@)) by {
                            assert forall|k: int| 0 <= k < before.interfaces@.len() implies a[k]
                                == before.interfaces@[k] by {
                                assert(a.drop_last()[k] == a[k]);
                            }
                        }
                    }
                },
                TopLevelMember::Enum(enum_decl) => {
                    self.pass1_declare_enum(scope, enum_decl);
                    proof {
                        let a = self.symbol_table.enums@;
                        assert(a.map_values(|d: EnumInfo| d.name@) =~= before.enums@.map_values(
                            |d: EnumInfo| d.name@,
                        ).push(enum_decl.name@)) by {
                            assert forall|k: int| 0 <= k < before.enums@.len() implies a[k]
                                == before.enums@[k] by {
                                assert(a.drop_last()[k] == a[k]);
                            }
                        }
                    }
                },
            }
            proof {
                let t0 = table_names(start.symbol_table);
                let d0 = declared_names(source.members@.take(i as int));
                let d1 = declared_names(source.members@.take(i + 1));
                assert(d1.0 =~= d0.0 + (d1.0.subrange(d0.0.len() as int, d1.0.len() as int)));
                assert(table_names(self.symbol_table).0 =~= t0.0 + d1.0);
                assert(table_names(self.symbol_table).1 =~= t0.1 + d1.1);
                assert(table_names(self.symbol_table).2 =~= t0.2 + d1.2);
            }
            i = i + 1;
        }
        proof {
            assert(source.members@.take(source.members@.len() as int) =~= source.members@);
        }
    }

    /// Pass 1: declares the types of every source; `Err` when an error has
    /// been reported (in this pass or before).
    pub fn pass1_type_identifier(&mut self, sources: &[SourceFile]) -> (r: Result<(), ()>)
        requires
            old(self).wf(),
            forall|i: int| 0 <= i < sources@.len() ==> namespace_named(#[trigger] sources@[i]),
        ensures
            final(self).wf(),
            final(self).reports_after(*old(self)),
            r is Err <==> has_error(final(self).diagnostics.items@),
            table_names(final(self).symbol_table) == names_appended(
                table_names(old(self).symbol_table),
                sources_declared_names(sources@),
            ),
    {
        let ghost start = *self;
        assert(sources@.take(0) =~= Seq::<SourceFile>::empty());
        let mut i: usize = 0;
        while i < sources.len()
            invariant
                self.wf(),
                self.reports_after(start),
                forall|j: int| 0 <= j < sources@.len() ==> namespace_named(#[trigger] sources@[j]),
                i <= sources@.len(),
                table_names(self.symbol_table) == names_appended(
                    table_names(start.symbol_table),
                    sources_declared_names(sources@.take(i as int)),
                ),
            decreases sources.len() - i,
        {
            proof {
                let tk = sources@.take(i + 1);
                assert(tk.drop_last() =~= sources@.take(i as int));
                assert(tk.last() == sources@[i as int]);
            }
            self.pass1_process_source(&sources[i]);
            proof {
                let t0 = table_names(start.symbol_table);
                let d1 = sources_declared_names(sources@.take(i + 1));
                assert(table_names(self.symbol_table).0 =~= t0.0 + d1.0);
                assert(table_names(self.symbol_table).1 =~= t0.1 + d1.1);
                assert(table_names(self.symbol_table).2 =~= t0.2 + d1.2);
            }
            i = i + 1;
        }
        proof {
            assert(sources@.take(sources@.len() as int) =~= sources@);
        }
        if self.diagnostics.has_errors() {
            Err(())
        } else {
            Ok(())
        }
    }

    /// The scope of namespace `A.B.C`, followed from the global scope as far
    /// as its parts are declared namespaces.
    fn lookup_namespace_scope(&self, name: &QualifiedName) -> (r: ScopeId)
        requires
            self.wf(),
        ensures
            self.symbol_table.has_scope(r),
            r.0 == namespace_scope_walk(
                self.symbol_table,
                self.symbol_table.global_scope.0 as int,
                name.parts@,
                0,
            ),
    {
        let mut current_scope = self.symbol_table.global_scope;
        let mut k: usize = 0;
        while k < name.parts.len()
            invariant
                self.wf(),
                self.symbol_table.has_scope(current_scope),
                k <= name.parts@.len(),
                namespace_scope_walk(
                    self.symbol_table,
                    self.symbol_table.global_scope.0 as int,
                    name.parts@,
                    0,
                ) == namespace_scope_walk(
                    self.symbol_table,
                    current_scope.0 as int,
                    name.parts@,
                    k as int,
                ),
            ensures
                self.symbol_table.has_scope(current_scope),
                namespace_scope_walk(
                    self.symbol_table,
                    self.symbol_table.global_scope.0 as int,
                    name.parts@,
                    0,
                ) == current_scope.0,
            decreases name.parts.len() - k,
        {
            match self.symbol_table.lookup_local(current_scope, name.parts[k].as_str()) {
                Some(SymbolEntry::Namespace(ns_id)) => {
                    proof {
                        assert(self.symbol_table.scopes@[current_scope.0 as int].symbols@.contains_key(
                            name.parts@[k as int]@,
                        ));
                    }
                    current_scope = self.symbol_table.namespaces.get(ns_id.0).scope_id;
                },
                _ => {
                    break;
                },
            }
            k = k + 1;
        }
        current_scope
    }

    /// Resolves `type_ref` from `scope`; an error message naming the type
    /// where it does not resolve.
    fn resolve_type_or_diagnose(&self, scope: ScopeId, type_ref: &TypeRef) -> (r: Result<Option<TypeInfo>, String>)
        requires
            self.wf(),
            self.symbol_table.has_scope(scope),
        ensures
            match r {
                Ok(Some(ti)) => resolves_to(self.symbol_table.scopes@, scope.0 as int, *type_ref, ti),
                Ok(None) => false,
                Err(msg) => !type_resolves(self.symbol_table.scopes@, scope.0 as int, *type_ref)
                    && msg@ == "未找到类型 `"@ + type_name_text(*type_ref) + "`"@,
            },
    {
        match self.symbol_table.resolve_type(scope, type_ref) {
            Some(ti) => Ok(Some(ti)),
            None => {
                let name = type_ref_name(type_ref);
                Err(String::from_str("未找到类型 `").concat(name.as_str()).concat("`"))
            },
        }
    }

    /// Pass 2 for a class: sets its super class when the type after `:` is a
    /// class, and the interfaces after `::` that are interfaces; anything
    /// else there is reported, as is an interface given twice, a class that
    /// was not declared, and a change to an inheritance already frozen.
    fn pass2_resolve_class_hierarchy(&mut self, scope: ScopeId, decl: &ClassDeclaration)
        requires
            old(self).wf(),
            old(self).symbol_table.has_scope(scope),
        ensures
            class_hierarchy_resolved(*old(self), *final(self), scope, *decl),
    {
        let ghost start = *self;
        let class_id = match self.symbol_table.lookup_class(scope, decl.name.as_str()) {
            Some(id) => id,
            None => {
                let msg = String::from_str("未找到类 `").concat(decl.name.as_str()).concat("` 的声明");
                self.report(decl.span, msg);
                return;
            },
        };
        proof {
            lemma_resolve_entry_valid(&self.symbol_table, scope.0 as int, decl.name@);
        }
        let class_scope = self.symbol_table.classes.get(class_id.0).scope_id;
        let ghost sc = start.symbol_table.scopes@;
        let ghost cs = class_scope.0 as int;
        match &decl.super_class {
            Some(super_type) => {
                match self.symbol_table.classes.get(class_id.0).check_inheritance_not_frozen() {
                    Err(msg) => {
                        self.report(decl.span, msg);
                        return;
                    },
                    Ok(()) => {},
                }
                let resolved = self.resolve_type_or_diagnose(class_scope, super_type);
                proof {
                    match &resolved {
                        Ok(Some(ti)) => {
                            lemma_entity_named(sc, cs, *super_type, *ti);
                        },
                        _ => {
                            lemma_entity_named(sc, cs, *super_type, TypeInfo::Unresolved);
                        },
                    }
                }
                match resolved {
                    Ok(Some(TypeInfo::Object(super_id))) => {
                        self.symbol_table.set_super_class(class_id, super_id);
                    },
                    Ok(Some(TypeInfo::Interface(iface_id))) => {
                        proof {
                            lemma_resolved_type_valid(&self.symbol_table, class_scope.0 as int, *super_type, TypeInfo::Interface(iface_id));
                        }
                        let msg = String::from_str("类 `").concat(decl.name.as_str()).concat(
                            "` 不能继承接口 `",
                        ).concat(self.symbol_table.interfaces.get(iface_id.0).name.as_str()).concat(
                            "`（请用 :: implements 语法）",
                        );
                        self.report(super_type.span(), msg);
                    },
                    Ok(Some(TypeInfo::Enum(enum_id))) => {
                        proof {
                            lemma_resolved_type_valid(&self.symbol_table, class_scope.0 as int, *super_type, TypeInfo::Enum(enum_id));
                        }
                        let msg = String::from_str("类 `").concat(decl.name.as_str()).concat(
                            "` 不能继承枚举 `",
                        ).concat(self.symbol_table.enums.get(enum_id.0).name.as_str()).concat("`");
                        self.report(super_type.span(), msg);
                    },
                    Ok(_) => {
                        self.report(super_type.span(), "父类必须是具体的类类型".to_owned());
                    },
                    Err(msg) => {
                        self.report(super_type.span(), msg);
                    },
                }
            },
            None => {},
        }
        if decl.super_interfaces.len() > 0 {
            match self.symbol_table.classes.get(class_id.0).check_inheritance_not_frozen() {
                Err(msg) => {
                    self.report(decl.span, msg);
                    return;
                },
                Ok(()) => {},
            }
        }
        let ghost mid = *self;
        let mut interfaces: Vec<InterfaceId> = Vec::new();
        let mut i: usize = 0;
        while i < decl.super_interfaces.len()
            invariant
                self.wf(),
                self.reports_after(mid),
                self.symbol_table == mid.symbol_table,
                self.current_namespace_id == mid.current_namespace_id,
                new_reports_are_errors(mid, *self),
                self.symbol_table.has_scope(class_scope),
                sc == self.symbol_table.scopes@,
                cs == class_scope.0 as int,
                i <= decl.super_interfaces@.len(),
                interfaces@ == implemented_ids(sc, cs, decl.super_interfaces@.take(i as int)),
                self.diagnostics.items@.len() == mid.diagnostics.items@.len() + implement_errors(
                    sc,
                    cs,
                    decl.super_interfaces@.take(i as int),
                ),
            decreases decl.super_interfaces.len() - i,
        {
            let iface_type = &decl.super_interfaces[i];
            proof {
                let taken = decl.super_interfaces@.take(i + 1);
                assert(taken.drop_last() =~= decl.super_interfaces@.take(i as int));
                assert(taken.last() == *iface_type);
            }
            let resolved = self.resolve_type_or_diagnose(class_scope, iface_type);
            proof {
                match &resolved {
                    Ok(Some(ti)) => {
                        lemma_entity_named(sc, cs, *iface_type, *ti);
                    },
                    _ => {
                        lemma_entity_named(sc, cs, *iface_type, TypeInfo::Unresolved);
                    },
                }
            }
            match resolved {
                Ok(Some(TypeInfo::Interface(iface_id))) => {
                    if contains_interface(&interfaces, iface_id) {
                        let msg = String::from_str("类 `").concat(decl.name.as_str()).concat(
                            "` 多次实现了同一接口",
                        );
                        self.report(iface_type.span(), msg);
                    }
                    interfaces.push(iface_id);
                },
                Ok(Some(TypeInfo::Enum(enum_id))) => {
                    proof {
                        lemma_resolved_type_valid(&self.symbol_table, class_scope.0 as int, *iface_type, TypeInfo::Enum(enum_id));
                    }
                    let msg = String::from_str("类 `").concat(decl.name.as_str()).concat(
                        "` 不能实现枚举 `",
                    ).concat(self.symbol_table.enums.get(enum_id.0).name.as_str()).concat("`");
                    self.report(iface_type.span(), msg);
                },
                Ok(Some(TypeInfo::Object(other_class_id))) => {
                    proof {
                        lemma_resolved_type_valid(&self.symbol_table, class_scope.0 as int, *iface_type, TypeInfo::Object(other_class_id));
                    }
                    let msg = String::from_str("类 `").concat(decl.name.as_str()).concat(
                        "` 不能实现另一个类 `",
                    ).concat(self.symbol_table.classes.get(other_class_id.0).name.as_str()).concat(
                        "`（请用继承）",
                    );
                    self.report(iface_type.span(), msg);
                },
                Ok(_) => {
                    self.report(iface_type.span(), "`implements` 后必须是接口类型".to_owned());
                },
                Err(msg) => {
                    self.report(iface_type.span(), msg);
                },
            }
            i = i + 1;
        }
        proof {
            assert(decl.super_interfaces@.take(decl.super_interfaces@.len() as int) =~= decl.super_interfaces@);
        }
        if interfaces.len() > 0 {
            self.symbol_table.set_super_interfaces(class_id, interfaces);
        }
    }

    /// Pass 2 for an interface: sets the interfaces after `extends` that are
    /// interfaces; anything else there is reported, as is an interface that
    /// was not declared.
    fn pass2_resolve_interface_hierarchy(&mut self, scope: ScopeId, decl: &InterfaceDeclaration)
        requires
            old(self).wf(),
            old(self).symbol_table.has_scope(scope),
        ensures
            interface_hierarchy_resolved(*old(self), *final(self), scope, *decl),
    {
        let ghost start = *self;
        let iface_id = match self.symbol_table.lookup_interface(scope, decl.name.as_str()) {
            Some(id) => id,
            None => {
                let msg = String::from_str("未找到接口 `").concat(decl.name.as_str()).concat("` 的声明");
                self.report(decl.span, msg);
                return;
            },
        };
        proof {
            lemma_resolve_entry_valid(&self.symbol_table, scope.0 as int, decl.name@);
        }
        let iface_scope = self.symbol_table.interfaces.get(iface_id.0).scope_id;
        let ghost sc = start.symbol_table.scopes@;
        let ghost is = iface_scope.0 as int;
        let ghost mid = *self;
        let mut super_ifaces: Vec<InterfaceId> = Vec::new();
        let mut i: usize = 0;
        while i < decl.super_interfaces.len()
            invariant
                self.wf(),
                self.reports_after(mid),
                self.symbol_table == mid.symbol_table,
                self.current_namespace_id == mid.current_namespace_id,
                self.symbol_table.has_scope(iface_scope),
                sc == self.symbol_table.scopes@,
                is == iface_scope.0 as int,
                i <= decl.super_interfaces@.len(),
                super_ifaces@ == implemented_ids(sc, is, decl.super_interfaces@.take(i as int)),
                self.diagnostics.items@.len() == mid.diagnostics.items@.len() + non_interfaces(
                    sc,
                    is,
                    decl.super_interfaces@.take(i as int),
                ),
            decreases decl.super_interfaces.len() - i,
        {
            let super_type = &decl.super_interfaces[i];
            proof {
                let taken = decl.super_interfaces@.take(i + 1);
                assert(taken.drop_last() =~= decl.super_interfaces@.take(i as int));
                assert(taken.last() == *super_type);
            }
            let resolved = self.resolve_type_or_diagnose(iface_scope, super_type);
            proof {
                match &resolved {
                    Ok(Some(ti)) => {
                        lemma_entity_named(sc, is, *super_type, *ti);
                    },
                    _ => {
                        lemma_entity_named(sc, is, *super_type, TypeInfo::Unresolved);
                    },
                }
            }
            match resolved {
                Ok(Some(TypeInfo::Interface(super_id))) => {
                    super_ifaces.push(super_id);
                },
                Ok(Some(TypeInfo::Object(class_id))) => {
                    proof {
                        lemma_resolved_type_valid(&self.symbol_table, iface_scope.0 as int, *super_type, TypeInfo::Object(class_id));
                    }
                    let msg = String::from_str("接口 `").concat(decl.name.as_str()).concat(
                        "` 错误继承自类 `",
                    ).concat(self.symbol_table.classes.get(class_id.0).name.as_str()).concat("`");
                    self.report(super_type.span(), msg);
                },
                Ok(_) => {
                    self.report(super_type.span(), "`extends` 后必须是接口类型".to_owned());
                },
                Err(msg) => {
                    self.report(super_type.span(), msg);
                },
            }
            i = i + 1;
        }
        proof {
            assert(decl.super_interfaces@.take(decl.super_interfaces@.len() as int) =~= decl.super_interfaces@);
        }
        if super_ifaces.len() > 0 {
            let ghost before = self.symbol_table;
            self.symbol_table.interfaces.get_mut(iface_id.0).super_interfaces = super_ifaces;
            proof {
                let st = self.symbol_table;
                assert forall|j: int| 0 <= j < st.interfaces@.len() implies (#[trigger] st.interfaces@[j]).scope_id.0
                    < st.scopes@.len() by {
                    assert(before.interfaces@[j].scope_id == st.interfaces@[j].scope_id);
                }
            }
        }
    }

    /// The enum that `name` resolves to from `scope`.
    pub fn find_enum_by_name(&self, scope: ScopeId, name: &str) -> (r: Option<EnumId>)
        requires
            self.wf(),
            self.symbol_table.has_scope(scope),
        ensures
            r == match resolve(self.symbol_table.scopes@, scope.0 as int, name@) {
                Some((SymbolEntry::Enum(id), _)) => Some(id),
                _ => None,
            },
    {
        self.symbol_table.find_enum_by_name(scope, name)
    }

    /// Pass 2 for an enum: declares its values in order; an enum that was
    /// not declared is reported.
    fn pass2_resolve_enum_values(&mut self, scope: ScopeId, decl: &EnumDeclaration)
        requires
            old(self).wf(),
            old(self).symbol_table.has_scope(scope),
        ensures
            enum_values_resolved(*old(self), *final(self), scope, *decl),
    {
        let enum_id = match self.find_enum_by_name(scope, decl.name.as_str()) {
            Some(id) => id,
            None => {
                let msg = String::from_str("未找到枚举 `").concat(decl.name.as_str()).concat("` 的声明");
                self.report(decl.span, msg);
                return;
            },
        };
        proof {
            lemma_resolve_entry_valid(&self.symbol_table, scope.0 as int, decl.name@);
        }
        let ghost start = *self;
        let mut i: usize = 0;
        while i < decl.values.len()
            invariant
                self.wf(),
                self.reports_after(start),
                i <= decl.values@.len(),
                enum_id.0 < self.symbol_table.enums@.len(),
                self.symbol_table.scopes@.len() == start.symbol_table.scopes@.len(),
                self.symbol_table.classes@ == start.symbol_table.classes@,
                self.symbol_table.enums@.len() == start.symbol_table.enums@.len(),
                self.symbol_table.enums@[enum_id.0 as int].values@.len()
                    == start.symbol_table.enums@[enum_id.0 as int].values@.len() + i,
                self.symbol_table.enums@[enum_id.0 as int].values@.take(
                    start.symbol_table.enums@[enum_id.0 as int].values@.len() as int,
                ) == start.symbol_table.enums@[enum_id.0 as int].values@,
                self.symbol_table.enum_values@.len() == start.symbol_table.enum_values@.len() + i,
                self.symbol_table.enum_values@.take(start.symbol_table.enum_values@.len() as int)
                    == start.symbol_table.enum_values@,
                self.diagnostics == start.diagnostics,
                forall|k: int|
                    0 <= k < i ==> {
                        let v = #[trigger] self.symbol_table.enum_values@[start.symbol_table.enum_values@.len() + k];
                        &&& self.symbol_table.enums@[enum_id.0 as int].values@[start.symbol_table.enums@[enum_id.0 as int].values@.len() + k].0
                            == start.symbol_table.enum_values@.len() + k
                        &&& v.name@ == decl.values@[k].name@
                        &&& v.value == decl.values@[k].value
                        &&& v.enum_id == enum_id
                    },
                self.current_namespace_id == start.current_namespace_id,
                names_kept(start.symbol_table, self.symbol_table),
            decreases decl.values.len() - i,
        {
            let value = &decl.values[i];
            let ghost before = self.symbol_table;
            self.symbol_table.declare_enum_value(value.name.as_str(), enum_id, value.value, value.span);
            proof {
                let ov = start.symbol_table.enum_values@.len();
                let oe = start.symbol_table.enums@[enum_id.0 as int].values@.len();
                assert forall|k: int| 0 <= k < i implies
                    #[trigger] self.symbol_table.enum_values@[ov + k] == before.enum_values@[ov + k]
                    && self.symbol_table.enums@[enum_id.0 as int].values@[oe + k]
                    == before.enums@[enum_id.0 as int].values@[oe + k] by {
                    assert(self.symbol_table.enum_values@.take(before.enum_values@.len() as int)[ov + k]
                        == self.symbol_table.enum_values@[ov + k]);
                }
                assert(self.symbol_table.enums@[enum_id.0 as int].values@.take(oe as int)
                    =~= start.symbol_table.enums@[enum_id.0 as int].values@) by {
                    assert forall|j: int| 0 <= j < oe implies
                        self.symbol_table.enums@[enum_id.0 as int].values@[j]
                        == before.enums@[enum_id.0 as int].values@[j] by {}
                    assert forall|j: int| 0 <= j < oe implies
                        before.enums@[enum_id.0 as int].values@[j]
                        == before.enums@[enum_id.0 as int].values@.take(oe as int)[j] by {}
                }
                assert(self.symbol_table.enum_values@.take(ov as int) =~= start.symbol_table.enum_values@) by {
                    assert forall|j: int| 0 <= j < ov implies
                        self.symbol_table.enum_values@[j] == before.enum_values@[j] by {
                        assert(self.symbol_table.enum_values@.take(before.enum_values@.len() as int)[j]
                            == self.symbol_table.enum_values@[j]);
                        assert(before.enum_values@.take(ov as int)[j] == before.enum_values@[j]);
                    }
                }
            }
            i = i + 1;
        }
    }

    /// Adds `using_scope` to the scopes that the top-level types `members`
    /// (found from `search_scope`) use, where it is not there yet.
    fn add_using_to_members(&mut self, search_scope: ScopeId, using_scope: ScopeId, members: &Vec<TopLevelMember>)
        requires
            old(self).wf(),
            old(self).symbol_table.has_scope(search_scope),
            old(self).symbol_table.has_scope(using_scope),
        ensures
            final(self).wf(),
            final(self).diagnostics == old(self).diagnostics,
            final(self).symbol_table.scopes@.len() == old(self).symbol_table.scopes@.len(),
            final(self).symbol_table.classes@ == old(self).symbol_table.classes@,
            final(self).symbol_table.interfaces@ == old(self).symbol_table.interfaces@,
            final(self).symbol_table.enums@ == old(self).symbol_table.enums@,
            final(self).symbol_table.namespaces@ == old(self).symbol_table.namespaces@,
            final(self).symbol_table.global_scope == old(self).symbol_table.global_scope,
            final(self).current_namespace_id == old(self).current_namespace_id,
            same_but_usings(old(self).symbol_table.scopes@, final(self).symbol_table.scopes@),
            forall|j: int|
                0 <= j < old(self).symbol_table.scopes@.len() ==> {
                    let before = old(self).symbol_table.scopes@[j].using_scopes@;
                    let after = (#[trigger] final(self).symbol_table.scopes@[j]).using_scopes@;
                    after == before || (!before.contains(using_scope) && after == before.push(
                        using_scope,
                    ))
                },
            member_scopes_off_chain(old(self).symbol_table, search_scope.0 as int, members@) ==> (
            forall|k: int|
                0 <= k < members@.len() ==> ((#[trigger] member_type_scope(
                    old(self).symbol_table,
                    search_scope.0 as int,
                    members@[k],
                )) matches Some(t) ==> final(self).symbol_table.scopes@[t.0 as int].using_scopes@.contains(
                    using_scope,
                ))),
            member_scopes_off_chain(old(self).symbol_table, search_scope.0 as int, members@) ==> (
            forall|j: int|
                0 <= j < old(self).symbol_table.scopes@.len() && (forall|k: int|
                    0 <= k < members@.len() ==> !is_scope(
                        member_type_scope(old(self).symbol_table, search_scope.0 as int, members@[k]),
                        j,
                    ))
                    ==> (#[trigger] final(self).symbol_table.scopes@[j]).using_scopes@
                    == old(self).symbol_table.scopes@[j].using_scopes@),
            names_kept(old(self).symbol_table, final(self).symbol_table),
    {
        let ghost start = *self;
        let ghost off = member_scopes_off_chain(start.symbol_table, search_scope.0 as int, members@);
        let mut i: usize = 0;
        while i < members.len()
            invariant
                self.wf(),
                i <= members@.len(),
                self.symbol_table.has_scope(search_scope),
                self.symbol_table.has_scope(using_scope),
                self.diagnostics == start.diagnostics,
                self.symbol_table.scopes@.len() == start.symbol_table.scopes@.len(),
                self.symbol_table.classes@ == start.symbol_table.classes@,
                self.symbol_table.interfaces@ == start.symbol_table.interfaces@,
                self.symbol_table.enums@ == start.symbol_table.enums@,
                self.symbol_table.namespaces@ == start.symbol_table.namespaces@,
                self.symbol_table.global_scope == start.symbol_table.global_scope,
                self.current_namespace_id == start.current_namespace_id,
                off == member_scopes_off_chain(start.symbol_table, search_scope.0 as int, members@),
                start.symbol_table.has_scope(search_scope),
                start.wf(),
                same_but_usings(start.symbol_table.scopes@, self.symbol_table.scopes@),
                forall|j: int|
                    0 <= j < start.symbol_table.scopes@.len() ==> {
                        let before = start.symbol_table.scopes@[j].using_scopes@;
                        let after = (#[trigger] self.symbol_table.scopes@[j]).using_scopes@;
                        after == before || (!before.contains(using_scope) && after == before.push(
                            using_scope,
                        ))
                    },
                off ==> forall|k: int|
                    0 <= k < i ==> ((#[trigger] member_type_scope(
                        start.symbol_table,
                        search_scope.0 as int,
                        members@[k],
                    )) matches Some(t) ==> self.symbol_table.scopes@[t.0 as int].using_scopes@.contains(
                        using_scope,
                    )),
                off ==> forall|j: int|
                    0 <= j < start.symbol_table.scopes@.len() && (#[trigger] self.symbol_table.scopes@[j]).using_scopes@
                        != start.symbol_table.scopes@[j].using_scopes@ ==> exists|k: int|
                        0 <= k < i && is_scope(
                            #[trigger] member_type_scope(start.symbol_table, search_scope.0 as int, members@[k]),
                            j,
                        ),
            decreases members.len() - i,
        {
            proof {
                if off {
                    assert forall|j: int|
                        0 <= j < start.symbol_table.scopes@.len()
                            && self.symbol_table.scopes@[j].using_scopes@
                            != start.symbol_table.scopes@[j].using_scopes@ implies !on_scope_chain(
                        start.symbol_table.scopes@,
                        search_scope.0 as int,
                        j,
                    ) by {
                        assert(self.symbol_table.scopes@[j].using_scopes@
                            != start.symbol_table.scopes@[j].using_scopes@);
                        let k = choose|k: int|
                            0 <= k < i && is_scope(
                                #[trigger] member_type_scope(start.symbol_table, search_scope.0 as int, members@[k]),
                                j,
                            );
                        assert(is_scope(member_type_scope(start.symbol_table, search_scope.0 as int, members@[k]), j));
                    }
                    let name = match members@[i as int] {
                        TopLevelMember::Class(d) => d.name@,
                        TopLevelMember::Interface(d) => d.name@,
                        TopLevelMember::Enum(d) => d.name@,
                    };
                    lemma_resolve_same_but_usings(
                        start.symbol_table.scopes@,
                        self.symbol_table.scopes@,
                        search_scope.0 as int,
                        name,
                    );
                }
            }
            let target = match &members[i] {
                TopLevelMember::Class(decl) => match self.symbol_table.lookup_class(search_scope, decl.name.as_str()) {
                    Some(class_id) => {
                        proof {
                            lemma_resolve_entry_valid(&self.symbol_table, search_scope.0 as int, decl.name@);
                        }
                        Some(self.symbol_table.classes.get(class_id.0).scope_id)
                    },
                    None => None,
                },
                TopLevelMember::Interface(decl) => match self.symbol_table.lookup_interface(search_scope, decl.name.as_str()) {
                    Some(iface_id) => {
                        proof {
                            lemma_resolve_entry_valid(&self.symbol_table, search_scope.0 as int, decl.name@);
                        }
                        Some(self.symbol_table.interfaces.get(iface_id.0).scope_id)
                    },
                    None => None,
                },
                TopLevelMember::Enum(decl) => match self.symbol_table.find_enum_by_name(search_scope, decl.name.as_str()) {
                    Some(enum_id) => {
                        proof {
                            lemma_resolve_entry_valid(&self.symbol_table, search_scope.0 as int, decl.name@);
                        }
                        Some(self.symbol_table.enums.get(enum_id.0).scope_id)
                    },
                    None => None,
                },
            };
            proof {
                if off {
                    assert(target == member_type_scope(
                        start.symbol_table,
                        search_scope.0 as int,
                        members@[i as int],
                    ));
                }
            }
            let ghost mid = self.symbol_table.scopes@;
            match target {
                Some(target_scope) => {
                    add_using_scope(&mut self.symbol_table, target_scope, using_scope);
                    proof {
                        let t = target_scope.0 as int;
                        assert(self.symbol_table.scopes@[t].using_scopes@.contains(using_scope)) by {
                            if mid[t].using_scopes@.contains(using_scope) {
                            } else {
                                assert(self.symbol_table.scopes@[t].using_scopes@.last() == using_scope);
                            }
                        }
                        assert forall|j: int|
                            0 <= j < mid.len() && mid[j].using_scopes@.contains(using_scope) implies (
                            #[trigger] self.symbol_table.scopes@[j]).using_scopes@ == mid[j].using_scopes@ by {
                            if j != t {
                                assert(self.symbol_table.scopes@[j] == mid[j]);
                            }
                        }
                        assert forall|j: int| 0 <= j < start.symbol_table.scopes@.len() implies {
                            let before = start.symbol_table.scopes@[j].using_scopes@;
                            let after = (#[trigger] self.symbol_table.scopes@[j]).using_scopes@;
                            after == before || (!before.contains(using_scope) && after == before.push(
                                using_scope,
                            ))
                        } by {
                            if j == t {
                                let before = start.symbol_table.scopes@[j].using_scopes@;
                                let m = mid[j].using_scopes@;
                                if m != before {
                                    assert(m[before.len() as int] == using_scope);
                                    assert(m.contains(using_scope));
                                    assert(self.symbol_table.scopes@[j].using_scopes@ == m);
                                }
                            } else {
                                assert(self.symbol_table.scopes@[j] == mid[j]);
                            }
                        }
                    }
                },
                None => {},
            }
            proof {
                if off {
                    assert forall|k: int|
                        0 <= k < i + 1 implies ((#[trigger] member_type_scope(
                        start.symbol_table,
                        search_scope.0 as int,
                        members@[k],
                    )) matches Some(t) ==> self.symbol_table.scopes@[t.0 as int].using_scopes@.contains(
                        using_scope,
                    )) by {
                        if let Some(t) = member_type_scope(start.symbol_table, search_scope.0 as int, members@[k]) {
                            if k < i {
                                lemma_member_type_scope_exists(start.symbol_table, search_scope.0 as int, members@[k]);
                                assert(mid[t.0 as int].using_scopes@.contains(using_scope));
                                assert(self.symbol_table.scopes@[t.0 as int].using_scopes@
                                    == mid[t.0 as int].using_scopes@);
                            }
                        }
                    }
                    assert forall|j: int|
                        0 <= j < start.symbol_table.scopes@.len() && (#[trigger] self.symbol_table.scopes@[j]).using_scopes@
                            != start.symbol_table.scopes@[j].using_scopes@ implies exists|k: int|
                        0 <= k < i + 1 && is_scope(
                            #[trigger] member_type_scope(start.symbol_table, search_scope.0 as int, members@[k]),
                            j,
                        ) by {
                        if mid[j].using_scopes@ != start.symbol_table.scopes@[j].using_scopes@ {
                            let k = choose|k: int|
                                0 <= k < i && is_scope(
                                    #[trigger] member_type_scope(start.symbol_table, search_scope.0 as int, members@[k]),
                                    j,
                                );
                            assert(is_scope(member_type_scope(start.symbol_table, search_scope.0 as int, members@[k]), j));
                        } else {
                            assert(is_scope(member_type_scope(start.symbol_table, search_scope.0 as int, members@[i as int]), j));
                        }
                    }
                }
            }
            i = i + 1;
        }
    }

    /// Pass 2 for one source: the `using` directives (each namespace named
    /// must exist; the types of the source then see it), then the
    /// inheritance of its classes and interfaces and the values of its enums.
    fn pass2_process_source(&mut self, source: &SourceFile)
        requires
            old(self).wf(),
        ensures
            final(self).wf(),
            final(self).reports_after(*old(self)),
            final(self).diagnostics.items@.len() >= old(self).diagnostics.items@.len() + using_errors(
                old(self).symbol_table,
                source.usings@,
            ).len(),
            forall|j: int|
                0 <= j < using_errors(old(self).symbol_table, source.usings@).len() ==> {
                    let d = #[trigger] final(self).diagnostics.items@[old(self).diagnostics.items@.len() + j];
                    let e = using_errors(old(self).symbol_table, source.usings@)[j];
                    &&& d.severity == Severity::Error
                    &&& d.message@ == e.0
                    &&& d.span == e.1
                },
            names_kept(old(self).symbol_table, final(self).symbol_table),
            exists|mid: Compiler|
                #![trigger usings_reported(*old(self), mid, *source)]
                usings_reported(*old(self), mid, *source) && pass2_members_run(
                    mid,
                    *final(self),
                    source_scope(old(self).symbol_table, *source),
                    source.members@,
                ),
    {
        let ghost start = *self;
        let ghost n0 = start.diagnostics.items@.len();
        let search_scope = match &source.namespace {
            Some(ns_name) => self.lookup_namespace_scope(ns_name),
            None => self.symbol_table.global_scope,
        };
        let mut u: usize = 0;
        while u < source.usings.len()
            invariant
                names_kept(start.symbol_table, self.symbol_table),
                self.wf(),
                start.wf(),
                u <= source.usings@.len(),
                self.reports_after(start),
                self.symbol_table.has_scope(search_scope),
                same_but_usings(start.symbol_table.scopes@, self.symbol_table.scopes@),
                self.symbol_table.namespaces@ == start.symbol_table.namespaces@,
                self.symbol_table.global_scope == start.symbol_table.global_scope,
                self.symbol_table.classes@ == start.symbol_table.classes@,
                self.symbol_table.interfaces@ == start.symbol_table.interfaces@,
                self.symbol_table.enums@ == start.symbol_table.enums@,
                self.current_namespace_id == start.current_namespace_id,
                n0 == start.diagnostics.items@.len(),
                self.diagnostics.items@.len() == n0 + using_errors(
                    start.symbol_table,
                    source.usings@.take(u as int),
                ).len(),
                forall|j: int|
                    0 <= j < using_errors(start.symbol_table, source.usings@.take(u as int)).len() ==> {
                        let d = #[trigger] self.diagnostics.items@[n0 + j];
                        let e = using_errors(start.symbol_table, source.usings@.take(u as int))[j];
                        &&& d.severity == Severity::Error
                        &&& d.message@ == e.0
                        &&& d.span == e.1
                    },
            decreases source.usings.len() - u,
        {
            let usings_name = &source.usings[u].name;
            let ghost parts = usings_name.parts@;
            let ghost inner_start = *self;
            let mut current_scope = self.symbol_table.global_scope;
            let mut found = true;
            let mut k: usize = 0;
            while k < usings_name.parts.len()
                invariant_except_break
                    *self == inner_start,
                    found,
                invariant
                    names_kept(start.symbol_table, self.symbol_table),
                    self.wf(),
                    self.reports_after(start),
                    self.symbol_table.has_scope(search_scope),
                    self.symbol_table.has_scope(current_scope),
                    k <= parts.len(),
                    parts == usings_name.parts@,
                    inner_start.wf(),
                    same_but_usings(start.symbol_table.scopes@, inner_start.symbol_table.scopes@),
                    inner_start.symbol_table.namespaces@ == start.symbol_table.namespaces@,
                    inner_start.symbol_table.global_scope == start.symbol_table.global_scope,
                    missing_namespace_part(
                        start.symbol_table,
                        start.symbol_table.global_scope.0 as int,
                        parts,
                        0,
                    ) == missing_namespace_part(start.symbol_table, current_scope.0 as int, parts, k as int),
                ensures
                    self.wf(),
                    self.reports_after(start),
                    self.symbol_table.has_scope(search_scope),
                    self.symbol_table.has_scope(current_scope),
                    found ==> *self == inner_start && missing_namespace_part(
                        start.symbol_table,
                        start.symbol_table.global_scope.0 as int,
                        parts,
                        0,
                    ) is None,
                    !found ==> (missing_namespace_part(
                        start.symbol_table,
                        start.symbol_table.global_scope.0 as int,
                        parts,
                        0,
                    ) matches Some(x) && self.diagnostics.items@.len()
                        == inner_start.diagnostics.items@.len() + 1 && self.reports_after(inner_start)
                        && self.diagnostics.items@.last().severity == Severity::Error
                        && self.diagnostics.items@.last().message@ == "未找到命名空间 `"@ + x + "`"@
                        && self.diagnostics.items@.last().span == usings_name.span
                        && self.only_reports_changed(inner_start)),
                decreases usings_name.parts.len() - k,
            {
                let part = &usings_name.parts[k];
                proof {
                    lemma_chain_find_same_but_usings(
                        start.symbol_table.scopes@,
                        self.symbol_table.scopes@,
                        current_scope.0 as int,
                        part@,
                    );
                }
                match self.symbol_table.lookup_local_only(current_scope, part.as_str()) {
                    Some(SymbolEntry::Namespace(ns_id)) => {
                        proof {
                            lemma_chain_entry_valid(&self.symbol_table, current_scope.0 as int, part@);
                        }
                        current_scope = self.symbol_table.namespaces.get(ns_id.0).scope_id;
                    },
                    _ => {
                        let msg = String::from_str("未找到命名空间 `").concat(part.as_str()).concat("`");
                        self.report(usings_name.span, msg);
                        found = false;
                        break;
                    },
                }
                k = k + 1;
            }
            let ghost before_members = *self;
            if found {
                self.add_using_to_members(search_scope, current_scope, &source.members);
            }
            proof {
                let prev = source.usings@.take(u as int);
                let next = source.usings@.take(u as int + 1);
                assert(next.drop_last() =~= prev);
                assert(next.last() == source.usings@[u as int]);
                let errs = using_errors(start.symbol_table, next);
                let perrs = using_errors(start.symbol_table, prev);
                if found {
                    assert(errs == perrs);
                    assert(self.diagnostics == before_members.diagnostics);
                } else {
                    assert(errs.len() == perrs.len() + 1);
                    assert(self.diagnostics == before_members.diagnostics);
                }
                assert forall|j: int| 0 <= j < errs.len() implies {
                    let d = #[trigger] self.diagnostics.items@[n0 + j];
                    let e = errs[j];
                    &&& d.severity == Severity::Error
                    &&& d.message@ == e.0
                    &&& d.span == e.1
                } by {
                    if j < perrs.len() {
                        assert(errs[j] == perrs[j]);
                        assert(inner_start.diagnostics.items@[n0 + j] == self.diagnostics.items@[n0 + j]);
                    } else {
                        assert(!found);
                        assert(self.diagnostics.items@[n0 + j] == before_members.diagnostics.items@.last());
                    }
                }
            }
            u = u + 1;
        }
        proof {
            assert(source.usings@.take(source.usings@.len() as int) =~= source.usings@);
        }
        let ghost after_usings = *self;
        proof {
            assert(search_scope == source_scope(start.symbol_table, *source));
            assert(usings_reported(start, after_usings, *source));
            assert(source.members@.take(0) =~= Seq::<TopLevelMember>::empty());
        }
        let mut i: usize = 0;
        while i < source.members.len()
            invariant
                names_kept(start.symbol_table, self.symbol_table),
                self.wf(),
                self.reports_after(start),
                self.reports_after(after_usings),
                i <= source.members@.len(),
                pass2_members_run(after_usings, *self, search_scope, source.members@.take(i as int)),
                self.symbol_table.has_scope(search_scope),
                n0 == start.diagnostics.items@.len(),
                after_usings.diagnostics.items@.len() == n0 + using_errors(
                    start.symbol_table,
                    source.usings@,
                ).len(),
                forall|j: int|
                    0 <= j < using_errors(start.symbol_table, source.usings@).len() ==> {
                        let d = #[trigger] after_usings.diagnostics.items@[n0 + j];
                        let e = using_errors(start.symbol_table, source.usings@)[j];
                        &&& d.severity == Severity::Error
                        &&& d.message@ == e.0
                        &&& d.span == e.1
                    },
            decreases source.members.len() - i,
        {
            let ghost before = *self;
            match &source.members[i] {
                TopLevelMember::Class(class_decl) => {
                    self.pass2_resolve_class_hierarchy(search_scope, class_decl);
                },
                TopLevelMember::Interface(iface_decl) => {
                    self.pass2_resolve_interface_hierarchy(search_scope, iface_decl);
                },
                TopLevelMember::Enum(enum_decl) => {
                    self.pass2_resolve_enum_values(search_scope, enum_decl);
                },
            }
            proof {
                let ms = source.members@.take(i + 1);
                assert(ms.drop_last() =~= source.members@.take(i as int));
                assert(ms.last() == source.members@[i as int]);
                assert(pass2_member_step(before, *self, search_scope, ms.last()));
                assert(pass2_members_run(after_usings, *self, search_scope, ms));
            }
            i = i + 1;
        }
        proof {
            assert(source.members@.take(source.members@.len() as int) =~= source.members@);
            assert(pass2_members_run(after_usings, *self, search_scope, source.members@));
        }
    }

    /// Pass 2: resolves inheritance, enum values and `using` directives of
    /// every source; `Err` when an error has been reported.
    pub fn pass2_type_extension(&mut self, sources: &[SourceFile]) -> (r: Result<(), ()>)
        requires
            old(self).wf(),
        ensures
            final(self).wf(),
            final(self).reports_after(*old(self)),
            r is Err <==> has_error(final(self).diagnostics.items@),
            names_kept(old(self).symbol_table, final(self).symbol_table),
            pass2_sources_run(*old(self), *final(self), sources@),
    {
        let ghost start = *self;
        proof {
            assert(sources@.take(0) =~= Seq::<SourceFile>::empty());
        }
        let mut i: usize = 0;
        while i < sources.len()
            invariant
                names_kept(start.symbol_table, self.symbol_table),
                self.wf(),
                self.reports_after(start),
                i <= sources@.len(),
                pass2_sources_run(start, *self, sources@.take(i as int)),
            decreases sources.len() - i,
        {
            let ghost before = *self;
            self.pass2_process_source(&sources[i]);
            proof {
                let ss = sources@.take(i + 1);
                assert(ss.drop_last() =~= sources@.take(i as int));
                assert(ss.last() == sources@[i as int]);
                assert(ss.len() == i + 1);
                let mid = choose|mid: Compiler|
                    #![trigger usings_reported(before, mid, ss.last())]
                    usings_reported(before, mid, ss.last()) && pass2_members_run(
                        mid,
                        *self,
                        source_scope(before.symbol_table, ss.last()),
                        ss.last().members@,
                    );
                assert(usings_reported(before, mid, ss.last()));
                assert(pass2_sources_run(start, *self, ss));
            }
            i = i + 1;
        }
        proof {
            assert(sources@.take(sources@.len() as int) =~= sources@);
        }
        if self.diagnostics.has_errors() {
            Err(())
        } else {
            Ok(())
        }
    }

    /// Runs the declaration passes over `sources`, each whatever the one
    /// before it reported: types, then inheritance and enum values, then
    /// members; then freezes the numbering of the classes, unless errors were
    /// reported both before and after the members. `Err` when an error has
    /// been reported; on `Ok` every class is frozen, with its methods,
    /// constructors and fields numbered after those of its super class.
    #[verifier::spinoff_prover]
    pub fn declare_types(&mut self, sources: &[SourceFile]) -> (r: Result<(), ()>)
        requires
            old(self).wf(),
            forall|i: int| 0 <= i < sources@.len() ==> namespace_named(#[trigger] sources@[i]),
        ensures
            final(self).wf(),
            final(self).reports_after(*old(self)),
            r is Err <==> has_error(final(self).diagnostics.items@),
            r is Ok ==> all_frozen(
                final(self).symbol_table.classes@,
                final(self).symbol_table.fields@,
                final(self).symbol_table.classes@,
            ),
            r is Ok ==> forall|rank: Seq<nat>, x: int|
                #![trigger ranked_hierarchy(final(self).symbol_table.classes@, rank), overrides_mapped(
                    final(self).symbol_table.classes@,
                    final(self).symbol_table.methods@,
                    final(self).symbol_table.parameters@,
                    x,
                )]
                ranked_hierarchy(final(self).symbol_table.classes@, rank) && 0 <= x
                    < final(self).symbol_table.classes@.len() ==> overrides_mapped(
                    final(self).symbol_table.classes@,
                    final(self).symbol_table.methods@,
                    final(self).symbol_table.parameters@,
                    x,
                ),
            table_names(final(self).symbol_table) == names_appended(
                table_names(old(self).symbol_table),
                sources_declared_names(sources@),
            ),
            forall|f: int|
                0 <= f < final(self).symbol_table.fields@.len()
                    ==> (#[trigger] final(self).symbol_table.fields@[f]).offset
                    == Some(field_offset(final(self).symbol_table, f)),
            exists|s1: Compiler, s2: Compiler, m: Compiler, s3: Compiler|
                #![trigger pass2_sources_run(s1, s2, sources@), pass3_sources_run(s2, m, sources@), offsets_assigned(m, s3)]
                {
                    &&& s1.reports_after(*old(self))
                    &&& table_names(s1.symbol_table) == names_appended(
                        table_names(old(self).symbol_table),
                        sources_declared_names(sources@),
                    )
                    &&& pass2_sources_run(s1, s2, sources@)
                    &&& pass3_sources_run(s2, m, sources@)
                    &&& offsets_assigned(m, s3)
                    &&& final(self).reports_after(s3)
                    &&& names_kept(s3.symbol_table, final(self).symbol_table)
                },
    {
        let ghost start = *self;
        let _ = self.pass1_type_identifier(sources);
        let ghost after1 = *self;
        let _ = self.pass2_type_extension(sources);
        let had_errors = self.diagnostics.has_errors();
        let ghost after2 = *self;
        let _ = self.pass3_type_declaration(sources);
        let ghost after3 = *self;
        let ran = !self.diagnostics.has_errors() || !had_errors;
        if ran {
            self.freeze_inheritance();
        }
        proof {
            let m = choose|m: Compiler|
                #![trigger pass3_sources_run(after2, m, sources@)]
                pass3_sources_run(after2, m, sources@) && offsets_assigned(m, after3);
            assert(pass2_sources_run(after1, after2, sources@));
            assert(pass3_sources_run(after2, m, sources@) && offsets_assigned(m, after3));
            assert(self.reports_after(after3));
            lemma_names_kept_table_names(after1.symbol_table, after2.symbol_table);
            lemma_names_kept_table_names(after2.symbol_table, after3.symbol_table);
            lemma_names_kept_table_names(after3.symbol_table, self.symbol_table);
            assert forall|f: int| 0 <= f < self.symbol_table.fields@.len() implies (#[trigger] self.symbol_table.fields@[f]).offset
                == Some(field_offset(self.symbol_table, f)) by {
                assert(after3.symbol_table.fields@[f].offset == Some(field_offset(after3.symbol_table, f)));
                if ran {
                    let fi = self.symbol_table.fields@[f];
                    let cls = self.symbol_table.classes@;
                    let ocls = after3.symbol_table.classes@;
                    if fi.class_id.0 < cls.len() {
                        assert(cls[fi.class_id.0 as int].super_class == ocls[fi.class_id.0 as int].super_class);
                        lemma_inherited_fields_same_chain(
                            ocls,
                            cls,
                            self.symbol_table.fields@,
                            ocls[fi.class_id.0 as int].super_class,
                            cls.len() as nat,
                            count_kind(fi.field_type),
                        );
                    }
                }
            }
            assert forall|k: int| 0 <= k < start.diagnostics.items@.len() implies #[trigger] self.diagnostics.items@[k]
                == start.diagnostics.items@[k] by {
                assert(after2.diagnostics.items@[k] == start.diagnostics.items@[k]);
                assert(after3.diagnostics.items@[k] == after2.diagnostics.items@[k]);
            }
            if !has_error(self.diagnostics.items@) {
                assert(!has_error(after3.diagnostics.items@)) by {
                    if has_error(after3.diagnostics.items@) {
                        let w = choose|w: int|
                            0 <= w < after3.diagnostics.items@.len()
                                && after3.diagnostics.items@[w].severity == Severity::Error;
                        assert(self.diagnostics.items@[w] == after3.diagnostics.items@[w]);
                    }
                }
                assert(ran);
                assert(declarations_frozen(after3.symbol_table.classes@));
                let cls = self.symbol_table.classes@;
                let old_cls = after3.symbol_table.classes@;
                assert forall|x: int| 0 <= x < cls.len() implies #[trigger] totals_counted(cls, x) by {
                    assert(totals_counted(cls, x));
                }
                assert forall|x: int| 0 <= x < cls.len() implies #[trigger] numbered_after_super(
                    cls,
                    depth_seq(old_cls),
                    x,
                ) by {
                    assert(totals_counted(cls, x));
                }
                assert forall|x: int| 0 <= x < cls.len() implies (#[trigger] cls[x]).super_class
                    == old_cls[x].super_class by {
                    assert(totals_counted(cls, x));
                }
                lemma_frozen_numbering(cls, old_cls);
                assert forall|x: int| 0 <= x < cls.len() implies {
                    &&& #[trigger] totals_counted(cls, x)
                    &&& fields_counted(cls, self.symbol_table.fields@, x)
                    &&& root_starts_at_zero(cls, x)
                    &&& numbered_after_super(cls, depth_seq(cls), x)
                    &&& cls[x].super_class == cls[x].super_class
                } by {
                    assert(totals_counted(cls, x));
                }
                assert(all_frozen(cls, self.symbol_table.fields@, cls));
                assert forall|rank: Seq<nat>, x: int|
                    #[trigger] ranked_hierarchy(cls, rank) && 0 <= x < cls.len() implies #[trigger] overrides_mapped(
                    cls,
                    self.symbol_table.methods@,
                    self.symbol_table.parameters@,
                    x,
                ) by {
                    assert forall|y: int| 0 <= y < old_cls.len() implies match (#[trigger] old_cls[y]).super_class {
                        Some(sc) => sc.0 < old_cls.len() ==> rank[sc.0 as int] < rank[y],
                        None => true,
                    } by {
                        assert(cls[y].super_class == old_cls[y].super_class);
                        assert(rank[y] < 1000);
                    }
                    lemma_ranked_hierarchy_ancestors_shallower(old_cls, rank, x);
                }
            }
        }
        if self.diagnostics.has_errors() {
            Err(())
        } else {
            Ok(())
        }
    }
}


/// The kind of value that a field of type `ti` is stored as.
pub fn type_info_to_value_type(ti: &TypeInfo) -> (r: ValueType)
    ensures
        r == count_kind(*ti),
{
    match ti {
        TypeInfo::Int => ValueType::Int,
        TypeInfo::Float => ValueType::Float,
        TypeInfo::Bool => ValueType::Bool,
        TypeInfo::String => ValueType::String,
        TypeInfo::Enum(_) => ValueType::Int,
        _ => ValueType::Object,
    }
}

/// The kind of value that the type written `t` holds, by its primitive
/// keyword: `int`, `float`, `bool` and `string` are their own kinds, and
/// anything else is an object.
pub open spec fn written_kind(t: TypeRef) -> ValueType {
    match t {
        TypeRef::Simple { name, .. } => match keyword_type(name@) {
            Some(TypeInfo::Int) => ValueType::Int,
            Some(TypeInfo::Float) => ValueType::Float,
            Some(TypeInfo::Bool) => ValueType::Bool,
            Some(TypeInfo::String) => ValueType::String,
            _ => ValueType::Object,
        },
        _ => ValueType::Object,
    }
}

/// A type written as a primitive keyword holds values of that keyword's own
/// kind (`int`, `float`, `bool`, `string`), the kind its fields are counted
/// under; every other written type holds objects.
pub proof fn lemma_written_kind_of_keyword(t: TypeRef)
    ensures
        t matches TypeRef::Simple { name, .. } ==> {
            &&& name@ == seq!['i', 'n', 't'] ==> written_kind(t) == ValueType::Int
            &&& name@ == seq!['f', 'l', 'o', 'a', 't'] ==> written_kind(t) == ValueType::Float
            &&& name@ == seq!['b', 'o', 'o', 'l'] ==> written_kind(t) == ValueType::Bool
            &&& name@ == seq!['s', 't', 'r', 'i', 'n', 'g'] ==> written_kind(t) == ValueType::String
            &&& match keyword_type(name@) {
                Some(TypeInfo::Void) => true,
                Some(TypeInfo::Unresolved) => true,
                Some(ti) => written_kind(t) == count_kind(ti),
                None => written_kind(t) == ValueType::Object,
            }
        },
        !(t is Simple) ==> written_kind(t) == ValueType::Object,
{
}

/// A type keyword that the lexer reads names the type that the symbol table
/// gives that keyword: `int`, `float`, `bool` and `string` read as their
/// type tokens name those types.
pub proof fn lemma_type_keywords_agree(text: Seq<char>)
    ensures
        crate::lexer::keyword_of(text) == Some(crate::lexer::Token::TypeInt) <==> keyword_type(text) == Some(TypeInfo::Int),
        crate::lexer::keyword_of(text) == Some(crate::lexer::Token::TypeFloat) <==> keyword_type(text) == Some(TypeInfo::Float),
        crate::lexer::keyword_of(text) == Some(crate::lexer::Token::TypeBool) <==> keyword_type(text) == Some(TypeInfo::Bool),
        crate::lexer::keyword_of(text) == Some(crate::lexer::Token::TypeString) <==> keyword_type(text) == Some(TypeInfo::String),
{
    if text.len() > 0 {
        assert(text[0] == text[0]);
    }
    if text.len() > 1 {
        assert(text[1] == text[1]);
    }
    if text.len() > 2 {
        assert(text[2] == text[2]);
    }
}

/// The kind of value that the type written `tr` holds.
pub fn type_ref_to_value_type(tr: &TypeRef) -> (r: ValueType)
    ensures
        r == written_kind(*tr),
{
    match tr {
        TypeRef::Simple { name, .. } => match TypeInfo::from_keyword(name.as_str()) {
            Some(TypeInfo::Int) => ValueType::Int,
            Some(TypeInfo::Float) => ValueType::Float,
            Some(TypeInfo::Bool) => ValueType::Bool,
            Some(TypeInfo::String) => ValueType::String,
            _ => ValueType::Object,
        },
        _ => ValueType::Object,
    }
}

/// Whether `name` is one of the generic parameters `params`.
pub open spec fn names_param(params: Seq<String>, name: Seq<char>) -> bool {
    exists|i: int| 0 <= i < params.len() && #[trigger] params[i]@ == name
}

/// Whether the type written `t` is a generic parameter of `params`, or an
/// array of one at any depth.
pub open spec fn names_generic_param(params: Seq<String>, t: TypeRef) -> bool
    decreases t,
{
    match t {
        TypeRef::Simple { name, .. } => names_param(params, name@),
        TypeRef::Array { element_type, .. } => names_generic_param(params, *element_type),
        _ => false,
    }
}

/// Whether `ti` is the type that `t`, a generic parameter of `params` or an
/// array of one, stands for.
pub open spec fn param_type_is(params: Seq<String>, t: TypeRef, ti: TypeInfo) -> bool
    decreases t,
{
    match t {
        TypeRef::Simple { name, .. } => ti matches TypeInfo::GenericParam(n) && n@ == name@,
        TypeRef::Array { element_type, .. } => match ti {
            TypeInfo::Array(inner) => param_type_is(params, *element_type, *inner),
            _ => false,
        },
        _ => false,
    }
}

/// Whether the member type written `t` in a class with generic parameters
/// `params`, seen from scope `sid`, names no type: it is no generic
/// parameter and does not resolve.
pub open spec fn member_type_missing(scopes: Seq<Scope>, sid: int, params: Seq<String>, t: TypeRef) -> bool {
    !names_generic_param(params, t) && !type_resolves(scopes, sid, t)
}

/// Whether `ti` is what the member type written `t` stands for: a generic
/// parameter first, else what it resolves to from scope `sid`, else
/// unresolved.
pub open spec fn member_type_is(scopes: Seq<Scope>, sid: int, params: Seq<String>, t: TypeRef, ti: TypeInfo) -> bool {
    if names_generic_param(params, t) {
        param_type_is(params, t, ti)
    } else if type_resolves(scopes, sid, t) {
        resolves_to(scopes, sid, t, ti)
    } else {
        ti is Unresolved
    }
}

/// `n`, or `usize::MAX` where it is larger.
pub open spec fn capped(n: int) -> int {
    if n < usize::MAX {
        n
    } else {
        usize::MAX as int
    }
}

/// The number of fields of kind `vt` among `ids`; an id that names no field
/// counts for nothing.
pub open spec fn kind_fields(fields: Seq<FieldInfo>, ids: Seq<FieldId>, vt: ValueType) -> nat
    decreases ids.len(),
{
    if ids.len() == 0 {
        0
    } else {
        kind_fields(fields, ids.drop_last(), vt) + if ids.last().0 < fields.len() && count_kind(
            fields[ids.last().0 as int].field_type,
        ) == vt {
            1nat
        } else {
            0nat
        }
    }
}

/// The number of fields of kind `vt` declared by class `c` and the classes
/// above it, following at most `steps` classes of the chain.
pub open spec fn inherited_fields(
    classes: Seq<ClassInfo>,
    fields: Seq<FieldInfo>,
    c: Option<ClassId>,
    steps: nat,
    vt: ValueType,
) -> nat
    decreases steps,
{
    match c {
        Some(id) => if steps > 0 && id.0 < classes.len() {
            kind_fields(fields, classes[id.0 as int].fields@, vt) + inherited_fields(
                classes,
                fields,
                classes[id.0 as int].super_class,
                (steps - 1) as nat,
                vt,
            )
        } else {
            0
        },
        None => 0,
    }
}

/// For each kind, the number of fields of that kind declared by class `c`
/// and the classes above it, following at most `steps` classes.
pub open spec fn inherited_counts(
    classes: Seq<ClassInfo>,
    fields: Seq<FieldInfo>,
    c: Option<ClassId>,
    steps: nat,
) -> spec_fn(ValueType) -> nat {
    |vt: ValueType| inherited_fields(classes, fields, c, steps, vt)
}

/// The number of fields of kind `vt` among the fields numbered `lo` to `hi`.
pub open spec fn range_kind_count(fields: Seq<FieldInfo>, lo: int, hi: int, vt: ValueType) -> nat
    decreases hi - lo,
{
    if hi <= lo {
        0
    } else {
        range_kind_count(fields, lo, hi - 1, vt) + if count_kind(fields[hi - 1].field_type) == vt {
            1nat
        } else {
            0nat
        }
    }
}

impl FieldOffsetCounters {
    /// The counter of kind `vt`.
    pub fn get(&self, vt: ValueType) -> (r: usize)
        ensures
            r == self.counter(vt),
    {
        match vt {
            ValueType::Int => self.int_offset,
            ValueType::Float => self.float_offset,
            ValueType::Bool => self.bool_offset,
            ValueType::String => self.string_offset,
            ValueType::Object => self.object_offset,
        }
    }

    /// Counts one more field of kind `vt`; a counter stops at `usize::MAX`.
    pub fn count_one(&mut self, vt: ValueType)
        ensures
            final(self).counter(vt) == capped(old(self).counter(vt) + 1),
            forall|other: ValueType| other != vt ==> #[trigger] final(self).counter(other) == old(self).counter(other),
    {
        if self.get(vt) < usize::MAX {
            let _ = self.next(vt);
        }
    }
}


/// The number of modifiers in `mods` other than `allowed`.
pub open spec fn disallowed_count(mods: Seq<Modifier>, allowed: Option<Modifier>) -> nat
    decreases mods.len(),
{
    if mods.len() == 0 {
        0
    } else {
        disallowed_count(mods.drop_last(), allowed) + if Some(mods.last()) == allowed {
            0nat
        } else {
            1nat
        }
    }
}

/// The number of parameter types among `params` that name no type.
pub open spec fn missing_param_types(
    scopes: Seq<Scope>,
    sid: int,
    gp: Seq<String>,
    params: Seq<Parameter>,
) -> nat
    decreases params.len(),
{
    if params.len() == 0 {
        0
    } else {
        missing_param_types(scopes, sid, gp, params.drop_last()) + if member_type_missing(
            scopes,
            sid,
            gp,
            params.last().param_type,
        ) {
            1nat
        } else {
            0nat
        }
    }
}

/// Each of the parameters numbered from `first` on records one of `params`
/// in turn: its name, its position and the type it stands for.
pub open spec fn parameters_declared(
    st: SymbolTable,
    first: int,
    scopes: Seq<Scope>,
    sid: int,
    gp: Seq<String>,
    params: Seq<Parameter>,
) -> bool {
    &&& st.parameters@.len() == first + params.len()
    &&& forall|i: int|
        0 <= i < params.len() ==> {
            let p = #[trigger] st.parameters@[first + i];
            &&& p.name@ == params[i].name@
            &&& p.index == i
            &&& member_type_is(scopes, sid, gp, params[i].param_type, p.param_type)
        }
}

/// `b` is `a` but for the parameters recorded in it.
pub open spec fn same_but_parameters(a: SymbolTable, b: SymbolTable) -> bool {
    &&& b.namespaces@ == a.namespaces@
    &&& b.classes@ == a.classes@
    &&& b.interfaces@ == a.interfaces@
    &&& b.enums@ == a.enums@
    &&& b.enum_values@ == a.enum_values@
    &&& b.fields@ == a.fields@
    &&& b.methods@ == a.methods@
    &&& b.constructors@ == a.constructors@
    &&& b.injectors@ == a.injectors@
    &&& b.annotations@ == a.annotations@
    &&& b.local_vars@ == a.local_vars@
    &&& b.scopes@ == a.scopes@
    &&& b.global_scope == a.global_scope
}

/// The ids of the parameters numbered `first` to `first + n`.
pub open spec fn fresh_parameter_ids(first: int, n: int) -> Seq<ParameterId> {
    Seq::new(n as nat, |i: int| ParameterId((first + i) as usize))
}

/// The number of injector constructors counted for class `c`.
pub open spec fn injector_count(counts: Seq<(ClassId, usize)>, c: ClassId) -> nat
    decreases counts.len(),
{
    if counts.len() == 0 {
        0
    } else if counts.last().0 == c {
        counts.last().1 as nat
    } else {
        injector_count(counts.drop_last(), c)
    }
}

/// The number that `ids` give constructor `k` among the injector
/// constructors of its class, if it is one (the last entry for it counts).
pub open spec fn injector_local_of(ids: Seq<(ConstructorId, usize)>, k: ConstructorId) -> Option<usize>
    decreases ids.len(),
{
    if ids.len() == 0 {
        None
    } else if ids.last().0 == k {
        Some(ids.last().1)
    } else {
        injector_local_of(ids.drop_last(), k)
    }
}

/// For each of the `cnt` injector constructor numbers, the global number
/// `start + i` (capped) of the last constructor `ctors[i]` that has it, 0
/// where none has.
pub open spec fn injector_slots(ids: Seq<(ConstructorId, usize)>, start: usize, ctors: Seq<ConstructorId>, cnt: nat) -> Seq<usize>
    decreases ctors.len(),
{
    if ctors.len() == 0 {
        Seq::new(cnt, |i: int| 0usize)
    } else {
        let prev = injector_slots(ids, start, ctors.drop_last(), cnt);
        match injector_local_of(ids, ctors.last()) {
            Some(l) => if l < cnt {
                prev.update(l as int, capped(start + ctors.len() - 1) as usize)
            } else {
                prev
            },
            None => prev,
        }
    }
}

impl Compiler {
    /// Reports each modifier of `modifiers` other than `allowed`, with the
    /// message `head`, the modifier's keyword and `tail`.
    fn report_modifiers(
        &mut self,
        span: Span,
        head: &String,
        tail: &str,
        modifiers: &Vec<Modifier>,
        allowed: Option<Modifier>,
    )
        requires
            old(self).wf(),
        ensures
            final(self).wf(),
            final(self).reports_after(*old(self)),
            final(self).diagnostics.items@.len() == old(self).diagnostics.items@.len()
                + disallowed_count(modifiers@, allowed),
            final(self).only_reports_changed(*old(self)),
    {
        let ghost start = *self;
        let mut i: usize = 0;
        while i < modifiers.len()
            invariant
                self.wf(),
                self.reports_after(start),
                self.only_reports_changed(start),
                i <= modifiers@.len(),
                self.diagnostics.items@.len() == start.diagnostics.items@.len() + disallowed_count(
                    modifiers@.take(i as int),
                    allowed,
                ),
            decreases modifiers.len() - i,
        {
            let m = modifiers[i];
            proof {
                assert(modifiers@.take(i + 1).drop_last() =~= modifiers@.take(i as int));
            }
            let skip = match allowed {
                Some(a) => a == m,
                None => false,
            };
            if !skip {
                let msg = head.clone().concat(modifier_name(m)).concat(tail);
                self.report(span, msg);
            }
            i = i + 1;
        }
        proof {
            assert(modifiers@.take(modifiers@.len() as int) =~= modifiers@);
        }
    }

    /// Whether `name` is a generic parameter of the class being declared.
    fn is_generic_param(&self, name: &String) -> (r: bool)
        ensures
            r == names_param(self.current_generic_params@, name@),
    {
        let mut i: usize = 0;
        while i < self.current_generic_params.len()
            invariant
                i <= self.current_generic_params@.len(),
                forall|j: int| 0 <= j < i ==> (#[trigger] self.current_generic_params@[j])@ != name@,
            decreases self.current_generic_params.len() - i,
        {
            if self.current_generic_params[i] == *name {
                return true;
            }
            i = i + 1;
        }
        false
    }

    /// The type that `type_ref` stands for when it is a generic parameter of
    /// the class being declared, or an array of one.
    fn resolve_generic_param_type(&self, type_ref: &TypeRef) -> (r: Option<TypeInfo>)
        ensures
            r is Some <==> names_generic_param(self.current_generic_params@, *type_ref),
            r matches Some(ti) ==> param_type_is(self.current_generic_params@, *type_ref, ti),
        decreases type_ref,
    {
        match type_ref {
            TypeRef::Simple { name, .. } => {
                if self.is_generic_param(name) {
                    Some(TypeInfo::GenericParam(name.clone()))
                } else {
                    None
                }
            },
            TypeRef::Array { element_type, .. } => match self.resolve_generic_param_type(element_type) {
                Some(e) => Some(TypeInfo::Array(Box::new(e))),
                None => None,
            },
            _ => None,
        }
    }

    /// The type that member type `type_ref` stands for from scope `scope`: a
    /// generic parameter of the class being declared first, else the type it
    /// resolves to. One that names no type is reported and stands for an
    /// unresolved type.
    fn resolve_ast_type(&mut self, scope: ScopeId, type_ref: &TypeRef) -> (ti: TypeInfo)
        requires
            old(self).wf(),
            old(self).symbol_table.has_scope(scope),
        ensures
            final(self).wf(),
            final(self).reports_after(*old(self)),
            final(self).only_reports_changed(*old(self)),
            member_type_is(
                old(self).symbol_table.scopes@,
                scope.0 as int,
                old(self).current_generic_params@,
                *type_ref,
                ti,
            ),
            final(self).diagnostics.items@.len() == old(self).diagnostics.items@.len() + if member_type_missing(
                old(self).symbol_table.scopes@,
                scope.0 as int,
                old(self).current_generic_params@,
                *type_ref,
            ) {
                1int
            } else {
                0int
            },
    {
        if let Some(ti) = self.resolve_generic_param_type(type_ref) {
            return ti;
        }
        match self.symbol_table.resolve_type(scope, type_ref) {
            Some(ti) => ti,
            None => {
                let name = type_ref_name(type_ref);
                let msg = String::from_str("未找到类型 `").concat(name.as_str()).concat("`");
                self.report(type_ref.span(), msg);
                TypeInfo::Unresolved
            },
        }
    }

    /// Records the parameters `params`, numbered in turn from the next free
    /// parameter, with their types as seen from `scope`.
    fn declare_parameters(&mut self, scope: ScopeId, params: &Vec<Parameter>) -> (ids: Vec<ParameterId>)
        requires
            old(self).wf(),
            old(self).symbol_table.has_scope(scope),
        ensures
            final(self).wf(),
            final(self).reports_after(*old(self)),
            final(self).diagnostics.items@.len() == old(self).diagnostics.items@.len()
                + missing_param_types(
                old(self).symbol_table.scopes@,
                scope.0 as int,
                old(self).current_generic_params@,
                params@,
            ),
            ids@ == fresh_parameter_ids(old(self).symbol_table.parameters@.len() as int, params@.len() as int),
            parameters_declared(
                final(self).symbol_table,
                old(self).symbol_table.parameters@.len() as int,
                old(self).symbol_table.scopes@,
                scope.0 as int,
                old(self).current_generic_params@,
                params@,
            ),
            final(self).symbol_table.parameters@.take(old(self).symbol_table.parameters@.len() as int)
                == old(self).symbol_table.parameters@,
            same_but_parameters(old(self).symbol_table, final(self).symbol_table),
            final(self).current_namespace_id == old(self).current_namespace_id,
            final(self).class_annotations@ == old(self).class_annotations@,
            final(self).tasks@ == old(self).tasks@,
            final(self).injector_fields@ == old(self).injector_fields@,
            final(self).class_injector_constructor_count@ == old(self).class_injector_constructor_count@,
            final(self).injector_constructor_ids@ == old(self).injector_constructor_ids@,
            final(self).injector_constructor_impl_id@ == old(self).injector_constructor_impl_id@,
            final(self).current_generic_params@ == old(self).current_generic_params@,
    {
        let ghost start = *self;
        let ghost first = start.symbol_table.parameters@.len() as int;
        let mut ids: Vec<ParameterId> = Vec::new();
        let mut i: usize = 0;
        while i < params.len()
            invariant
                self.wf(),
                self.reports_after(start),
                self.symbol_table.has_scope(scope),
                i <= params@.len(),
                self.diagnostics.items@.len() == start.diagnostics.items@.len() + missing_param_types(
                    start.symbol_table.scopes@,
                    scope.0 as int,
                    start.current_generic_params@,
                    params@.take(i as int),
                ),
                ids@ == fresh_parameter_ids(first, i as int),
                parameters_declared(
                    self.symbol_table,
                    first,
                    start.symbol_table.scopes@,
                    scope.0 as int,
                    start.current_generic_params@,
                    params@.take(i as int),
                ),
                self.symbol_table.parameters@.take(first) == start.symbol_table.parameters@,
                same_but_parameters(start.symbol_table, self.symbol_table),
                first == start.symbol_table.parameters@.len(),
                self.current_namespace_id == start.current_namespace_id,
                self.class_annotations@ == start.class_annotations@,
                self.tasks@ == start.tasks@,
                self.injector_fields@ == start.injector_fields@,
                self.class_injector_constructor_count@ == start.class_injector_constructor_count@,
                self.injector_constructor_ids@ == start.injector_constructor_ids@,
                self.injector_constructor_impl_id@ == start.injector_constructor_impl_id@,
                self.current_generic_params@ == start.current_generic_params@,
            decreases params.len() - i,
        {
            let ghost before = self.symbol_table;
            let pt = self.resolve_ast_type(scope, &params[i].param_type);
            let id = self.symbol_table.declare_parameter(params[i].name.as_str(), pt, i, params[i].span);
            ids.push(id);
            proof {
                let taken = params@.take(i + 1);
                assert(taken.drop_last() =~= params@.take(i as int));
                assert(ids@ =~= fresh_parameter_ids(first, i + 1));
                assert(self.symbol_table.parameters@.take(before.parameters@.len() as int)
                    == before.parameters@);
                assert forall|k: int| 0 <= k < first implies self.symbol_table.parameters@[k]
                    == start.symbol_table.parameters@[k] by {
                    assert(self.symbol_table.parameters@.take(before.parameters@.len() as int)[k]
                        == before.parameters@[k]);
                    assert(before.parameters@.take(first)[k] == start.symbol_table.parameters@[k]);
                }
                assert(start.symbol_table.parameters@.len() == first);
                assert(self.symbol_table.parameters@.take(first) =~= start.symbol_table.parameters@);
                assert forall|k: int| 0 <= k < taken.len() implies {
                    let p = #[trigger] self.symbol_table.parameters@[first + k];
                    &&& p.name@ == taken[k].name@
                    &&& p.index == k
                    &&& member_type_is(
                        start.symbol_table.scopes@,
                        scope.0 as int,
                        start.current_generic_params@,
                        taken[k].param_type,
                        p.param_type,
                    )
                } by {
                    if k < i {
                        assert(self.symbol_table.parameters@.take(before.parameters@.len() as int)[first
                            + k] == before.parameters@[first + k]);
                        assert(params@.take(i as int)[k] == taken[k]);
                    }
                }
            }
            i = i + 1;
        }
        proof {
            assert(params@.take(params@.len() as int) =~= params@);
        }
        ids
    }
}


/// `capped` of a capped count grown by `b` is the cap of the whole sum.
proof fn lemma_capped_add(a: int, b: int)
    requires
        a >= 0,
        b >= 0,
    ensures
        capped(capped(a) + b) == capped(a + b),
{
}

impl Compiler {
    /// Adds to `counters` the fields of each kind declared by class `c` and
    /// the classes above it, following at most `steps` classes of the chain.
    fn count_inherited_fields(&self, c: Option<ClassId>, steps: usize, counters: &mut FieldOffsetCounters)
        ensures
            forall|vt: ValueType|
                #[trigger] final(counters).counter(vt) == capped(
                    old(counters).counter(vt) + inherited_fields(
                        self.symbol_table.classes@,
                        self.symbol_table.fields@,
                        c,
                        steps as nat,
                        vt,
                    ),
                ),
        decreases steps,
    {
        let id = match c {
            Some(id) => id,
            None => {
                return;
            },
        };
        if steps == 0 || id.0 >= self.symbol_table.classes.len() {
            return;
        }
        let ghost start = *counters;
        let ids = &self.symbol_table.classes.get(id.0).fields;
        let mut j: usize = 0;
        while j < ids.len()
            invariant
                j <= ids@.len(),
                ids@ == self.symbol_table.classes@[id.0 as int].fields@,
                forall|vt: ValueType|
                    #[trigger] counters.counter(vt) == capped(
                        start.counter(vt) + kind_fields(self.symbol_table.fields@, ids@.take(j as int), vt),
                    ),
            decreases ids.len() - j,
        {
            let fid = ids[j];
            proof {
                assert(ids@.take(j + 1).drop_last() =~= ids@.take(j as int));
                assert(ids@.take(j + 1).last() == fid);
            }
            if fid.0 < self.symbol_table.fields.len() {
                let vt = type_info_to_value_type(&self.symbol_table.fields.get(fid.0).field_type);
                let ghost before = *counters;
                counters.count_one(vt);
                proof {
                    assert forall|k: ValueType| #[trigger] counters.counter(k) == capped(
                        start.counter(k) + kind_fields(self.symbol_table.fields@, ids@.take(j + 1), k),
                    ) by {
                        if k == vt {
                            lemma_capped_add(
                                start.counter(k) + kind_fields(self.symbol_table.fields@, ids@.take(j as int), k),
                                1,
                            );
                        } else {
                            assert(before.counter(k) == counters.counter(k));
                        }
                    }
                }
            }
            j = j + 1;
        }
        proof {
            assert(ids@.take(ids@.len() as int) =~= ids@);
        }
        let ghost mid = *counters;
        let next = self.symbol_table.classes.get(id.0).super_class;
        self.count_inherited_fields(next, steps - 1, counters);
        proof {
            assert forall|vt: ValueType| #[trigger] counters.counter(vt) == capped(
                start.counter(vt) + inherited_fields(
                    self.symbol_table.classes@,
                    self.symbol_table.fields@,
                    c,
                    steps as nat,
                    vt,
                ),
            ) by {
                lemma_capped_add(
                    start.counter(vt) + kind_fields(self.symbol_table.fields@, ids@, vt),
                    inherited_fields(
                        self.symbol_table.classes@,
                        self.symbol_table.fields@,
                        next,
                        (steps - 1) as nat,
                        vt,
                    ) as int,
                );
            }
        }
    }
}


/// `1` where `b` holds, else `0`.
pub open spec fn one_if(b: bool) -> int {
    if b {
        1
    } else {
        0
    }
}

impl Compiler {
    /// Pass 3 for a field of class `class_id`: reports a type that names no
    /// type, every modifier (a field takes none) and a name already declared
    /// in the class; declares the field with the type it stands for, gives it
    /// the next offset of its kind from `counters`, and leaves a task for its
    /// initializer unless the field is native.
    fn pass3_declare_field(
        &mut self,
        class_id: ClassId,
        class_scope: ScopeId,
        decl: &FieldDeclaration,
        counters: &mut FieldOffsetCounters,
    )
        requires
            old(self).wf(),
            class_id.0 < old(self).symbol_table.classes@.len(),
            class_scope == old(self).symbol_table.classes@[class_id.0 as int].scope_id,
        ensures
            final(self).symbol_table.scopes@.len() >= old(self).symbol_table.scopes@.len(),
            final(self).wf(),
            final(self).reports_after(*old(self)),
            final(self).diagnostics.items@.len() == old(self).diagnostics.items@.len() + one_if(
                member_type_missing(
                    old(self).symbol_table.scopes@,
                    class_scope.0 as int,
                    old(self).current_generic_params@,
                    decl.field_type,
                ),
            ) + decl.modifiers@.len() + one_if(
                old(self).symbol_table.scopes@[class_scope.0 as int].symbols@.contains_key(decl.name@),
            ),
            final(self).symbol_table.fields@.len() == old(self).symbol_table.fields@.len() + 1,
            final(self).symbol_table.fields@.drop_last() == old(self).symbol_table.fields@,
            ({
                let f = final(self).symbol_table.fields@.last();
                let vt = count_kind(f.field_type);
                &&& f.name@ == decl.name@
                &&& f.class_id == class_id
                &&& !f.is_static
                &&& member_type_is(
                    old(self).symbol_table.scopes@,
                    class_scope.0 as int,
                    old(self).current_generic_params@,
                    decl.field_type,
                    f.field_type,
                )
                &&& f.offset == Some(old(counters).counter(vt))
                &&& final(counters).counter(vt) == capped(old(counters).counter(vt) + 1)
                &&& forall|other: ValueType|
                    other != vt ==> #[trigger] final(counters).counter(other) == old(counters).counter(other)
            }),
            final(self).symbol_table.classes@.len() == old(self).symbol_table.classes@.len(),
            final(self).symbol_table.classes@[class_id.0 as int].fields@
                == old(self).symbol_table.classes@[class_id.0 as int].fields@.push(
                FieldId(old(self).symbol_table.fields@.len() as usize),
            ),
            final(self).symbol_table.classes@[class_id.0 as int] == (ClassInfo {
                fields: final(self).symbol_table.classes@[class_id.0 as int].fields,
                ..old(self).symbol_table.classes@[class_id.0 as int]
            }),
            forall|i: int|
                0 <= i < old(self).symbol_table.classes@.len() && i != class_id.0
                    ==> final(self).symbol_table.classes@[i] == old(self).symbol_table.classes@[i],
            declaration_effect(
                old(self).symbol_table.scopes@,
                final(self).symbol_table.scopes@,
                class_scope,
                decl.name@,
                SymbolEntry::Field(FieldId(old(self).symbol_table.fields@.len() as usize)),
            ),
            final(self).symbol_table.methods@ == old(self).symbol_table.methods@,
            final(self).symbol_table.constructors@ == old(self).symbol_table.constructors@,
            final(self).symbol_table.interfaces@ == old(self).symbol_table.interfaces@,
            final(self).symbol_table.enums@ == old(self).symbol_table.enums@,
            final(self).symbol_table.parameters@ == old(self).symbol_table.parameters@,
            final(self).tasks@ == if decl.initializer is Some && !decl.modifiers@.contains(
                Modifier::Native,
            ) {
                old(self).tasks@.push(
                    CompileTask {
                        kind: TaskKind::FieldInitializer {
                            field_id: FieldId(old(self).symbol_table.fields@.len() as usize),
                            class_id,
                        },
                        span: decl.span,
                    },
                )
            } else {
                old(self).tasks@
            },
            final(self).current_namespace_id == old(self).current_namespace_id,
            final(self).class_annotations@ == old(self).class_annotations@,
            final(self).injector_fields@ == old(self).injector_fields@,
            final(self).class_injector_constructor_count@ == old(self).class_injector_constructor_count@,
            final(self).injector_constructor_ids@ == old(self).injector_constructor_ids@,
            final(self).injector_constructor_impl_id@ == old(self).injector_constructor_impl_id@,
            final(self).current_generic_params@ == old(self).current_generic_params@,
    {
        let ghost start = *self;
        proof {
            assert(self.symbol_table.has_scope(class_scope));
        }
        let field_type = self.resolve_ast_type(class_scope, &decl.field_type);
        let head = String::from_str("字段 `").concat(decl.name.as_str()).concat("` 不允许使用修饰符 `");
        self.report_modifiers(decl.span, &head, "`", &decl.modifiers, None);
        proof {
            assert(disallowed_count(decl.modifiers@, None) == decl.modifiers@.len()) by {
                lemma_disallowed_none(decl.modifiers@);
            }
        }
        if self.has_symbol_in_scope(class_scope, decl.name.as_str()) {
            let msg = String::from_str("重复的字段声明 `").concat(decl.name.as_str()).concat("`");
            self.report(decl.span, msg);
        }
        let vt = type_info_to_value_type(&field_type);
        let field_id = self.symbol_table.declare_field(decl.name.as_str(), class_id, field_type, false, decl.span);
        let offset = counters.get(vt);
        counters.count_one(vt);
        self.symbol_table.allocate_field_offset(field_id, offset);
        proof {
            assert(self.symbol_table.fields@.drop_last() =~= start.symbol_table.fields@);
        }
        if decl.initializer.is_some() && !contains_modifier(&decl.modifiers, Modifier::Native) {
            self.tasks.push(
                CompileTask { kind: TaskKind::FieldInitializer { field_id, class_id }, span: decl.span },
            );
        }
    }
}

/// With nothing allowed, every modifier counts.
proof fn lemma_disallowed_none(mods: Seq<Modifier>)
    ensures
        disallowed_count(mods, None) == mods.len(),
    decreases mods.len(),
{
    if mods.len() > 0 {
        lemma_disallowed_none(mods.drop_last());
    }
}


impl Compiler {
    /// Pass 3 for a method of class `class_id`: reports a return or parameter
    /// type that names no type and every modifier but `static`; declares the
    /// method with its parameters, and where it has a body gives it a body
    /// scope under the class scope and leaves a task for the body.
    fn pass3_declare_method(&mut self, class_id: ClassId, class_scope: ScopeId, decl: &MethodDeclaration)
        requires
            old(self).wf(),
            class_id.0 < old(self).symbol_table.classes@.len(),
            class_scope == old(self).symbol_table.classes@[class_id.0 as int].scope_id,
        ensures
            final(self).symbol_table.scopes@.len() >= old(self).symbol_table.scopes@.len(),
            final(self).wf(),
            final(self).reports_after(*old(self)),
            final(self).diagnostics.items@.len() == old(self).diagnostics.items@.len() + one_if(
                member_type_missing(
                    old(self).symbol_table.scopes@,
                    class_scope.0 as int,
                    old(self).current_generic_params@,
                    decl.return_type,
                ),
            ) + disallowed_count(decl.modifiers@, Some(Modifier::Static)) + missing_param_types(
                old(self).symbol_table.scopes@,
                class_scope.0 as int,
                old(self).current_generic_params@,
                decl.parameters@,
            ),
            final(self).symbol_table.methods@.len() == old(self).symbol_table.methods@.len() + 1,
            final(self).symbol_table.methods@.drop_last() == old(self).symbol_table.methods@,
            ({
                let m = final(self).symbol_table.methods@.last();
                &&& m.name@ == decl.name@
                &&& m.class_id == Some(class_id)
                &&& m.interface_id is None
                &&& member_type_is(
                    old(self).symbol_table.scopes@,
                    class_scope.0 as int,
                    old(self).current_generic_params@,
                    decl.return_type,
                    m.return_type,
                )
                &&& m.parameters@ == fresh_parameter_ids(
                    old(self).symbol_table.parameters@.len() as int,
                    decl.parameters@.len() as int,
                )
                &&& m.is_static == decl.modifiers@.contains(Modifier::Static)
                &&& !m.is_native
                &&& (m.body_scope_id is Some <==> decl.body is Some)
            }),
            parameters_declared(
                final(self).symbol_table,
                old(self).symbol_table.parameters@.len() as int,
                old(self).symbol_table.scopes@,
                class_scope.0 as int,
                old(self).current_generic_params@,
                decl.parameters@,
            ),
            final(self).symbol_table.parameters@.take(old(self).symbol_table.parameters@.len() as int)
                == old(self).symbol_table.parameters@,
            final(self).symbol_table.classes@.len() == old(self).symbol_table.classes@.len(),
            final(self).symbol_table.classes@[class_id.0 as int].methods@
                == old(self).symbol_table.classes@[class_id.0 as int].methods@.push(
                MethodId(old(self).symbol_table.methods@.len() as usize),
            ),
            final(self).symbol_table.classes@[class_id.0 as int] == (ClassInfo {
                methods: final(self).symbol_table.classes@[class_id.0 as int].methods,
                ..old(self).symbol_table.classes@[class_id.0 as int]
            }),
            forall|i: int|
                0 <= i < old(self).symbol_table.classes@.len() && i != class_id.0
                    ==> final(self).symbol_table.classes@[i] == old(self).symbol_table.classes@[i],
            final(self).symbol_table.fields@ == old(self).symbol_table.fields@,
            final(self).symbol_table.constructors@ == old(self).symbol_table.constructors@,
            final(self).symbol_table.interfaces@ == old(self).symbol_table.interfaces@,
            final(self).symbol_table.enums@ == old(self).symbol_table.enums@,
            final(self).tasks@ == if decl.body is Some {
                old(self).tasks@.push(
                    CompileTask {
                        kind: TaskKind::Method {
                            method_id: MethodId(old(self).symbol_table.methods@.len() as usize),
                        },
                        span: decl.span,
                    },
                )
            } else {
                old(self).tasks@
            },
            final(self).current_namespace_id == old(self).current_namespace_id,
            final(self).class_annotations@ == old(self).class_annotations@,
            final(self).injector_fields@ == old(self).injector_fields@,
            final(self).class_injector_constructor_count@ == old(self).class_injector_constructor_count@,
            final(self).injector_constructor_ids@ == old(self).injector_constructor_ids@,
            final(self).injector_constructor_impl_id@ == old(self).injector_constructor_impl_id@,
            final(self).current_generic_params@ == old(self).current_generic_params@,
    {
        let ghost start = *self;
        let return_type = self.resolve_ast_type(class_scope, &decl.return_type);
        let head = String::from_str("类方法 `").concat(decl.name.as_str()).concat("` 不允许使用修饰符 `");
        self.report_modifiers(
            decl.span,
            &head,
            "`，类方法只允许 `static`",
            &decl.modifiers,
            Some(Modifier::Static),
        );
        let is_static = contains_modifier(&decl.modifiers, Modifier::Static);
        let params = self.declare_parameters(class_scope, &decl.parameters);
        let method_id = self.symbol_table.declare_method(
            decl.name.as_str(),
            Some(class_id),
            None,
            return_type,
            params,
            is_static,
            false,
            decl.span,
        );
        if decl.body.is_some() {
            let body_scope = self.symbol_table.push_scope(class_scope, ScopeKind::Method { method_id });
            self.symbol_table.set_method_body_scope(method_id, body_scope);
            self.tasks.push(CompileTask { kind: TaskKind::Method { method_id }, span: decl.span });
        }
        proof {
            assert(self.symbol_table.methods@.drop_last() =~= start.symbol_table.methods@);
        }
    }

    /// The number of injector constructors counted for class `c`.
    fn injector_constructor_count(&self, c: ClassId) -> (n: usize)
        ensures
            n == injector_count(self.class_injector_constructor_count@, c),
    {
        let counts = &self.class_injector_constructor_count;
        let mut i: usize = counts.len();
        proof {
            assert(counts@.take(i as int) =~= counts@);
        }
        while i > 0
            invariant
                i <= counts@.len(),
                counts@ == self.class_injector_constructor_count@,
                injector_count(counts@, c) == injector_count(counts@.take(i as int), c),
            decreases i,
        {
            proof {
                assert(counts@.take(i as int).drop_last() =~= counts@.take(i - 1));
            }
            if counts[i - 1].0 == c {
                return counts[i - 1].1;
            }
            i = i - 1;
        }
        0
    }

    /// The number of constructor `k` among the injector constructors of its
    /// class, if it is one.
    fn injector_local_id(&self, k: ConstructorId) -> (r: Option<usize>)
        ensures
            r == injector_local_of(self.injector_constructor_ids@, k),
    {
        let ids = &self.injector_constructor_ids;
        let mut i: usize = ids.len();
        proof {
            assert(ids@.take(i as int) =~= ids@);
        }
        while i > 0
            invariant
                i <= ids@.len(),
                ids@ == self.injector_constructor_ids@,
                injector_local_of(ids@, k) == injector_local_of(ids@.take(i as int), k),
            decreases i,
        {
            proof {
                assert(ids@.take(i as int).drop_last() =~= ids@.take(i - 1));
            }
            if ids[i - 1].0 == k {
                return Some(ids[i - 1].1);
            }
            i = i - 1;
        }
        None
    }

    /// Pass 3 for a constructor of class `class_id`: reports every modifier
    /// but `injector` and a parameter type that names no type; counts an
    /// injector constructor for the class; declares the constructor with its
    /// parameters, and where it has a body gives it a body scope under the
    /// class scope and leaves a task for the body.
    fn pass3_declare_constructor(&mut self, class_id: ClassId, class_scope: ScopeId, decl: &ConstructorDeclaration)
        requires
            old(self).wf(),
            class_id.0 < old(self).symbol_table.classes@.len(),
            class_scope == old(self).symbol_table.classes@[class_id.0 as int].scope_id,
        ensures
            final(self).symbol_table.scopes@.len() >= old(self).symbol_table.scopes@.len(),
            final(self).wf(),
            final(self).reports_after(*old(self)),
            final(self).diagnostics.items@.len() == old(self).diagnostics.items@.len()
                + disallowed_count(decl.modifiers@, Some(Modifier::Injector)) + missing_param_types(
                old(self).symbol_table.scopes@,
                class_scope.0 as int,
                old(self).current_generic_params@,
                decl.parameters@,
            ),
            final(self).symbol_table.constructors@.len() == old(self).symbol_table.constructors@.len() + 1,
            final(self).symbol_table.constructors@.drop_last() == old(self).symbol_table.constructors@,
            ({
                let k = final(self).symbol_table.constructors@.last();
                &&& k.class_id == class_id
                &&& k.parameters@ == fresh_parameter_ids(
                    old(self).symbol_table.parameters@.len() as int,
                    decl.parameters@.len() as int,
                )
                &&& !k.is_native
                &&& (k.body_scope_id is Some <==> decl.body is Some)
            }),
            parameters_declared(
                final(self).symbol_table,
                old(self).symbol_table.parameters@.len() as int,
                old(self).symbol_table.scopes@,
                class_scope.0 as int,
                old(self).current_generic_params@,
                decl.parameters@,
            ),
            final(self).symbol_table.parameters@.take(old(self).symbol_table.parameters@.len() as int)
                == old(self).symbol_table.parameters@,
            final(self).symbol_table.classes@.len() == old(self).symbol_table.classes@.len(),
            final(self).symbol_table.classes@[class_id.0 as int].constructors@
                == old(self).symbol_table.classes@[class_id.0 as int].constructors@.push(
                ConstructorId(old(self).symbol_table.constructors@.len() as usize),
            ),
            final(self).symbol_table.classes@[class_id.0 as int] == (ClassInfo {
                constructors: final(self).symbol_table.classes@[class_id.0 as int].constructors,
                ..old(self).symbol_table.classes@[class_id.0 as int]
            }),
            forall|i: int|
                0 <= i < old(self).symbol_table.classes@.len() && i != class_id.0
                    ==> final(self).symbol_table.classes@[i] == old(self).symbol_table.classes@[i],
            final(self).symbol_table.fields@ == old(self).symbol_table.fields@,
            final(self).symbol_table.methods@ == old(self).symbol_table.methods@,
            final(self).symbol_table.interfaces@ == old(self).symbol_table.interfaces@,
            final(self).symbol_table.enums@ == old(self).symbol_table.enums@,
            injector_count(final(self).class_injector_constructor_count@, class_id) == if decl.modifiers@.contains(
                Modifier::Injector,
            ) {
                capped(injector_count(old(self).class_injector_constructor_count@, class_id) + 1int)
            } else {
                injector_count(old(self).class_injector_constructor_count@, class_id) as int
            },
            forall|d: ClassId|
                d != class_id ==> #[trigger] injector_count(final(self).class_injector_constructor_count@, d)
                    == injector_count(old(self).class_injector_constructor_count@, d),
            final(self).tasks@ == if decl.body is Some {
                old(self).tasks@.push(
                    CompileTask {
                        kind: TaskKind::Constructor {
                            constructor_id: ConstructorId(old(self).symbol_table.constructors@.len() as usize),
                        },
                        span: decl.span,
                    },
                )
            } else {
                old(self).tasks@
            },
            final(self).current_namespace_id == old(self).current_namespace_id,
            final(self).class_annotations@ == old(self).class_annotations@,
            final(self).injector_fields@ == old(self).injector_fields@,
            final(self).current_generic_params@ == old(self).current_generic_params@,
            final(self).injector_constructor_ids@ == if decl.modifiers@.contains(Modifier::Injector) {
                old(self).injector_constructor_ids@.push(
                    (
                        ConstructorId(old(self).symbol_table.constructors@.len() as usize),
                        injector_count(old(self).class_injector_constructor_count@, class_id) as usize,
                    ),
                )
            } else {
                old(self).injector_constructor_ids@
            },
            final(self).injector_constructor_impl_id@ == old(self).injector_constructor_impl_id@,
    {
        let ghost start = *self;
        let head = String::from_str("构造方法不允许使用修饰符 `");
        self.report_modifiers(
            decl.span,
            &head,
            "`，构造方法只允许 `injector`",
            &decl.modifiers,
            Some(Modifier::Injector),
        );
        if contains_modifier(&decl.modifiers, Modifier::Injector) {
            let count = self.injector_constructor_count(class_id);
            self.class_injector_constructor_count.push((class_id, count.saturating_add(1)));
            let new_id = ConstructorId(self.symbol_table.constructors.len());
            self.injector_constructor_ids.push((new_id, count));
            proof {
                let v = self.class_injector_constructor_count@;
                assert(v.drop_last() =~= start.class_injector_constructor_count@);
            }
        }
        let params = self.declare_parameters(class_scope, &decl.parameters);
        let ctor_id = self.symbol_table.declare_constructor(class_id, params, false, decl.span);
        if decl.body.is_some() {
            let body_scope = self.symbol_table.push_scope(
                class_scope,
                ScopeKind::Constructor { constructor_id: ctor_id },
            );
            self.symbol_table.set_constructor_body_scope(ctor_id, body_scope);
            self.tasks.push(
                CompileTask { kind: TaskKind::Constructor { constructor_id: ctor_id }, span: decl.span },
            );
        }
        proof {
            assert(self.symbol_table.constructors@.drop_last() =~= start.symbol_table.constructors@);
        }
    }
}


/// The injector fields recorded for the class named `name`: those of the
/// first entry under that name, or none.
pub open spec fn injector_fields_of(v: Seq<(String, Vec<InjectorFieldDef>)>, name: Seq<char>) -> Seq<
    InjectorFieldDef,
>
    decreases v.len(),
{
    if v.len() == 0 {
        Seq::empty()
    } else if v[0].0@ == name {
        v[0].1@
    } else {
        injector_fields_of(v.drop_first(), name)
    }
}

/// Replacing the list of the first entry under `name` changes what is
/// recorded for `name` alone.
proof fn lemma_injector_fields_update(
    v: Seq<(String, Vec<InjectorFieldDef>)>,
    i: int,
    name: Seq<char>,
    list: Vec<InjectorFieldDef>,
)
    requires
        0 <= i < v.len(),
        v[i].0@ == name,
        forall|j: int| 0 <= j < i ==> (#[trigger] v[j]).0@ != name,
    ensures
        injector_fields_of(v, name) == v[i].1@,
        injector_fields_of(v.update(i, (v[i].0, list)), name) == list@,
        forall|other: Seq<char>|
            other != name ==> #[trigger] injector_fields_of(v.update(i, (v[i].0, list)), other)
                == injector_fields_of(v, other),
    decreases i,
{
    let w = v.update(i, (v[i].0, list));
    if i > 0 {
        assert(w.drop_first() =~= v.drop_first().update(i - 1, (v[i].0, list)));
        assert forall|j: int| 0 <= j < i - 1 implies (#[trigger] v.drop_first()[j]).0@ != name by {
            assert(v.drop_first()[j] == v[j + 1]);
        }
        lemma_injector_fields_update(v.drop_first(), i - 1, name, list);
        assert(v[0].0@ != name);
        assert(w[0] == v[0]);
    } else {
        assert(w.drop_first() =~= v.drop_first());
    }
    assert forall|other: Seq<char>| other != name implies #[trigger] injector_fields_of(w, other)
        == injector_fields_of(v, other) by {
        if i > 0 {
            assert(w[0] == v[0]);
            let u = v.drop_first();
            assert(u.update(i - 1, (u[i - 1].0, list)) == w.drop_first());
            assert(injector_fields_of(u.update(i - 1, (u[i - 1].0, list)), other) == injector_fields_of(
                u,
                other,
            ));
        }
    }
}

/// No entry of `v` is under `name`: a new one adds the list for `name` alone.
proof fn lemma_injector_fields_push(
    v: Seq<(String, Vec<InjectorFieldDef>)>,
    name: Seq<char>,
    entry: (String, Vec<InjectorFieldDef>),
)
    requires
        forall|j: int| 0 <= j < v.len() ==> (#[trigger] v[j]).0@ != name,
        entry.0@ == name,
    ensures
        injector_fields_of(v, name) == Seq::<InjectorFieldDef>::empty(),
        injector_fields_of(v.push(entry), name) == entry.1@,
        forall|other: Seq<char>|
            other != name ==> #[trigger] injector_fields_of(v.push(entry), other) == injector_fields_of(
                v,
                other,
            ),
    decreases v.len(),
{
    let w = v.push(entry);
    if v.len() > 0 {
        assert(w.drop_first() =~= v.drop_first().push(entry));
        assert forall|j: int| 0 <= j < v.drop_first().len() implies (#[trigger] v.drop_first()[j]).0@
            != name by {
            assert(v.drop_first()[j] == v[j + 1]);
        }
        lemma_injector_fields_push(v.drop_first(), name, entry);
        assert(w[0] == v[0]);
    } else {
        assert(w.drop_first() =~= Seq::<(String, Vec<InjectorFieldDef>)>::empty());
    }
    assert forall|other: Seq<char>| other != name implies #[trigger] injector_fields_of(w, other)
        == injector_fields_of(v, other) by {
        if v.len() > 0 {
            assert(w[0] == v[0]);
            assert(w.drop_first() == v.drop_first().push(entry));
            assert(injector_fields_of(v.drop_first().push(entry), other) == injector_fields_of(
                v.drop_first(),
                other,
            ));
        } else {
            assert(w[0] == entry);
            assert(w.drop_first() == Seq::<(String, Vec<InjectorFieldDef>)>::empty());
            assert(injector_fields_of(w.drop_first(), other) == Seq::<InjectorFieldDef>::empty());
        }
    }
}

impl Compiler {
    /// Records `def` as one more injector field of the class named `class_name`.
    fn add_injector_field(&mut self, class_name: &String, def: InjectorFieldDef)
        ensures
            injector_fields_of(final(self).injector_fields@, class_name@) == injector_fields_of(
                old(self).injector_fields@,
                class_name@,
            ).push(def),
            forall|other: Seq<char>|
                other != class_name@ ==> #[trigger] injector_fields_of(final(self).injector_fields@, other)
                    == injector_fields_of(old(self).injector_fields@, other),
            final(self).symbol_table == old(self).symbol_table,
            final(self).diagnostics == old(self).diagnostics,
            final(self).current_namespace_id == old(self).current_namespace_id,
            final(self).class_annotations@ == old(self).class_annotations@,
            final(self).tasks@ == old(self).tasks@,
            final(self).class_injector_constructor_count@ == old(self).class_injector_constructor_count@,
            final(self).injector_constructor_ids@ == old(self).injector_constructor_ids@,
            final(self).injector_constructor_impl_id@ == old(self).injector_constructor_impl_id@,
            final(self).current_generic_params@ == old(self).current_generic_params@,
    {
        let ghost v = self.injector_fields@;
        let ghost s0 = *self;
        let mut i: usize = 0;
        while i < self.injector_fields.len()
            invariant
                i <= v.len(),
                *self == s0,
                s0 == *old(self),
                self.injector_fields@ == v,
                forall|j: int| 0 <= j < i ==> (#[trigger] v[j]).0@ != class_name@,
            decreases self.injector_fields.len() - i,
        {
            if self.injector_fields[i].0 == *class_name {
                let (key, mut list) = self.injector_fields.remove(i);
                proof {
                    lemma_injector_fields_update(v, i as int, class_name@, list);
                }
                list.push(def);
                proof {
                    lemma_injector_fields_update(v, i as int, class_name@, list);
                }
                self.injector_fields.insert(i, (key, list));
                proof {
                    assert(self.injector_fields@ =~= v.update(i as int, (v[i as int].0, list)));
                }
                return;
            }
            i = i + 1;
        }
        let mut list: Vec<InjectorFieldDef> = Vec::new();
        list.push(def);
        let entry = (class_name.clone(), list);
        proof {
            lemma_injector_fields_push(v, class_name@, entry);
        }
        self.injector_fields.push(entry);
    }
}


/// The name, kind and default of a recorded injector field.
pub open spec fn def_view(d: InjectorFieldDef) -> (Seq<char>, ValueType, bool) {
    (d.name@, d.value_type, d.has_default)
}

/// The recorded injector fields of the class named `name`, by their views.
pub open spec fn injector_views(v: Seq<(String, Vec<InjectorFieldDef>)>, name: Seq<char>) -> Seq<
    (Seq<char>, ValueType, bool),
> {
    injector_fields_of(v, name).map_values(|d: InjectorFieldDef| def_view(d))
}

/// Whether annotation `a` carries metadata named `defaultValue`.
pub open spec fn has_default_metadata(a: Annotation) -> bool {
    exists|k: int| 0 <= k < a.metadatas@.len() && (#[trigger] a.metadatas@[k]).name@ == "defaultValue"@
}

/// The injector fields that the `@Inject` annotations among `anns` of field
/// `fd` derive: the field's name, the kind of the annotation's type argument
/// or else of the field's type, and whether a default value is given.
pub open spec fn inject_defs_of_field(fd: FieldDeclaration, anns: Seq<Annotation>) -> Seq<
    (Seq<char>, ValueType, bool),
>
    decreases anns.len(),
{
    if anns.len() == 0 {
        Seq::empty()
    } else {
        let a = anns.last();
        inject_defs_of_field(fd, anns.drop_last()) + if a.name@ == "Inject"@ {
            seq![
                (
                    fd.name@,
                    match a.generic_type {
                        Some(t) => written_kind(t),
                        None => written_kind(fd.field_type),
                    },
                    has_default_metadata(a),
                ),
            ]
        } else {
            Seq::empty()
        }
    }
}

/// The injector fields that the `@Inject` annotations of the fields among
/// `members` derive, in order.
pub open spec fn inject_defs(members: Seq<ClassMember>) -> Seq<(Seq<char>, ValueType, bool)>
    decreases members.len(),
{
    if members.len() == 0 {
        Seq::empty()
    } else {
        inject_defs(members.drop_last()) + match members.last() {
            ClassMember::Field(fd) => inject_defs_of_field(fd, fd.annotations@),
            _ => Seq::empty(),
        }
    }
}

/// The kind of value that an injector field of type `t` holds from scope
/// `sid`: a primitive by its keyword, `None` for an interface or an enum,
/// which cannot be injected, and an object for anything else.
pub open spec fn injector_kind(scopes: Seq<Scope>, sid: int, t: TypeRef) -> Option<ValueType> {
    match t {
        TypeRef::Simple { name, .. } => match keyword_type(name@) {
            Some(TypeInfo::Int) => Some(ValueType::Int),
            Some(TypeInfo::Float) => Some(ValueType::Float),
            Some(TypeInfo::Bool) => Some(ValueType::Bool),
            Some(TypeInfo::String) => Some(ValueType::String),
            _ => match simple_type(scopes, sid, name@) {
                Some(TypeInfo::Interface(_)) => None,
                Some(TypeInfo::Enum(_)) => None,
                _ => Some(ValueType::Object),
            },
        },
        _ => Some(ValueType::Object),
    }
}

/// An injector field whose type is written as a primitive keyword holds that
/// keyword's own kind (`int`, `float`, `bool`, `string`).
pub proof fn lemma_injector_kind_of_keyword(scopes: Seq<Scope>, sid: int, t: TypeRef)
    ensures
        t matches TypeRef::Simple { name, .. } ==> {
            &&& name@ == seq!['i', 'n', 't'] ==> injector_kind(scopes, sid, t) == Some(ValueType::Int)
            &&& name@ == seq!['f', 'l', 'o', 'a', 't'] ==> injector_kind(scopes, sid, t) == Some(ValueType::Float)
            &&& name@ == seq!['b', 'o', 'o', 'l'] ==> injector_kind(scopes, sid, t) == Some(ValueType::Bool)
            &&& name@ == seq!['s', 't', 'r', 'i', 'n', 'g'] ==> injector_kind(scopes, sid, t) == Some(ValueType::String)
        },
{
}

/// The injector fields that the fields of an `injector { }` block give,
/// those that may be injected, each with a default.
pub open spec fn block_defs(scopes: Seq<Scope>, sid: int, fields: Seq<InjectorField>) -> Seq<
    (Seq<char>, ValueType, bool),
>
    decreases fields.len(),
{
    if fields.len() == 0 {
        Seq::empty()
    } else {
        let f = fields.last();
        block_defs(scopes, sid, fields.drop_last()) + match injector_kind(scopes, sid, f.field_type) {
            Some(vt) => seq![(f.name@, vt, true)],
            None => Seq::empty(),
        }
    }
}

/// The number of fields of an `injector { }` block that may not be injected.
pub open spec fn refused_injections(scopes: Seq<Scope>, sid: int, fields: Seq<InjectorField>) -> nat
    decreases fields.len(),
{
    if fields.len() == 0 {
        0
    } else {
        refused_injections(scopes, sid, fields.drop_last()) + if injector_kind(
            scopes,
            sid,
            fields.last().field_type,
        ) is None {
            1nat
        } else {
            0nat
        }
    }
}

impl Compiler {
    /// Whether annotation `a` carries metadata named `defaultValue`.
    fn annotation_has_default(a: &Annotation) -> (r: bool)
        ensures
            r == has_default_metadata(*a),
    {
        let lit = ['d', 'e', 'f', 'a', 'u', 'l', 't', 'V', 'a', 'l', 'u', 'e'];
        proof {
            reveal_strlit("defaultValue");
            assert(lit@ =~= "defaultValue"@);
        }
        let mut k: usize = 0;
        while k < a.metadatas.len()
            invariant
                k <= a.metadatas@.len(),
                lit@ == "defaultValue"@,
                forall|j: int| 0 <= j < k ==> (#[trigger] a.metadatas@[j]).name@ != "defaultValue"@,
            decreases a.metadatas.len() - k,
        {
            if text_is(a.metadatas[k].name.as_str(), &lit) {
                return true;
            }
            k = k + 1;
        }
        false
    }

    /// Records, for the class named `class_name`, the injector fields that
    /// the `@Inject` annotations of the fields among `members` derive.
    fn collect_inject_annotations(&mut self, class_name: &String, members: &Vec<ClassMember>)
        ensures
            injector_views(final(self).injector_fields@, class_name@) == injector_views(
                old(self).injector_fields@,
                class_name@,
            ) + inject_defs(members@),
            forall|other: Seq<char>|
                other != class_name@ ==> #[trigger] injector_fields_of(final(self).injector_fields@, other)
                    == injector_fields_of(old(self).injector_fields@, other),
            final(self).symbol_table == old(self).symbol_table,
            final(self).diagnostics == old(self).diagnostics,
            final(self).current_namespace_id == old(self).current_namespace_id,
            final(self).class_annotations@ == old(self).class_annotations@,
            final(self).tasks@ == old(self).tasks@,
            final(self).class_injector_constructor_count@ == old(self).class_injector_constructor_count@,
            final(self).injector_constructor_ids@ == old(self).injector_constructor_ids@,
            final(self).injector_constructor_impl_id@ == old(self).injector_constructor_impl_id@,
            final(self).current_generic_params@ == old(self).current_generic_params@,
    {
        let ghost start = *self;
        let inject = ['I', 'n', 'j', 'e', 'c', 't'];
        proof {
            reveal_strlit("Inject");
            assert(inject@ =~= "Inject"@);
        }
        let mut i: usize = 0;
        while i < members.len()
            invariant
                i <= members@.len(),
                inject@ == "Inject"@,
                injector_views(self.injector_fields@, class_name@) == injector_views(
                    start.injector_fields@,
                    class_name@,
                ) + inject_defs(members@.take(i as int)),
                forall|other: Seq<char>|
                    other != class_name@ ==> #[trigger] injector_fields_of(self.injector_fields@, other)
                        == injector_fields_of(start.injector_fields@, other),
                self.symbol_table == start.symbol_table,
                self.diagnostics == start.diagnostics,
                self.current_namespace_id == start.current_namespace_id,
                self.class_annotations@ == start.class_annotations@,
                self.tasks@ == start.tasks@,
                self.class_injector_constructor_count@ == start.class_injector_constructor_count@,
                self.injector_constructor_ids@ == start.injector_constructor_ids@,
                self.injector_constructor_impl_id@ == start.injector_constructor_impl_id@,
                self.current_generic_params@ == start.current_generic_params@,
            decreases members.len() - i,
        {
            proof {
                assert(members@.take(i + 1).drop_last() =~= members@.take(i as int));
            }
            if let ClassMember::Field(fd) = &members[i] {
                let ghost before = injector_views(self.injector_fields@, class_name@);
                let mut a: usize = 0;
                while a < fd.annotations.len()
                    invariant
                        a <= fd.annotations@.len(),
                        inject@ == "Inject"@,
                        injector_views(self.injector_fields@, class_name@) == before + inject_defs_of_field(
                            *fd,
                            fd.annotations@.take(a as int),
                        ),
                        forall|other: Seq<char>|
                            other != class_name@ ==> #[trigger] injector_fields_of(
                                self.injector_fields@,
                                other,
                            ) == injector_fields_of(start.injector_fields@, other),
                        self.symbol_table == start.symbol_table,
                        self.diagnostics == start.diagnostics,
                        self.current_namespace_id == start.current_namespace_id,
                        self.class_annotations@ == start.class_annotations@,
                        self.tasks@ == start.tasks@,
                        self.class_injector_constructor_count@ == start.class_injector_constructor_count@,
                        self.injector_constructor_ids@ == start.injector_constructor_ids@,
                        self.injector_constructor_impl_id@ == start.injector_constructor_impl_id@,
                        self.current_generic_params@ == start.current_generic_params@,
                    decreases fd.annotations.len() - a,
                {
                    let ann = &fd.annotations[a];
                    proof {
                        assert(fd.annotations@.take(a + 1).drop_last() =~= fd.annotations@.take(a as int));
                    }
                    if text_is(ann.name.as_str(), &inject) {
                        let vt = match &ann.generic_type {
                            Some(tr) => type_ref_to_value_type(tr),
                            None => type_ref_to_value_type(&fd.field_type),
                        };
                        let has_default = Self::annotation_has_default(ann);
                        let ghost views_before = injector_fields_of(self.injector_fields@, class_name@);
                        let def = InjectorFieldDef { name: fd.name.clone(), value_type: vt, has_default };
                        self.add_injector_field(class_name, def);
                        proof {
                            assert(injector_fields_of(self.injector_fields@, class_name@).map_values(
                                |d: InjectorFieldDef| def_view(d),
                            ) =~= views_before.map_values(|d: InjectorFieldDef| def_view(d)).push(
                                def_view(def),
                            ));
                        }
                    }
                    a = a + 1;
                }
                proof {
                    assert(fd.annotations@.take(fd.annotations@.len() as int) =~= fd.annotations@);
                }
            }
            i = i + 1;
        }
        proof {
            assert(members@.take(members@.len() as int) =~= members@);
        }
    }
}


impl Compiler {
    /// Records, for the class named `class_name`, the fields of its
    /// `injector { }` block, each with a default; a field whose type, seen
    /// from `class_scope`, is an interface or an enum is reported and left out.
    fn collect_injector_block(&mut self, class_name: &String, class_scope: ScopeId, fields: &Vec<InjectorField>)
        requires
            old(self).wf(),
            old(self).symbol_table.has_scope(class_scope),
        ensures
            final(self).wf(),
            final(self).reports_after(*old(self)),
            final(self).diagnostics.items@.len() == old(self).diagnostics.items@.len()
                + refused_injections(old(self).symbol_table.scopes@, class_scope.0 as int, fields@),
            injector_views(final(self).injector_fields@, class_name@) == injector_views(
                old(self).injector_fields@,
                class_name@,
            ) + block_defs(old(self).symbol_table.scopes@, class_scope.0 as int, fields@),
            forall|other: Seq<char>|
                other != class_name@ ==> #[trigger] injector_fields_of(final(self).injector_fields@, other)
                    == injector_fields_of(old(self).injector_fields@, other),
            final(self).symbol_table == old(self).symbol_table,
            final(self).current_namespace_id == old(self).current_namespace_id,
            final(self).class_annotations@ == old(self).class_annotations@,
            final(self).tasks@ == old(self).tasks@,
            final(self).class_injector_constructor_count@ == old(self).class_injector_constructor_count@,
            final(self).injector_constructor_ids@ == old(self).injector_constructor_ids@,
            final(self).injector_constructor_impl_id@ == old(self).injector_constructor_impl_id@,
            final(self).current_generic_params@ == old(self).current_generic_params@,
    {
        let ghost start = *self;
        let mut k: usize = 0;
        while k < fields.len()
            invariant
                self.wf(),
                self.reports_after(start),
                k <= fields@.len(),
                self.symbol_table.has_scope(class_scope),
                self.diagnostics.items@.len() == start.diagnostics.items@.len() + refused_injections(
                    start.symbol_table.scopes@,
                    class_scope.0 as int,
                    fields@.take(k as int),
                ),
                injector_views(self.injector_fields@, class_name@) == injector_views(
                    start.injector_fields@,
                    class_name@,
                ) + block_defs(start.symbol_table.scopes@, class_scope.0 as int, fields@.take(k as int)),
                forall|other: Seq<char>|
                    other != class_name@ ==> #[trigger] injector_fields_of(self.injector_fields@, other)
                        == injector_fields_of(start.injector_fields@, other),
                self.symbol_table == start.symbol_table,
                self.current_namespace_id == start.current_namespace_id,
                self.class_annotations@ == start.class_annotations@,
                self.tasks@ == start.tasks@,
                self.class_injector_constructor_count@ == start.class_injector_constructor_count@,
                self.injector_constructor_ids@ == start.injector_constructor_ids@,
                self.injector_constructor_impl_id@ == start.injector_constructor_impl_id@,
                self.current_generic_params@ == start.current_generic_params@,
            decreases fields.len() - k,
        {
            let f = &fields[k];
            proof {
                assert(fields@.take(k + 1).drop_last() =~= fields@.take(k as int));
            }
            let kind: Option<ValueType> = match &f.field_type {
                TypeRef::Simple { name, .. } => match TypeInfo::from_keyword(name.as_str()) {
                    Some(TypeInfo::Int) => Some(ValueType::Int),
                    Some(TypeInfo::Float) => Some(ValueType::Float),
                    Some(TypeInfo::Bool) => Some(ValueType::Bool),
                    Some(TypeInfo::String) => Some(ValueType::String),
                    _ => {
                        proof {
                            lemma_resolve_entry_valid(&self.symbol_table, class_scope.0 as int, name@);
                        }
                        match self.symbol_table.resolve_type(class_scope, &f.field_type) {
                            Some(TypeInfo::Interface(iface_id)) => {
                                let msg = String::from_str("类型 `").concat(
                                    self.symbol_table.interfaces.get(iface_id.0).name.as_str(),
                                ).concat("` 不可注入（仅具体类支持注入器）");
                                self.report(f.span, msg);
                                None
                            },
                            Some(TypeInfo::Enum(enum_id)) => {
                                let msg = String::from_str("类型 `").concat(
                                    self.symbol_table.enums.get(enum_id.0).name.as_str(),
                                ).concat("` 不可注入（仅具体类支持注入器）");
                                self.report(f.span, msg);
                                None
                            },
                            _ => Some(ValueType::Object),
                        }
                    },
                },
                _ => Some(ValueType::Object),
            };
            assert(kind == injector_kind(start.symbol_table.scopes@, class_scope.0 as int, f.field_type));
            if let Some(vt) = kind {
                let ghost views_before = injector_fields_of(self.injector_fields@, class_name@);
                let def = InjectorFieldDef { name: f.name.clone(), value_type: vt, has_default: true };
                self.add_injector_field(class_name, def);
                proof {
                    assert(injector_fields_of(self.injector_fields@, class_name@).map_values(
                        |d: InjectorFieldDef| def_view(d),
                    ) =~= views_before.map_values(|d: InjectorFieldDef| def_view(d)).push(def_view(def)));
                }
            }
            k = k + 1;
        }
        proof {
            assert(fields@.take(fields@.len() as int) =~= fields@);
        }
    }
}


/// The number of fields among `members`.
pub open spec fn field_members(members: Seq<ClassMember>) -> nat
    decreases members.len(),
{
    if members.len() == 0 {
        0
    } else {
        field_members(members.drop_last()) + if members.last() is Field {
            1nat
        } else {
            0nat
        }
    }
}

/// The field declarations among `members`, in order.
pub open spec fn field_decls(members: Seq<ClassMember>) -> Seq<FieldDeclaration>
    decreases members.len(),
{
    if members.len() == 0 {
        Seq::empty()
    } else {
        let rest = field_decls(members.drop_last());
        match members.last() {
            ClassMember::Field(f) => rest.push(f),
            _ => rest,
        }
    }
}

/// Whether the fields of `fields` from number `f0` on are those `decls`
/// declare in class `c`, one by one: with their names, in that class, not static.
pub open spec fn fields_named_after(fields: Seq<FieldInfo>, f0: int, decls: Seq<FieldDeclaration>, c: ClassId) -> bool {
    forall|k: int|
        0 <= k < decls.len() ==> {
            &&& fields[f0 + k].name@ == (#[trigger] decls[k]).name@
            &&& fields[f0 + k].class_id == c
            &&& !fields[f0 + k].is_static
        }
}

proof fn lemma_field_decls_len(members: Seq<ClassMember>)
    ensures
        field_decls(members).len() == field_members(members),
    decreases members.len(),
{
    if members.len() > 0 {
        lemma_field_decls_len(members.drop_last());
    }
}

/// The number of methods among `members`.
pub open spec fn method_members(members: Seq<ClassMember>) -> nat
    decreases members.len(),
{
    if members.len() == 0 {
        0
    } else {
        method_members(members.drop_last()) + if members.last() is Method {
            1nat
        } else {
            0nat
        }
    }
}

/// The method declarations among `members`, in order.
pub open spec fn method_decls(members: Seq<ClassMember>) -> Seq<MethodDeclaration>
    decreases members.len(),
{
    if members.len() == 0 {
        Seq::empty()
    } else {
        let rest = method_decls(members.drop_last());
        match members.last() {
            ClassMember::Method(m) => rest.push(m),
            _ => rest,
        }
    }
}

/// Whether the methods of `methods` from number `m0` on are those `decls`
/// declare in class `c`, one by one: with their names, in that class, static
/// exactly when declared so, with one parameter per declared one.
pub open spec fn methods_named_after(methods: Seq<MethodInfo>, m0: int, decls: Seq<MethodDeclaration>, c: ClassId) -> bool {
    forall|k: int|
        0 <= k < decls.len() ==> {
            &&& methods[m0 + k].name@ == (#[trigger] decls[k]).name@
            &&& methods[m0 + k].class_id == Some(c)
            &&& methods[m0 + k].is_static == decls[k].modifiers@.contains(Modifier::Static)
            &&& methods[m0 + k].parameters@.len() == decls[k].parameters@.len()
        }
}

proof fn lemma_method_decls_len(members: Seq<ClassMember>)
    ensures
        method_decls(members).len() == method_members(members),
    decreases members.len(),
{
    if members.len() > 0 {
        lemma_method_decls_len(members.drop_last());
    }
}

/// The constructor declarations among `members`, in order.
pub open spec fn constructor_decls(members: Seq<ClassMember>) -> Seq<ConstructorDeclaration>
    decreases members.len(),
{
    if members.len() == 0 {
        Seq::empty()
    } else {
        let rest = constructor_decls(members.drop_last());
        match members.last() {
            ClassMember::Constructor(k) => rest.push(k),
            _ => rest,
        }
    }
}

/// Whether the constructors of `ctors` from number `k0` on are those `decls`
/// declare in class `c`, one by one, each with one parameter per declared one.
pub open spec fn constructors_declared_after(
    ctors: Seq<ConstructorInfo>,
    k0: int,
    decls: Seq<ConstructorDeclaration>,
    c: ClassId,
) -> bool {
    forall|k: int|
        0 <= k < decls.len() ==> {
            &&& ctors[k0 + k].class_id == c
            &&& ctors[k0 + k].parameters@.len() == (#[trigger] decls[k]).parameters@.len()
        }
}

proof fn lemma_constructor_decls_len(members: Seq<ClassMember>)
    ensures
        constructor_decls(members).len() == constructor_members(members),
    decreases members.len(),
{
    if members.len() > 0 {
        lemma_constructor_decls_len(members.drop_last());
    }
}

/// The number of constructors among `members`.
pub open spec fn constructor_members(members: Seq<ClassMember>) -> nat
    decreases members.len(),
{
    if members.len() == 0 {
        0
    } else {
        constructor_members(members.drop_last()) + if members.last() is Constructor {
            1nat
        } else {
            0nat
        }
    }
}

/// Whether member `m` leaves a task for code generation: a field with an
/// initializer that is not native, or a method or constructor with a body.
pub open spec fn leaves_task(m: ClassMember) -> bool {
    match m {
        ClassMember::Field(f) => f.initializer is Some && !f.modifiers@.contains(Modifier::Native),
        ClassMember::Method(md) => md.body is Some,
        ClassMember::Constructor(c) => c.body is Some,
    }
}

/// The number of tasks that `members` leave.
pub open spec fn member_tasks(members: Seq<ClassMember>) -> nat
    decreases members.len(),
{
    if members.len() == 0 {
        0
    } else {
        member_tasks(members.drop_last()) + if leaves_task(members.last()) {
            1nat
        } else {
            0nat
        }
    }
}

/// The ids of the fields numbered `first` to `first + n`.
pub open spec fn fresh_field_ids(first: int, n: int) -> Seq<FieldId> {
    Seq::new(n as nat, |i: int| FieldId((first + i) as usize))
}

/// The ids of the methods numbered `first` to `first + n`.
pub open spec fn fresh_method_ids(first: int, n: int) -> Seq<MethodId> {
    Seq::new(n as nat, |i: int| MethodId((first + i) as usize))
}

/// The ids of the constructors numbered `first` to `first + n`.
pub open spec fn fresh_constructor_ids(first: int, n: int) -> Seq<ConstructorId> {
    Seq::new(n as nat, |i: int| ConstructorId((first + i) as usize))
}

/// Field `first + k` has the offset that follows, in its kind, the `base`
/// inherited fields of that kind and the fields numbered from `first` before
/// it.
pub open spec fn offset_follows(
    fields: Seq<FieldInfo>,
    first: int,
    k: int,
    base: spec_fn(ValueType) -> nat,
) -> bool {
    let f = fields[first + k];
    let vt = count_kind(f.field_type);
    f.offset == Some(capped(base(vt) as int + range_kind_count(fields, first, first + k, vt) as int) as usize)
}

/// Counting over fields that exist does not see fields added after them.
proof fn lemma_range_kind_count_prefix(fields: Seq<FieldInfo>, more: Seq<FieldInfo>, lo: int, hi: int, vt: ValueType)
    requires
        0 <= lo,
        hi <= fields.len(),
        more.len() >= fields.len(),
        more.take(fields.len() as int) == fields,
    ensures
        range_kind_count(more, lo, hi, vt) == range_kind_count(fields, lo, hi, vt),
    decreases hi - lo,
{
    if lo < hi {
        lemma_range_kind_count_prefix(fields, more, lo, hi - 1, vt);
        assert(more.take(fields.len() as int)[hi - 1] == more[hi - 1]);
    }
}


impl Compiler {
    /// Pass 3 for a class: declares its fields, methods and constructors and
    /// records its injector fields, from its `@Inject` fields and then its
    /// `injector { }` block. The fields of each kind take consecutive offsets
    /// after the fields of that kind that the class inherits. A class whose
    /// declaration is frozen is reported and left as it is, and a name that
    /// resolves to no class is passed over.
    fn pass3_declare_class_members(&mut self, scope: ScopeId, decl: &ClassDeclaration)
        requires
            old(self).wf(),
            old(self).symbol_table.has_scope(scope),
        ensures
            class_members_declared(*old(self), *final(self), scope, *decl),
    {
        let ghost start = *self;
        proof {
            lemma_resolve_entry_valid(&self.symbol_table, scope.0 as int, decl.name@);
        }
        let class_id = match self.symbol_table.lookup_class(scope, decl.name.as_str()) {
            Some(id) => id,
            None => {
                return;
            },
        };
        if let Err(msg) = self.symbol_table.classes.get(class_id.0).check_declaration_not_frozen() {
            self.report(decl.span, msg);
            return;
        }
        let class_scope = self.symbol_table.classes.get(class_id.0).scope_id;
        proof {
            assert(self.symbol_table.has_scope(class_scope));
        }
        self.current_generic_params = copy_strings(&decl.generic_params);
        let ghost gp = self.current_generic_params@;
        let ghost oc = start.symbol_table.classes@[class_id.0 as int];
        let ghost f0 = start.symbol_table.fields@.len() as int;
        let ghost m0 = start.symbol_table.methods@.len() as int;
        let ghost k0 = start.symbol_table.constructors@.len() as int;
        let ghost t0 = start.tasks@.len() as int;
        let ghost base = inherited_counts(
            start.symbol_table.classes@,
            start.symbol_table.fields@,
            oc.super_class,
            start.symbol_table.classes@.len() as nat,
        );
        let mut counters = FieldOffsetCounters::new();
        let super_class = self.symbol_table.classes.get(class_id.0).super_class;
        let steps = self.symbol_table.classes.len();
        self.count_inherited_fields(super_class, steps, &mut counters);
        proof {
            assert forall|vt: ValueType| #[trigger] counters.counter(vt) == capped(
                base(vt) as int + range_kind_count(self.symbol_table.fields@, f0, f0, vt),
            ) by {}
            assert(self.symbol_table.fields@.take(f0) =~= start.symbol_table.fields@);
            assert(self.tasks@.take(t0) =~= start.tasks@);
            assert(decl.members@.take(0) =~= Seq::<ClassMember>::empty());
        }
        let mut i: usize = 0;
        while i < decl.members.len()
            invariant
                self.wf(),
                self.reports_after(start),
                i <= decl.members@.len(),
                f0 == start.symbol_table.fields@.len(),
                m0 == start.symbol_table.methods@.len(),
                k0 == start.symbol_table.constructors@.len(),
                t0 == start.tasks@.len(),
                oc == start.symbol_table.classes@[class_id.0 as int],
                class_id.0 < self.symbol_table.classes@.len(),
                self.symbol_table.classes@.len() == start.symbol_table.classes@.len(),
                class_scope == oc.scope_id,
                names_kept(start.symbol_table, self.symbol_table),
                self.symbol_table.has_scope(class_scope),
                self.symbol_table.scopes@.len() >= start.symbol_table.scopes@.len(),
                self.symbol_table.classes@[class_id.0 as int] == (ClassInfo {
                    fields: self.symbol_table.classes@[class_id.0 as int].fields,
                    methods: self.symbol_table.classes@[class_id.0 as int].methods,
                    constructors: self.symbol_table.classes@[class_id.0 as int].constructors,
                    ..oc
                }),
                forall|j: int|
                    0 <= j < start.symbol_table.classes@.len() && j != class_id.0
                        ==> self.symbol_table.classes@[j] == start.symbol_table.classes@[j],
                self.symbol_table.classes@[class_id.0 as int].fields@ == oc.fields@ + fresh_field_ids(
                    f0,
                    field_members(decl.members@.take(i as int)) as int,
                ),
                self.symbol_table.classes@[class_id.0 as int].methods@ == oc.methods@ + fresh_method_ids(
                    m0,
                    method_members(decl.members@.take(i as int)) as int,
                ),
                self.symbol_table.classes@[class_id.0 as int].constructors@ == oc.constructors@
                    + fresh_constructor_ids(k0, constructor_members(decl.members@.take(i as int)) as int),
                self.symbol_table.fields@.len() == f0 + field_members(decl.members@.take(i as int)),
                self.symbol_table.methods@.len() == m0 + method_members(decl.members@.take(i as int)),
                self.symbol_table.constructors@.len() == k0 + constructor_members(
                    decl.members@.take(i as int),
                ),
                self.symbol_table.fields@.take(f0) == start.symbol_table.fields@,
                fields_named_after(self.symbol_table.fields@, f0, field_decls(decl.members@.take(i as int)), class_id),
                methods_named_after(self.symbol_table.methods@, m0, method_decls(decl.members@.take(i as int)), class_id),
                constructors_declared_after(
                    self.symbol_table.constructors@,
                    k0,
                    constructor_decls(decl.members@.take(i as int)),
                    class_id,
                ),
                forall|k: int|
                    0 <= k < field_members(decl.members@.take(i as int)) ==> #[trigger] offset_follows(
                        self.symbol_table.fields@,
                        f0,
                        k,
                        base,
                    ),
                forall|vt: ValueType|
                    #[trigger] counters.counter(vt) == capped(
                        base(vt) as int + range_kind_count(
                            self.symbol_table.fields@,
                            f0,
                            self.symbol_table.fields@.len() as int,
                            vt,
                        ),
                    ),
                self.tasks@.len() == t0 + member_tasks(decl.members@.take(i as int)),
                self.tasks@.take(t0) == start.tasks@,
                self.current_namespace_id == start.current_namespace_id,
                self.class_annotations@ == start.class_annotations@,
                self.injector_fields@ == start.injector_fields@,
                self.current_generic_params@ == gp,
            decreases decl.members.len() - i,
        {
            let ghost before = *self;
            let ghost cbefore = counters;
            proof {
                assert(decl.members@.take(i + 1).drop_last() =~= decl.members@.take(i as int));
                assert(decl.members@.take(i + 1).last() == decl.members@[i as int]);
            }
            match &decl.members[i] {
                ClassMember::Field(field_decl) => {
                    self.pass3_declare_field(class_id, class_scope, field_decl, &mut counters);
                    proof {
                        let nfields = self.symbol_table.fields@;
                        let ofields = before.symbol_table.fields@;
                        let n = ofields.len() as int;
                        assert(nfields.take(n) =~= ofields);
                        lemma_field_decls_len(decl.members@.take(i as int));
                        let od = field_decls(decl.members@.take(i as int));
                        let nd = field_decls(decl.members@.take(i + 1));
                        assert(nd == od.push(*field_decl));
                        assert forall|k: int| 0 <= k < nd.len() implies {
                            &&& nfields[f0 + k].name@ == (#[trigger] nd[k]).name@
                            &&& nfields[f0 + k].class_id == class_id
                            &&& !nfields[f0 + k].is_static
                        } by {
                            if k < od.len() {
                                assert(nd[k] == od[k]);
                                assert(nfields.take(n)[f0 + k] == nfields[f0 + k]);
                            } else {
                                assert(f0 + k == n);
                            }
                        }
                        assert forall|k: int|
                            0 <= k < field_members(decl.members@.take(i + 1)) implies #[trigger] offset_follows(
                            nfields,
                            f0,
                            k,
                            base,
                        ) by {
                            let vt = count_kind(nfields[f0 + k].field_type);
                            lemma_range_kind_count_prefix(ofields, nfields, f0, f0 + k, vt);
                            if f0 + k < n {
                                assert(nfields.take(n)[f0 + k] == nfields[f0 + k]);
                                assert(offset_follows(ofields, f0, k, base));
                            }
                        }
                        assert forall|vt: ValueType| #[trigger] counters.counter(vt) == capped(
                            base(vt) as int + range_kind_count(nfields, f0, nfields.len() as int, vt),
                        ) by {
                            lemma_range_kind_count_prefix(ofields, nfields, f0, n, vt);
                            lemma_capped_add(base(vt) as int + range_kind_count(ofields, f0, n, vt), 1);
                        }
                        assert(self.symbol_table.fields@.take(f0) =~= start.symbol_table.fields@) by {
                            assert forall|k: int| 0 <= k < f0 implies nfields[k] == start.symbol_table.fields@[k] by {
                                assert(nfields.take(n)[k] == nfields[k]);
                                assert(ofields.take(f0)[k] == ofields[k]);
                            }
                        }
                        assert(self.tasks@.take(t0) =~= start.tasks@) by {
                            assert forall|k: int| 0 <= k < t0 implies self.tasks@[k] == start.tasks@[k] by {
                                assert(before.tasks@.take(t0)[k] == before.tasks@[k]);
                            }
                        }
                        assert(self.symbol_table.classes@[class_id.0 as int].fields@ =~= oc.fields@
                            + fresh_field_ids(f0, field_members(decl.members@.take(i + 1)) as int));
                    }
                },
                ClassMember::Method(method_decl) => {
                    self.pass3_declare_method(class_id, class_scope, method_decl);
                    proof {
                        let nm = self.symbol_table.methods@;
                        let om = before.symbol_table.methods@;
                        lemma_method_decls_len(decl.members@.take(i as int));
                        let od = method_decls(decl.members@.take(i as int));
                        let nd = method_decls(decl.members@.take(i + 1));
                        assert(nd == od.push(*method_decl));
                        assert forall|k: int| 0 <= k < nd.len() implies {
                            &&& nm[m0 + k].name@ == (#[trigger] nd[k]).name@
                            &&& nm[m0 + k].class_id == Some(class_id)
                            &&& nm[m0 + k].is_static == nd[k].modifiers@.contains(Modifier::Static)
                            &&& nm[m0 + k].parameters@.len() == nd[k].parameters@.len()
                        } by {
                            if k < od.len() {
                                assert(nd[k] == od[k]);
                                assert(nm.drop_last()[m0 + k] == nm[m0 + k]);
                            } else {
                                assert(m0 + k == om.len());
                            }
                        }
                        assert(self.tasks@.take(t0) =~= start.tasks@) by {
                            assert forall|k: int| 0 <= k < t0 implies self.tasks@[k] == start.tasks@[k] by {
                                assert(before.tasks@.take(t0)[k] == before.tasks@[k]);
                            }
                        }
                        assert(self.symbol_table.classes@[class_id.0 as int].methods@ =~= oc.methods@
                            + fresh_method_ids(m0, method_members(decl.members@.take(i + 1)) as int));
                    }
                },
                ClassMember::Constructor(ctor_decl) => {
                    self.pass3_declare_constructor(class_id, class_scope, ctor_decl);
                    proof {
                        let nk = self.symbol_table.constructors@;
                        let ok = before.symbol_table.constructors@;
                        lemma_constructor_decls_len(decl.members@.take(i as int));
                        let od = constructor_decls(decl.members@.take(i as int));
                        let nd = constructor_decls(decl.members@.take(i + 1));
                        assert(nd == od.push(*ctor_decl));
                        assert forall|k: int| 0 <= k < nd.len() implies {
                            &&& nk[k0 + k].class_id == class_id
                            &&& nk[k0 + k].parameters@.len() == (#[trigger] nd[k]).parameters@.len()
                        } by {
                            if k < od.len() {
                                assert(nd[k] == od[k]);
                                assert(nk.drop_last()[k0 + k] == nk[k0 + k]);
                            } else {
                                assert(k0 + k == ok.len());
                            }
                        }
                        assert(self.tasks@.take(t0) =~= start.tasks@) by {
                            assert forall|k: int| 0 <= k < t0 implies self.tasks@[k] == start.tasks@[k] by {
                                assert(before.tasks@.take(t0)[k] == before.tasks@[k]);
                            }
                        }
                        assert(self.symbol_table.classes@[class_id.0 as int].constructors@ =~= oc.constructors@
                            + fresh_constructor_ids(k0, constructor_members(decl.members@.take(i + 1)) as int));
                    }
                },
            }
            i = i + 1;
        }
        proof {
            assert(decl.members@.take(decl.members@.len() as int) =~= decl.members@);
        }
        self.collect_inject_annotations(&decl.name, &decl.members);
        if let Some(injector_decl) = &decl.injector {
            self.collect_injector_block(&decl.name, class_scope, &injector_decl.fields);
        }
        self.current_generic_params = Vec::new();
    }
}


impl Compiler {
    /// Pass 3 for an interface: declares each of its method signatures, with
    /// its parameters, as a method of the interface, reporting a return or
    /// parameter type that names no type. A name that resolves to no
    /// interface is passed over.
    fn pass3_declare_interface_members(&mut self, scope: ScopeId, decl: &InterfaceDeclaration)
        requires
            old(self).wf(),
            old(self).symbol_table.has_scope(scope),
        ensures
            interface_members_declared(*old(self), *final(self), scope, *decl),
    {
        let ghost start = *self;
        proof {
            lemma_resolve_entry_valid(&self.symbol_table, scope.0 as int, decl.name@);
        }
        let iface_id = match self.symbol_table.lookup_interface(scope, decl.name.as_str()) {
            Some(id) => id,
            None => {
                return;
            },
        };
        let iface_scope = self.symbol_table.interfaces.get(iface_id.0).scope_id;
        let ghost m0 = start.symbol_table.methods@.len() as int;
        let ghost oi = start.symbol_table.interfaces@[iface_id.0 as int];
        let mut k: usize = 0;
        while k < decl.methods.len()
            invariant
                self.wf(),
                self.reports_after(start),
                k <= decl.methods@.len(),
                m0 == start.symbol_table.methods@.len(),
                oi == start.symbol_table.interfaces@[iface_id.0 as int],
                iface_id.0 < self.symbol_table.interfaces@.len(),
                self.symbol_table.interfaces@.len() == start.symbol_table.interfaces@.len(),
                self.symbol_table.interfaces@[iface_id.0 as int].scope_id == iface_scope,
                names_kept(start.symbol_table, self.symbol_table),
                self.symbol_table.has_scope(iface_scope),
                self.symbol_table.scopes@.len() >= start.symbol_table.scopes@.len(),
                self.symbol_table.interfaces@[iface_id.0 as int].methods@ == oi.methods@ + fresh_method_ids(
                    m0,
                    k as int,
                ),
                self.symbol_table.methods@.len() == m0 + k,
                forall|j: int|
                    0 <= j < k ==> {
                        let m = #[trigger] self.symbol_table.methods@[m0 + j];
                        &&& m.name@ == decl.methods@[j].name@
                        &&& m.interface_id == Some(iface_id)
                        &&& m.class_id is None
                        &&& !m.is_static
                        &&& m.parameters@.len() == decl.methods@[j].parameters@.len()
                    },
                self.symbol_table.classes@ == start.symbol_table.classes@,
                self.symbol_table.fields@ == start.symbol_table.fields@,
                self.tasks@ == start.tasks@,
                self.current_namespace_id == start.current_namespace_id,
                self.class_annotations@ == start.class_annotations@,
                self.injector_fields@ == start.injector_fields@,
                self.class_injector_constructor_count@ == start.class_injector_constructor_count@,
                self.injector_constructor_ids@ == start.injector_constructor_ids@,
                self.injector_constructor_impl_id@ == start.injector_constructor_impl_id@,
                self.current_generic_params@ == start.current_generic_params@,
            decreases decl.methods.len() - k,
        {
            let sig = &decl.methods[k];
            let ghost before = self.symbol_table;
            let return_type = self.resolve_ast_type(iface_scope, &sig.return_type);
            let params = self.declare_parameters(iface_scope, &sig.parameters);
            let _ = self.symbol_table.declare_method(
                sig.name.as_str(),
                None,
                Some(iface_id),
                return_type,
                params,
                false,
                false,
                sig.span,
            );
            proof {
                assert(self.symbol_table.interfaces@[iface_id.0 as int].methods@ =~= oi.methods@
                    + fresh_method_ids(m0, k + 1));
                assert forall|j: int| 0 <= j < k + 1 implies {
                    let m = #[trigger] self.symbol_table.methods@[m0 + j];
                    &&& m.name@ == decl.methods@[j].name@
                    &&& m.interface_id == Some(iface_id)
                    &&& m.class_id is None
                    &&& !m.is_static
                    &&& m.parameters@.len() == decl.methods@[j].parameters@.len()
                } by {
                    if j < k {
                        assert(self.symbol_table.methods@.take(m0 + k)[m0 + j]
                            == self.symbol_table.methods@[m0 + j]);
                        assert(before.methods@[m0 + j] == self.symbol_table.methods@[m0 + j]);
                    }
                }
            }
            k = k + 1;
        }
    }
}


/// `f` is `o` after the members of class `decl` (found from `scope`) are
/// declared: nothing but an error where its declaration is frozen, and
/// otherwise its fields, methods and constructors, numbered after those that
/// exist, its fields laid out after the inherited ones, a task per body and
/// initializer, and its injector fields.
pub open spec fn class_members_declared(o: Compiler, f: Compiler, scope: ScopeId, decl: ClassDeclaration) -> bool {
    &&& f.symbol_table.scopes@.len() >= o.symbol_table.scopes@.len()
    &&& f.wf()
    &&& f.reports_after(o)
    &&& match resolve(o.symbol_table.scopes@, scope.0 as int, decl.name@) {
        Some((SymbolEntry::Class(c), _)) => {
            let oc = o.symbol_table.classes@[c.0 as int];
            let nc = f.symbol_table.classes@[c.0 as int];
            let f0 = o.symbol_table.fields@.len() as int;
            let nf = field_members(decl.members@) as int;
            if oc.declaration_frozen {
                &&& f.diagnostics.items@.len() == o.diagnostics.items@.len() + 1
                &&& f.diagnostics.items@.last().message@ == declaration_frozen_message(
                    oc.name@,
                )
                &&& f.only_reports_changed(o)
            } else {
                &&& f.symbol_table.classes@.len() == o.symbol_table.classes@.len()
                &&& nc == (ClassInfo {
                    fields: nc.fields,
                    methods: nc.methods,
                    constructors: nc.constructors,
                    ..oc
                })
                &&& forall|i: int|
                    0 <= i < o.symbol_table.classes@.len() && i != c.0
                        ==> f.symbol_table.classes@[i] == o.symbol_table.classes@[i]
                &&& nc.fields@ == oc.fields@ + fresh_field_ids(f0, nf)
                &&& nc.methods@ == oc.methods@ + fresh_method_ids(
                    o.symbol_table.methods@.len() as int,
                    method_members(decl.members@) as int,
                )
                &&& nc.constructors@ == oc.constructors@ + fresh_constructor_ids(
                    o.symbol_table.constructors@.len() as int,
                    constructor_members(decl.members@) as int,
                )
                &&& f.symbol_table.fields@.len() == f0 + nf
                &&& f.symbol_table.fields@.take(f0) == o.symbol_table.fields@
                &&& fields_named_after(f.symbol_table.fields@, f0, field_decls(decl.members@), c)
                &&& methods_named_after(
                    f.symbol_table.methods@,
                    o.symbol_table.methods@.len() as int,
                    method_decls(decl.members@),
                    c,
                )
                &&& constructors_declared_after(
                    f.symbol_table.constructors@,
                    o.symbol_table.constructors@.len() as int,
                    constructor_decls(decl.members@),
                    c,
                )
                &&& forall|k: int|
                    0 <= k < nf ==> #[trigger] offset_follows(
                        f.symbol_table.fields@,
                        f0,
                        k,
                        inherited_counts(
                            o.symbol_table.classes@,
                            o.symbol_table.fields@,
                            oc.super_class,
                            o.symbol_table.classes@.len() as nat,
                        ),
                    )
                &&& f.tasks@.len() == o.tasks@.len() + member_tasks(decl.members@)
                &&& f.tasks@.take(o.tasks@.len() as int) == o.tasks@
                &&& injector_views(f.injector_fields@, decl.name@) == injector_views(
                    o.injector_fields@,
                    decl.name@,
                ) + inject_defs(decl.members@) + match decl.injector {
                    Some(inj) => block_defs(
                        f.symbol_table.scopes@,
                        oc.scope_id.0 as int,
                        inj.fields@,
                    ),
                    None => Seq::empty(),
                }
                &&& f.current_generic_params@.len() == 0
            }
        },
        _ => {
            &&& f.diagnostics.items@ == o.diagnostics.items@
            &&& f.only_reports_changed(o)
        },
    }
    &&& f.current_namespace_id == o.current_namespace_id
    &&& f.class_annotations@ == o.class_annotations@
    &&& names_kept(o.symbol_table, f.symbol_table)
}

/// `f` is `o` after the method signatures of interface `decl` (found from
/// `scope`) are declared, numbered after the methods that exist.
pub open spec fn interface_members_declared(o: Compiler, f: Compiler, scope: ScopeId, decl: InterfaceDeclaration) -> bool {
    &&& f.symbol_table.scopes@.len() >= o.symbol_table.scopes@.len()
    &&& f.wf()
    &&& f.reports_after(o)
    &&& match resolve(o.symbol_table.scopes@, scope.0 as int, decl.name@) {
        Some((SymbolEntry::Interface(iid), _)) => {
            let m0 = o.symbol_table.methods@.len() as int;
            &&& f.symbol_table.interfaces@.len() == o.symbol_table.interfaces@.len()
            &&& f.symbol_table.interfaces@[iid.0 as int].methods@
                == o.symbol_table.interfaces@[iid.0 as int].methods@ + fresh_method_ids(
                m0,
                decl.methods@.len() as int,
            )
            &&& f.symbol_table.methods@.len() == m0 + decl.methods@.len()
            &&& forall|k: int|
                0 <= k < decl.methods@.len() ==> {
                    let m = #[trigger] f.symbol_table.methods@[m0 + k];
                    &&& m.name@ == decl.methods@[k].name@
                    &&& m.interface_id == Some(iid)
                    &&& m.class_id is None
                    &&& !m.is_static
                    &&& m.parameters@.len() == decl.methods@[k].parameters@.len()
                }
        },
        _ => {
            &&& f.diagnostics.items@ == o.diagnostics.items@
            &&& f.only_reports_changed(o)
        },
    }
    &&& f.symbol_table.classes@ == o.symbol_table.classes@
    &&& f.symbol_table.fields@ == o.symbol_table.fields@
    &&& f.tasks@ == o.tasks@
    &&& f.current_namespace_id == o.current_namespace_id
    &&& f.class_annotations@ == o.class_annotations@
    &&& f.injector_fields@ == o.injector_fields@
    &&& f.class_injector_constructor_count@ == o.class_injector_constructor_count@
    &&& f.injector_constructor_ids@ == o.injector_constructor_ids@
    &&& f.injector_constructor_impl_id@ == o.injector_constructor_impl_id@
    &&& f.current_generic_params@ == o.current_generic_params@
    &&& names_kept(o.symbol_table, f.symbol_table)
}

/// The scope that the names of source `src` are looked up from in table
/// `st`: that of its namespace, followed as far as its parts are declared,
/// or the global scope.
pub open spec fn source_scope(st: SymbolTable, src: SourceFile) -> ScopeId {
    match src.namespace {
        Some(n) => ScopeId(namespace_scope_walk(st, st.global_scope.0 as int, n.parts@, 0) as usize),
        None => st.global_scope,
    }
}

/// `b` is `a` with the class that `decl` names from `scope` marked as having
/// its declaration frozen; `a` itself where the name is no class.
pub open spec fn declaration_marked_frozen(a: Compiler, b: Compiler, scope: ScopeId, decl: ClassDeclaration) -> bool {
    match resolve(a.symbol_table.scopes@, scope.0 as int, decl.name@) {
        Some((SymbolEntry::Class(c), _)) => {
            &&& b.symbol_table.classes@ == a.symbol_table.classes@.update(
                c.0 as int,
                ClassInfo { declaration_frozen: true, ..a.symbol_table.classes@[c.0 as int] },
            )
            &&& b.symbol_table.scopes@ == a.symbol_table.scopes@
            &&& b.symbol_table.namespaces@ == a.symbol_table.namespaces@
            &&& b.symbol_table.interfaces@ == a.symbol_table.interfaces@
            &&& b.symbol_table.enums@ == a.symbol_table.enums@
            &&& b.symbol_table.fields@ == a.symbol_table.fields@
            &&& b.symbol_table.methods@ == a.symbol_table.methods@
            &&& b.symbol_table.constructors@ == a.symbol_table.constructors@
            &&& b.symbol_table.parameters@ == a.symbol_table.parameters@
            &&& b.diagnostics == a.diagnostics
            &&& b.tasks@ == a.tasks@
            &&& b.class_annotations@ == a.class_annotations@
            &&& b.injector_fields@ == a.injector_fields@
            &&& b.current_namespace_id == a.current_namespace_id
        },
        _ => b == a,
    }
}

/// One top-level member in pass 3, from `s0` through `s1` to `s2`: a class
/// has its members declared, then its declaration frozen; an interface has
/// its method signatures declared; an enum is passed over.
pub open spec fn pass3_member_step(s0: Compiler, s1: Compiler, s2: Compiler, scope: ScopeId, m: TopLevelMember) -> bool {
    match m {
        TopLevelMember::Class(d) => class_members_declared(s0, s1, scope, d)
            && declaration_marked_frozen(s1, s2, scope, d),
        TopLevelMember::Interface(d) => interface_members_declared(s0, s1, scope, d) && s2 == s1,
        TopLevelMember::Enum(_) => s1 == s0 && s2 == s1,
    }
}

/// `b` is `a` after pass 3 has taken `members`, in order, from `scope`.
pub open spec fn pass3_members_run(a: Compiler, b: Compiler, scope: ScopeId, members: Seq<TopLevelMember>) -> bool
    decreases members.len(),
{
    if members.len() == 0 {
        b == a
    } else {
        exists|m0: Compiler, m1: Compiler|
            #![trigger pass3_member_step(m0, m1, b, scope, members.last())]
            pass3_members_run(a, m0, scope, members.drop_last()) && pass3_member_step(
                m0,
                m1,
                b,
                scope,
                members.last(),
            )
    }
}

/// `b` is `a` after pass 3 has taken the members of `sources`, source by
/// source, each from the scope of its namespace.
pub open spec fn pass3_sources_run(a: Compiler, b: Compiler, sources: Seq<SourceFile>) -> bool
    decreases sources.len(),
{
    if sources.len() == 0 {
        b == a
    } else {
        exists|m: Compiler|
            #![trigger pass3_members_run(m, b, source_scope(m.symbol_table, sources.last()), sources.last().members@)]
            pass3_sources_run(a, m, sources.drop_last()) && pass3_members_run(
                m,
                b,
                source_scope(m.symbol_table, sources.last()),
                sources.last().members@,
            )
    }
}

/// `b` is `a` with each field given the offset that `field_offset` states,
/// and nothing else changed.
pub open spec fn offsets_assigned(a: Compiler, b: Compiler) -> bool {
    &&& same_but_offsets(a.symbol_table.fields@, b.symbol_table.fields@)
    &&& forall|f: int|
        0 <= f < b.symbol_table.fields@.len() ==> (#[trigger] b.symbol_table.fields@[f]).offset == Some(
            field_offset(b.symbol_table, f),
        )
    &&& b.symbol_table.classes@ == a.symbol_table.classes@
    &&& b.symbol_table.scopes@ == a.symbol_table.scopes@
    &&& b.symbol_table.namespaces@ == a.symbol_table.namespaces@
    &&& b.symbol_table.interfaces@ == a.symbol_table.interfaces@
    &&& b.symbol_table.enums@ == a.symbol_table.enums@
    &&& b.symbol_table.methods@ == a.symbol_table.methods@
    &&& b.diagnostics == a.diagnostics
    &&& b.tasks@ == a.tasks@
    &&& b.class_annotations@ == a.class_annotations@
    &&& b.injector_fields@ == a.injector_fields@
    &&& b.current_namespace_id == a.current_namespace_id
}

impl Compiler {
    /// Pass 3 for one source: declares the members of each of its classes,
    /// then freezes the declaration of the class, and the method signatures
    /// of each of its interfaces, all from the scope of its namespace.
    fn pass3_process_source(&mut self, source: &SourceFile)
        requires
            old(self).wf(),
        ensures
            final(self).wf(),
            final(self).reports_after(*old(self)),
            final(self).tasks@.len() >= old(self).tasks@.len(),
            final(self).tasks@.take(old(self).tasks@.len() as int) == old(self).tasks@,
            names_kept(old(self).symbol_table, final(self).symbol_table),
            pass3_members_run(
                *old(self),
                *final(self),
                source_scope(old(self).symbol_table, *source),
                source.members@,
            ),
    {
        let ghost start = *self;
        let search_scope = match &source.namespace {
            Some(ns_name) => self.lookup_namespace_scope(ns_name),
            None => self.symbol_table.global_scope,
        };
        proof {
            assert(search_scope == source_scope(start.symbol_table, *source));
            assert(source.members@.take(0) =~= Seq::<TopLevelMember>::empty());
        }
        let mut i: usize = 0;
        while i < source.members.len()
            invariant
                names_kept(start.symbol_table, self.symbol_table),
                self.wf(),
                self.reports_after(start),
                self.symbol_table.has_scope(search_scope),
                self.tasks@.len() >= start.tasks@.len(),
                self.tasks@.take(start.tasks@.len() as int) == start.tasks@,
                i <= source.members@.len(),
                pass3_members_run(start, *self, search_scope, source.members@.take(i as int)),
            decreases source.members.len() - i,
        {
            let ghost before = *self;
            let ghost mut mid = *self;
            match &source.members[i] {
                TopLevelMember::Class(class_decl) => {
                    self.pass3_declare_class_members(search_scope, class_decl);
                    proof {
                        mid = *self;
                        lemma_resolve_entry_valid(&self.symbol_table, search_scope.0 as int, class_decl.name@);
                    }
                    if let Some(cid) = self.symbol_table.lookup_class(search_scope, class_decl.name.as_str()) {
                        let ghost st = self.symbol_table;
                        self.symbol_table.classes.get_mut(cid.0).declaration_frozen = true;
                        proof {
                            assert forall|j: int| 0 <= j < self.symbol_table.classes@.len() implies (
                            #[trigger] self.symbol_table.classes@[j]).scope_id.0
                                < self.symbol_table.scopes@.len() by {
                                assert(st.classes@[j].scope_id == self.symbol_table.classes@[j].scope_id);
                            }
                        }
                    }
                },
                TopLevelMember::Interface(iface_decl) => {
                    self.pass3_declare_interface_members(search_scope, iface_decl);
                    proof {
                        mid = *self;
                    }
                },
                TopLevelMember::Enum(_) => {},
            }
            proof {
                assert forall|k: int| 0 <= k < start.tasks@.len() implies self.tasks@[k] == start.tasks@[k] by {
                    assert(self.tasks@.take(before.tasks@.len() as int)[k] == self.tasks@[k]);
                    assert(before.tasks@.take(start.tasks@.len() as int)[k] == before.tasks@[k]);
                }
                assert(self.tasks@.take(start.tasks@.len() as int) =~= start.tasks@);
                let ms = source.members@.take(i + 1);
                assert(ms.drop_last() =~= source.members@.take(i as int));
                assert(ms.last() == source.members@[i as int]);
                assert(pass3_member_step(before, mid, *self, search_scope, ms.last()));
                assert(pass3_members_run(start, *self, search_scope, ms));
            }
            i = i + 1;
        }
        proof {
            assert(source.members@.take(source.members@.len() as int) =~= source.members@);
        }
    }

    /// Pass 3: declares the members of the types of every source, leaving a
    /// task for each body and initializer; `Err` when an error has been
    /// reported.
    #[verifier::spinoff_prover]
    pub fn pass3_type_declaration(&mut self, sources: &[SourceFile]) -> (r: Result<(), ()>)
        requires
            old(self).wf(),
        ensures
            final(self).wf(),
            final(self).reports_after(*old(self)),
            final(self).tasks@.take(old(self).tasks@.len() as int) == old(self).tasks@,
            r is Err <==> has_error(final(self).diagnostics.items@),
            forall|f: int|
                0 <= f < final(self).symbol_table.fields@.len()
                    ==> (#[trigger] final(self).symbol_table.fields@[f]).offset
                    == Some(field_offset(final(self).symbol_table, f)),
            names_kept(old(self).symbol_table, final(self).symbol_table),
            exists|m: Compiler|
                #![trigger pass3_sources_run(*old(self), m, sources@)]
                pass3_sources_run(*old(self), m, sources@) && offsets_assigned(m, *final(self)),
    {
        let ghost start = *self;
        let mut i: usize = 0;
        while i < sources.len()
            invariant
                names_kept(start.symbol_table, self.symbol_table),
                self.wf(),
                self.reports_after(start),
                self.tasks@.len() >= start.tasks@.len(),
                self.tasks@.take(start.tasks@.len() as int) == start.tasks@,
                i <= sources@.len(),
                pass3_sources_run(start, *self, sources@.take(i as int)),
            decreases sources.len() - i,
        {
            let ghost before = *self;
            self.pass3_process_source(&sources[i]);
            proof {
                assert forall|k: int| 0 <= k < start.tasks@.len() implies self.tasks@[k] == start.tasks@[k] by {
                    assert(self.tasks@.take(before.tasks@.len() as int)[k] == self.tasks@[k]);
                    assert(before.tasks@.take(start.tasks@.len() as int)[k] == before.tasks@[k]);
                }
                assert(self.tasks@.take(start.tasks@.len() as int) =~= start.tasks@);
                let ss = sources@.take(i + 1);
                assert(ss.drop_last() =~= sources@.take(i as int));
                assert(ss.last() == sources@[i as int]);
                assert(pass3_sources_run(start, before, ss.drop_last()));
                assert(pass3_members_run(
                    before,
                    *self,
                    source_scope(before.symbol_table, ss.last()),
                    ss.last().members@,
                ));
                assert(ss.len() == i + 1);
                assert(pass3_sources_run(start, *self, ss));
            }
            i = i + 1;
        }
        proof {
            assert(sources@.take(sources@.len() as int) =~= sources@);
        }
        let ghost declared = *self;
        self.assign_field_offsets();
        proof {
            assert(self.reports_after(declared));
            let a = declared.symbol_table.fields@;
            let b = self.symbol_table.fields@;
            assert forall|f: int| 0 <= f < b.len() implies (#[trigger] b[f]).offset == Some(
                field_offset(self.symbol_table, f),
            ) by {
                let vt = count_kind(b[f].field_type);
                assert(b[f] == (FieldInfo { offset: b[f].offset, ..a[f] }));
                lemma_earlier_ignore_offsets(a, b, b[f].class_id, f, vt);
                let cls = self.symbol_table.classes@;
                if b[f].class_id.0 < cls.len() {
                    lemma_counts_ignore_offsets(cls, a, b, cls[b[f].class_id.0 as int].super_class, cls.len() as nat, vt);
                }
                assert(field_offset(self.symbol_table, f) == field_offset(declared.symbol_table, f));
            }
            assert(offsets_assigned(declared, *self));
            assert(pass3_sources_run(start, declared, sources@));
        }
        if self.diagnostics.has_errors() {
            Err(())
        } else {
            Ok(())
        }
    }
}


/// The number of fields of kind `vt` of class `c` numbered below `f`.
pub open spec fn earlier_class_fields(fields: Seq<FieldInfo>, c: ClassId, f: int, vt: ValueType) -> nat
    decreases f,
{
    if f <= 0 {
        0
    } else {
        earlier_class_fields(fields, c, f - 1, vt) + if fields[f - 1].class_id == c && count_kind(
            fields[f - 1].field_type,
        ) == vt {
            1nat
        } else {
            0nat
        }
    }
}

/// The offset that field `f` of table `st` takes: for its kind, the fields
/// of that kind that the classes above its class declare, then those that
/// its class declares before it.
pub open spec fn field_offset(st: SymbolTable, f: int) -> usize {
    let fi = st.fields@[f];
    let vt = count_kind(fi.field_type);
    let inherited = if fi.class_id.0 < st.classes@.len() {
        inherited_fields(
            st.classes@,
            st.fields@,
            st.classes@[fi.class_id.0 as int].super_class,
            st.classes@.len() as nat,
            vt,
        )
    } else {
        0
    };
    capped((inherited + earlier_class_fields(st.fields@, fi.class_id, f, vt)) as int) as usize
}

/// `b` is `a` with, at most, other offsets.
pub open spec fn same_but_offsets(a: Seq<FieldInfo>, b: Seq<FieldInfo>) -> bool {
    &&& a.len() == b.len()
    &&& forall|g: int| 0 <= g < a.len() ==> (#[trigger] b[g]) == (FieldInfo { offset: b[g].offset, ..a[g] })
}

/// Counting fields by kind does not read their offsets.
proof fn lemma_counts_ignore_offsets(classes: Seq<ClassInfo>, a: Seq<FieldInfo>, b: Seq<FieldInfo>, c: Option<ClassId>, steps: nat, vt: ValueType)
    requires
        same_but_offsets(a, b),
    ensures
        inherited_fields(classes, b, c, steps, vt) == inherited_fields(classes, a, c, steps, vt),
    decreases steps,
{
    if let Some(id) = c {
        if steps > 0 && id.0 < classes.len() {
            lemma_kind_fields_ignore_offsets(a, b, classes[id.0 as int].fields@, vt);
            lemma_counts_ignore_offsets(classes, a, b, classes[id.0 as int].super_class, (steps - 1) as nat, vt);
        }
    }
}

proof fn lemma_kind_fields_ignore_offsets(a: Seq<FieldInfo>, b: Seq<FieldInfo>, ids: Seq<FieldId>, vt: ValueType)
    requires
        same_but_offsets(a, b),
    ensures
        kind_fields(b, ids, vt) == kind_fields(a, ids, vt),
    decreases ids.len(),
{
    if ids.len() > 0 {
        lemma_kind_fields_ignore_offsets(a, b, ids.drop_last(), vt);
        if ids.last().0 < a.len() {
            assert(b[ids.last().0 as int].field_type == a[ids.last().0 as int].field_type);
        }
    }
}

proof fn lemma_earlier_ignore_offsets(a: Seq<FieldInfo>, b: Seq<FieldInfo>, c: ClassId, f: int, vt: ValueType)
    requires
        same_but_offsets(a, b),
        f <= a.len(),
    ensures
        earlier_class_fields(b, c, f, vt) == earlier_class_fields(a, c, f, vt),
    decreases f,
{
    if f > 0 {
        lemma_earlier_ignore_offsets(a, b, c, f - 1, vt);
        assert(b[f - 1].field_type == a[f - 1].field_type);
        assert(b[f - 1].class_id == a[f - 1].class_id);
    }
}

/// Counting the fields up a chain reads only the classes' fields and super
/// classes.
proof fn lemma_inherited_fields_same_chain(
    a: Seq<ClassInfo>,
    b: Seq<ClassInfo>,
    fields: Seq<FieldInfo>,
    c: Option<ClassId>,
    steps: nat,
    vt: ValueType,
)
    requires
        a.len() == b.len(),
        forall|x: int| 0 <= x < a.len() ==> (#[trigger] b[x]).fields@ == a[x].fields@ && b[x].super_class == a[x].super_class,
    ensures
        inherited_fields(b, fields, c, steps, vt) == inherited_fields(a, fields, c, steps, vt),
    decreases steps,
{
    if let Some(id) = c {
        if steps > 0 && id.0 < a.len() {
            assert(b[id.0 as int].fields@ == a[id.0 as int].fields@);
            lemma_inherited_fields_same_chain(a, b, fields, a[id.0 as int].super_class, (steps - 1) as nat, vt);
        }
    }
}

impl Compiler {
    /// Gives every field its offset, once the fields of every class are
    /// declared: for its kind, the number of fields of that kind declared by
    /// the classes above its class, plus those its class declares before it.
    /// A subclass declared before its super class is numbered the same way.
    pub fn assign_field_offsets(&mut self)
        requires
            old(self).wf(),
        ensures
            final(self).wf(),
            final(self).diagnostics == old(self).diagnostics,
            final(self).tasks@ == old(self).tasks@,
            final(self).current_namespace_id == old(self).current_namespace_id,
            final(self).class_annotations@ == old(self).class_annotations@,
            final(self).injector_fields@ == old(self).injector_fields@,
            final(self).symbol_table.classes@ == old(self).symbol_table.classes@,
            final(self).symbol_table.scopes@ == old(self).symbol_table.scopes@,
            final(self).symbol_table.namespaces@ == old(self).symbol_table.namespaces@,
            final(self).symbol_table.interfaces@ == old(self).symbol_table.interfaces@,
            final(self).symbol_table.enums@ == old(self).symbol_table.enums@,
            final(self).symbol_table.methods@ == old(self).symbol_table.methods@,
            same_but_offsets(old(self).symbol_table.fields@, final(self).symbol_table.fields@),
            forall|f: int|
                0 <= f < final(self).symbol_table.fields@.len()
                    ==> (#[trigger] final(self).symbol_table.fields@[f]).offset
                    == Some(field_offset(old(self).symbol_table, f)),
            names_kept(old(self).symbol_table, final(self).symbol_table),
    {
        let ghost start = *self;
        let n = self.symbol_table.fields.len();
        let mut f: usize = 0;
        while f < n
            invariant
                self.wf(),
                f <= n,
                n == self.symbol_table.fields@.len(),
                self.diagnostics == start.diagnostics,
                self.tasks@ == start.tasks@,
                self.current_namespace_id == start.current_namespace_id,
                self.class_annotations@ == start.class_annotations@,
                self.injector_fields@ == start.injector_fields@,
                self.symbol_table.classes@ == start.symbol_table.classes@,
                self.symbol_table.scopes@ == start.symbol_table.scopes@,
                self.symbol_table.namespaces@ == start.symbol_table.namespaces@,
                self.symbol_table.interfaces@ == start.symbol_table.interfaces@,
                self.symbol_table.enums@ == start.symbol_table.enums@,
                self.symbol_table.methods@ == start.symbol_table.methods@,
                self.symbol_table.global_scope == start.symbol_table.global_scope,
                same_but_offsets(start.symbol_table.fields@, self.symbol_table.fields@),
                forall|g: int|
                    0 <= g < f ==> (#[trigger] self.symbol_table.fields@[g]).offset == Some(
                        field_offset(start.symbol_table, g),
                    ),
            decreases n - f,
        {
            let c = self.symbol_table.fields.get(f).class_id;
            let vt = type_info_to_value_type(&self.symbol_table.fields.get(f).field_type);
            let mut counters = FieldOffsetCounters::new();
            if c.0 < self.symbol_table.classes.len() {
                let sup = self.symbol_table.classes.get(c.0).super_class;
                let steps = self.symbol_table.classes.len();
                self.count_inherited_fields(sup, steps, &mut counters);
            }
            let mut k: usize = 0;
            let mut g: usize = 0;
            while g < f
                invariant
                    g <= f,
                    f < n,
                    n == self.symbol_table.fields@.len(),
                    k == earlier_class_fields(self.symbol_table.fields@, c, g as int, vt),
                    k <= g,
                decreases f - g,
            {
                let gi = self.symbol_table.fields.get(g);
                if gi.class_id.0 == c.0 && type_info_to_value_type(&gi.field_type) == vt {
                    k = k + 1;
                }
                g = g + 1;
            }
            let offset = counters.get(vt).saturating_add(k);
            proof {
                let a = start.symbol_table.fields@;
                let b = self.symbol_table.fields@;
                lemma_earlier_ignore_offsets(a, b, c, f as int, vt);
                if c.0 < self.symbol_table.classes@.len() {
                    lemma_counts_ignore_offsets(
                        self.symbol_table.classes@,
                        a,
                        b,
                        self.symbol_table.classes@[c.0 as int].super_class,
                        self.symbol_table.classes@.len() as nat,
                        vt,
                    );
                }
                assert(b[f as int] == (FieldInfo { offset: b[f as int].offset, ..a[f as int] }));
                assert(offset == field_offset(start.symbol_table, f as int));
            }
            let ghost before = self.symbol_table.fields@;
            self.symbol_table.fields.get_mut(f).offset = Some(offset);
            proof {
                let after = self.symbol_table.fields@;
                assert forall|h: int| 0 <= h < n implies (#[trigger] after[h]) == (FieldInfo {
                    offset: after[h].offset,
                    ..start.symbol_table.fields@[h]
                }) by {
                    if h != f {
                        assert(after[h] == before[h]);
                    }
                }
                assert forall|h: int| 0 <= h < f + 1 implies (#[trigger] after[h]).offset == Some(
                    field_offset(start.symbol_table, h),
                ) by {
                    if h != f {
                        assert(after[h] == before[h]);
                    }
                }
            }
            f = f + 1;
        }
    }
}

/// The number of classes met going up from `cur`, following at most `fuel`
/// links; a class id that names no class ends the chain after it.
pub open spec fn chain_depth(classes: Seq<ClassInfo>, cur: Option<ClassId>, fuel: nat) -> nat
    decreases fuel,
{
    match cur {
        Some(s) => if fuel == 0 {
            0
        } else if s.0 >= classes.len() {
            1
        } else {
            1 + chain_depth(classes, classes[s.0 as int].super_class, (fuel - 1) as nat)
        },
        None => 0,
    }
}

/// How deep class `c` sits in its inheritance chain: the number of classes
/// above it, counted up to a thousand and one.
pub open spec fn class_depth(classes: Seq<ClassInfo>, c: int) -> nat {
    chain_depth(classes, classes[c].super_class, 1001)
}

/// Whether the parameters `a` and `b` have the same types, one by one, in an
/// override's signature.
pub open spec fn same_params(params: Seq<ParameterInfo>, a: Seq<ParameterId>, b: Seq<ParameterId>) -> bool {
    &&& a.len() == b.len()
    &&& forall|i: int|
        0 <= i < a.len() ==> {
            &&& (#[trigger] a[i]).0 < params.len()
            &&& b[i].0 < params.len()
            &&& same_signature_type(params[a[i].0 as int].param_type, params[b[i].0 as int].param_type)
        }
}

/// Whether method `m` is named `name`, is static exactly when `is_static`,
/// and takes parameters of the same types as `ps`.
pub open spec fn method_matches(
    methods: Seq<MethodInfo>,
    params: Seq<ParameterInfo>,
    m: MethodId,
    name: Seq<char>,
    is_static: bool,
    ps: Seq<ParameterId>,
) -> bool {
    &&& m.0 < methods.len()
    &&& methods[m.0 as int].name@ == name
    &&& methods[m.0 as int].is_static == is_static
    &&& same_params(params, methods[m.0 as int].parameters@, ps)
}

/// The position of the first method among `ms` that matches.
pub open spec fn first_match(
    methods: Seq<MethodInfo>,
    params: Seq<ParameterInfo>,
    ms: Seq<MethodId>,
    name: Seq<char>,
    is_static: bool,
    ps: Seq<ParameterId>,
) -> Option<int>
    decreases ms.len(),
{
    if ms.len() == 0 {
        None
    } else {
        match first_match(methods, params, ms.drop_last(), name, is_static, ps) {
            Some(k) => Some(k),
            None => if method_matches(methods, params, ms.last(), name, is_static, ps) {
                Some(ms.len() - 1)
            } else {
                None
            },
        }
    }
}

/// The global number of the first matching method found going up the chain
/// from class `cur`, through at most `fuel` classes: the class's first
/// method number plus the method's position, capped at `usize::MAX`.
pub open spec fn chain_method(
    classes: Seq<ClassInfo>,
    methods: Seq<MethodInfo>,
    params: Seq<ParameterInfo>,
    cur: Option<ClassId>,
    name: Seq<char>,
    is_static: bool,
    ps: Seq<ParameterId>,
    fuel: nat,
) -> Option<usize>
    decreases fuel,
{
    match cur {
        Some(c) => if fuel > 0 && c.0 < classes.len() {
            match first_match(methods, params, classes[c.0 as int].methods@, name, is_static, ps) {
                Some(k) => Some(capped(classes[c.0 as int].method_start_id + k) as usize),
                None => chain_method(
                    classes,
                    methods,
                    params,
                    classes[c.0 as int].super_class,
                    name,
                    is_static,
                    ps,
                    (fuel - 1) as nat,
                ),
            }
        } else {
            None
        },
        None => None,
    }
}

/// Whether class `target` is met going up from `cur`, through at most
/// `fuel` classes.
pub open spec fn chain_reaches(classes: Seq<ClassInfo>, cur: Option<ClassId>, target: ClassId, fuel: nat) -> bool
    decreases fuel,
{
    match cur {
        Some(c) => fuel > 0 && c.0 < classes.len() && (c == target || chain_reaches(
            classes,
            classes[c.0 as int].super_class,
            target,
            (fuel - 1) as nat,
        )),
        None => false,
    }
}

impl Compiler {
    /// Whether the parameters `a` and `b` have the same types, one by one.
    fn same_parameter_types(&self, a: &Vec<ParameterId>, b: &Vec<ParameterId>) -> (r: bool)
        ensures
            r == same_params(self.symbol_table.parameters@, a@, b@),
    {
        if a.len() != b.len() {
            return false;
        }
        let mut i: usize = 0;
        while i < a.len()
            invariant
                a@.len() == b@.len(),
                i <= a@.len(),
                forall|j: int|
                    0 <= j < i ==> {
                        &&& (#[trigger] a@[j]).0 < self.symbol_table.parameters@.len()
                        &&& b@[j].0 < self.symbol_table.parameters@.len()
                        &&& same_signature_type(
                            self.symbol_table.parameters@[a@[j].0 as int].param_type,
                            self.symbol_table.parameters@[b@[j].0 as int].param_type,
                        )
                    },
            decreases a.len() - i,
        {
            let pa = a[i];
            let pb = b[i];
            if pa.0 >= self.symbol_table.parameters.len() || pb.0 >= self.symbol_table.parameters.len() {
                return false;
            }
            let ta = &self.symbol_table.parameters.get(pa.0).param_type;
            let tb = &self.symbol_table.parameters.get(pb.0).param_type;
            if !type_info_eq(ta, tb) {
                return false;
            }
            i = i + 1;
        }
        true
    }

    /// The position of the first method among `ms` named `name`, static
    /// exactly when `is_static`, whose parameters have the types of `ps`.
    fn find_matching_method(&self, ms: &Vec<MethodId>, name: &String, is_static: bool, ps: &Vec<ParameterId>) -> (r: Option<usize>)
        ensures
            r matches Some(k) ==> first_match(
                self.symbol_table.methods@,
                self.symbol_table.parameters@,
                ms@,
                name@,
                is_static,
                ps@,
            ) == Some(k as int),
            r is None ==> first_match(
                self.symbol_table.methods@,
                self.symbol_table.parameters@,
                ms@,
                name@,
                is_static,
                ps@,
            ) is None,
    {
        let ghost methods = self.symbol_table.methods@;
        let ghost params = self.symbol_table.parameters@;
        let mut k: usize = 0;
        while k < ms.len()
            invariant
                k <= ms@.len(),
                methods == self.symbol_table.methods@,
                params == self.symbol_table.parameters@,
                first_match(methods, params, ms@.take(k as int), name@, is_static, ps@) is None,
            decreases ms.len() - k,
        {
            let mid = ms[k];
            proof {
                assert(ms@.take(k + 1).drop_last() =~= ms@.take(k as int));
                assert(ms@.take(k + 1).last() == mid);
            }
            if mid.0 < self.symbol_table.methods.len() {
                let mi = self.symbol_table.methods.get(mid.0);
                if mi.name == *name && mi.is_static == is_static && self.same_parameter_types(&mi.parameters, ps) {
                    proof {
                        lemma_first_match_prefix(methods, params, ms@, k as int + 1, name@, is_static, ps@);
                    }
                    return Some(k);
                }
            }
            k = k + 1;
        }
        proof {
            assert(ms@.take(ms@.len() as int) =~= ms@);
        }
        None
    }
}

/// A first match within the first `n` methods is the first match of all.
proof fn lemma_first_match_prefix(
    methods: Seq<MethodInfo>,
    params: Seq<ParameterInfo>,
    ms: Seq<MethodId>,
    n: int,
    name: Seq<char>,
    is_static: bool,
    ps: Seq<ParameterId>,
)
    requires
        0 <= n <= ms.len(),
        first_match(methods, params, ms.take(n), name, is_static, ps) is Some,
    ensures
        first_match(methods, params, ms, name, is_static, ps) == first_match(
            methods,
            params,
            ms.take(n),
            name,
            is_static,
            ps,
        ),
    decreases ms.len() - n,
{
    if n < ms.len() {
        assert(ms.take(n + 1).drop_last() =~= ms.take(n));
        lemma_first_match_prefix(methods, params, ms, n + 1, name, is_static, ps);
    } else {
        assert(ms.take(n) =~= ms);
    }
}


/// The number of instance (not static) fields of kind `vt` among `ids`; an
/// id that names no field counts for nothing.
pub open spec fn instance_kind_fields(fields: Seq<FieldInfo>, ids: Seq<FieldId>, vt: ValueType) -> nat
    decreases ids.len(),
{
    if ids.len() == 0 {
        0
    } else {
        let f = ids.last();
        instance_kind_fields(fields, ids.drop_last(), vt) + if f.0 < fields.len() && !fields[f.0 as int].is_static
            && count_kind(fields[f.0 as int].field_type) == vt {
            1nat
        } else {
            0nat
        }
    }
}

/// The overrides of the methods `ms` of a class whose super class is `sup`
/// and whose first method is numbered `start`: for each instance method, in
/// turn, the number of the method it overrides up the chain maps to its own.
pub open spec fn override_map(
    classes: Seq<ClassInfo>,
    methods: Seq<MethodInfo>,
    params: Seq<ParameterInfo>,
    sup: Option<ClassId>,
    start: usize,
    ms: Seq<MethodId>,
) -> Map<usize, usize>
    decreases ms.len(),
{
    if ms.len() == 0 {
        Map::empty()
    } else {
        let prev = override_map(classes, methods, params, sup, start, ms.drop_last());
        let m = ms.last();
        if sup is Some && m.0 < methods.len() && !methods[m.0 as int].is_static {
            match chain_method(
                classes,
                methods,
                params,
                sup,
                methods[m.0 as int].name@,
                false,
                methods[m.0 as int].parameters@,
                classes.len() as nat,
            ) {
                Some(g) => prev.insert(g, capped(start + ms.len() - 1) as usize),
                None => prev,
            }
        } else {
            prev
        }
    }
}

/// For each of the methods `ims` of an interface, the global number of the
/// instance method of class `c` or a class above it that implements it, or
/// `usize::MAX` where none does.
pub open spec fn implementing_ids(
    classes: Seq<ClassInfo>,
    methods: Seq<MethodInfo>,
    params: Seq<ParameterInfo>,
    c: ClassId,
    ims: Seq<MethodId>,
) -> Seq<usize> {
    Seq::new(
        ims.len(),
        |k: int|
            if ims[k].0 < methods.len() {
                match chain_method(
                    classes,
                    methods,
                    params,
                    Some(c),
                    methods[ims[k].0 as int].name@,
                    false,
                    methods[ims[k].0 as int].parameters@,
                    classes.len() as nat,
                ) {
                    Some(g) => g,
                    None => usize::MAX,
                }
            } else {
                usize::MAX
            },
    )
}

impl Compiler {
    /// The number of classes met going up from `cur`, through at most `fuel`.
    fn chain_depth_from(&self, cur: Option<ClassId>, fuel: usize) -> (d: usize)
        ensures
            d == chain_depth(self.symbol_table.classes@, cur, fuel as nat),
            d <= fuel,
        decreases fuel,
    {
        match cur {
            None => 0,
            Some(s) => {
                if fuel == 0 {
                    0
                } else if s.0 >= self.symbol_table.classes.len() {
                    1
                } else {
                    1 + self.chain_depth_from(self.symbol_table.classes.get(s.0).super_class, fuel - 1)
                }
            },
        }
    }

    /// How deep class `class_id` sits in its inheritance chain: the number
    /// of classes above it, counted up to a thousand and one so that a cyclic
    /// chain ends.
    fn inheritance_depth(&self, class_id: ClassId) -> (d: usize)
        requires
            class_id.0 < self.symbol_table.classes@.len(),
        ensures
            d == class_depth(self.symbol_table.classes@, class_id.0 as int),
            d <= 1001,
    {
        self.chain_depth_from(self.symbol_table.classes.get(class_id.0).super_class, 1001)
    }

    /// Whether class `target` is met going up from `cur`, through at most `fuel` classes.
    fn chain_reaches_from(&self, cur: Option<ClassId>, target: ClassId, fuel: usize) -> (r: bool)
        ensures
            r == chain_reaches(self.symbol_table.classes@, cur, target, fuel as nat),
        decreases fuel,
    {
        match cur {
            None => false,
            Some(c) => {
                if fuel == 0 || c.0 >= self.symbol_table.classes.len() {
                    false
                } else if c.0 == target.0 {
                    true
                } else {
                    self.chain_reaches_from(self.symbol_table.classes.get(c.0).super_class, target, fuel - 1)
                }
            },
        }
    }

    /// The global number of the first method named `name`, static exactly
    /// when `is_static`, with parameters of the types of `ps`, going up the
    /// chain from class `cur` through at most `fuel` classes.
    fn chain_method_from(
        &self,
        cur: Option<ClassId>,
        name: &String,
        is_static: bool,
        ps: &Vec<ParameterId>,
        fuel: usize,
    ) -> (r: Option<usize>)
        ensures
            r == chain_method(
                self.symbol_table.classes@,
                self.symbol_table.methods@,
                self.symbol_table.parameters@,
                cur,
                name@,
                is_static,
                ps@,
                fuel as nat,
            ),
        decreases fuel,
    {
        match cur {
            None => None,
            Some(c) => {
                if fuel == 0 || c.0 >= self.symbol_table.classes.len() {
                    return None;
                }
                let ci = self.symbol_table.classes.get(c.0);
                match self.find_matching_method(&ci.methods, name, is_static, ps) {
                    Some(k) => Some(ci.method_start_id.saturating_add(k)),
                    None => self.chain_method_from(ci.super_class, name, is_static, ps, fuel - 1),
                }
            },
        }
    }

    /// The global number of the method that `method` overrides: the first of
    /// the same name, kind and parameter types going up from `super_id`.
    fn find_overridden_method(&self, super_id: ClassId, method: &MethodInfo) -> (r: Option<usize>)
        ensures
            r == chain_method(
                self.symbol_table.classes@,
                self.symbol_table.methods@,
                self.symbol_table.parameters@,
                Some(super_id),
                method.name@,
                method.is_static,
                method.parameters@,
                self.symbol_table.classes@.len() as nat,
            ),
    {
        self.chain_method_from(
            Some(super_id),
            &method.name,
            method.is_static,
            &method.parameters,
            self.symbol_table.classes.len(),
        )
    }

    /// The global number of the instance method named `name` with parameters
    /// of the types of `iface_params` found going up from class `class_id`.
    fn find_impl_method_global_id(&self, class_id: ClassId, name: &String, iface_params: &Vec<ParameterId>) -> (r: Option<usize>)
        ensures
            r == chain_method(
                self.symbol_table.classes@,
                self.symbol_table.methods@,
                self.symbol_table.parameters@,
                Some(class_id),
                name@,
                false,
                iface_params@,
                self.symbol_table.classes@.len() as nat,
            ),
    {
        self.chain_method_from(Some(class_id), name, false, iface_params, self.symbol_table.classes.len())
    }
}


/// An interface implementation map by its views: names and method numbers.
pub open spec fn impl_map_view(map: Seq<(String, Vec<usize>)>) -> Seq<(Seq<char>, Seq<usize>)> {
    map.map_values(|e: (String, Vec<usize>)| (e.0@, e.1@))
}

/// The ids recorded under `name` by the last entry of `map` with that name.
pub open spec fn last_entry(map: Seq<(Seq<char>, Seq<usize>)>, name: Seq<char>) -> Option<Seq<usize>>
    decreases map.len(),
{
    if map.len() == 0 {
        None
    } else if map.last().0 == name {
        Some(map.last().1)
    } else {
        last_entry(map.drop_last(), name)
    }
}

/// The implementation map of class `c`: for each interface it implements,
/// its name and the number of the method implementing each of its methods;
/// an interface id that names no interface gives an empty entry.
pub open spec fn impl_entries(
    classes: Seq<ClassInfo>,
    methods: Seq<MethodInfo>,
    params: Seq<ParameterInfo>,
    interfaces: Seq<InterfaceInfo>,
    c: ClassId,
) -> Seq<(Seq<char>, Seq<usize>)> {
    let ifaces = classes[c.0 as int].super_interfaces@;
    Seq::new(
        ifaces.len(),
        |j: int|
            if ifaces[j].0 < interfaces.len() {
                (
                    interfaces[ifaces[j].0 as int].name@,
                    implementing_ids(classes, methods, params, c, interfaces[ifaces[j].0 as int].methods@),
                )
            } else {
                (Seq::empty(), Seq::empty())
            },
    )
}

/// The number of entries of `ids` that are `usize::MAX`: methods that have
/// no implementation.
pub open spec fn max_count(ids: Seq<usize>) -> nat
    decreases ids.len(),
{
    if ids.len() == 0 {
        0
    } else {
        max_count(ids.drop_last()) + if ids.last() == usize::MAX {
            1nat
        } else {
            0nat
        }
    }
}

/// The number of methods of the interfaces `ifaces` that `map` records as
/// having no implementation.
pub open spec fn unimplemented_count(
    interfaces: Seq<InterfaceInfo>,
    ifaces: Seq<InterfaceId>,
    map: Seq<(Seq<char>, Seq<usize>)>,
) -> nat
    decreases ifaces.len(),
{
    if ifaces.len() == 0 {
        0
    } else {
        let i = ifaces.last();
        unimplemented_count(interfaces, ifaces.drop_last(), map) + if i.0 < interfaces.len() {
            match last_entry(map, interfaces[i.0 as int].name@) {
                Some(ids) => max_count(ids),
                None => 0,
            }
        } else {
            0
        }
    }
}

impl Compiler {
    /// For each interface that class `class_id` implements, its name and,
    /// method by method, the global number of the instance method of the
    /// class or a class above it with the same name and parameter types, or
    /// `usize::MAX` where there is none. An interface id that names no
    /// interface gives an empty entry.
    fn build_interface_impl_map(&self, class_id: ClassId) -> (r: Vec<(String, Vec<usize>)>)
        requires
            class_id.0 < self.symbol_table.classes@.len(),
        ensures
            impl_map_view(r@) == impl_entries(
                self.symbol_table.classes@,
                self.symbol_table.methods@,
                self.symbol_table.parameters@,
                self.symbol_table.interfaces@,
                class_id,
            ),
    {
        let ifaces = &self.symbol_table.classes.get(class_id.0).super_interfaces;
        let mut result: Vec<(String, Vec<usize>)> = Vec::new();
        let mut j: usize = 0;
        while j < ifaces.len()
            invariant
                j <= ifaces@.len(),
                ifaces@ == self.symbol_table.classes@[class_id.0 as int].super_interfaces@,
                result@.len() == j,
                forall|q: int|
                    0 <= q < j ==> {
                        let i = ifaces@[q];
                        if i.0 < self.symbol_table.interfaces@.len() {
                            &&& (#[trigger] result@[q]).0@ == self.symbol_table.interfaces@[i.0 as int].name@
                            &&& result@[q].1@ == implementing_ids(
                                self.symbol_table.classes@,
                                self.symbol_table.methods@,
                                self.symbol_table.parameters@,
                                class_id,
                                self.symbol_table.interfaces@[i.0 as int].methods@,
                            )
                        } else {
                            result@[q].0@ == Seq::<char>::empty() && result@[q].1@ == Seq::<usize>::empty()
                        }
                    },
            decreases ifaces.len() - j,
        {
            let iface_id = ifaces[j];
            if iface_id.0 >= self.symbol_table.interfaces.len() {
                result.push((String::new(), Vec::new()));
            } else {
                let iface = self.symbol_table.interfaces.get(iface_id.0);
                let ims = &iface.methods;
                let ghost want = implementing_ids(
                    self.symbol_table.classes@,
                    self.symbol_table.methods@,
                    self.symbol_table.parameters@,
                    class_id,
                    ims@,
                );
                let mut impl_ids: Vec<usize> = Vec::new();
                let mut k: usize = 0;
                while k < ims.len()
                    invariant
                        k <= ims@.len(),
                        impl_ids@.len() == k,
                        want == implementing_ids(
                            self.symbol_table.classes@,
                            self.symbol_table.methods@,
                            self.symbol_table.parameters@,
                            class_id,
                            ims@,
                        ),
                        forall|q: int| 0 <= q < k ==> #[trigger] impl_ids@[q] == want[q],
                    decreases ims.len() - k,
                {
                    let imid = ims[k];
                    let g = if imid.0 < self.symbol_table.methods.len() {
                        let im = self.symbol_table.methods.get(imid.0);
                        match self.find_impl_method_global_id(class_id, &im.name, &im.parameters) {
                            Some(g) => g,
                            None => usize::MAX,
                        }
                    } else {
                        usize::MAX
                    };
                    impl_ids.push(g);
                    k = k + 1;
                }
                proof {
                    assert(impl_ids@ =~= want);
                }
                result.push((iface.name.clone(), impl_ids));
            }
            j = j + 1;
        }
        proof {
            let want = impl_entries(
                self.symbol_table.classes@,
                self.symbol_table.methods@,
                self.symbol_table.parameters@,
                self.symbol_table.interfaces@,
                class_id,
            );
            assert forall|q: int| 0 <= q < result@.len() implies impl_map_view(result@)[q] == want[q] by {
                let i = ifaces@[q];
                if i.0 < self.symbol_table.interfaces@.len() {
                    assert(result@[q].0@ == self.symbol_table.interfaces@[i.0 as int].name@);
                } else {
                    assert(result@[q].0@ == Seq::<char>::empty());
                }
            }
            assert(impl_map_view(result@) =~= impl_entries(
                self.symbol_table.classes@,
                self.symbol_table.methods@,
                self.symbol_table.parameters@,
                self.symbol_table.interfaces@,
                class_id,
            ));
        }
        result
    }

    /// The ids that `map` records under `name`, by its last entry with that name.
    fn lookup_impl_ids<'a>(map: &'a Vec<(String, Vec<usize>)>, name: &String) -> (r: Option<&'a Vec<usize>>)
        ensures
            match r {
                Some(ids) => last_entry(impl_map_view(map@), name@) == Some(ids@),
                None => last_entry(impl_map_view(map@), name@) is None,
            },
    {
        let mut i: usize = map.len();
        proof {
            assert(impl_map_view(map@).take(i as int) =~= impl_map_view(map@));
        }
        while i > 0
            invariant
                i <= map@.len(),
                last_entry(impl_map_view(map@), name@) == last_entry(impl_map_view(map@).take(i as int), name@),
            decreases i,
        {
            proof {
                assert(impl_map_view(map@).take(i as int).drop_last() =~= impl_map_view(map@).take(i - 1));
            }
            if map[i - 1].0 == *name {
                return Some(&map[i - 1].1);
            }
            i = i - 1;
        }
        None
    }

    /// Reports, for each interface that class `class_id` implements, each of
    /// its methods that `iface_map` records as having no implementation.
    fn check_interface_impl_completeness(&mut self, class_id: ClassId, iface_map: &Vec<(String, Vec<usize>)>)
        requires
            old(self).wf(),
            class_id.0 < old(self).symbol_table.classes@.len(),
        ensures
            final(self).wf(),
            final(self).reports_after(*old(self)),
            final(self).only_reports_changed(*old(self)),
            final(self).diagnostics.items@.len() == old(self).diagnostics.items@.len() + unimplemented_count(
                old(self).symbol_table.interfaces@,
                old(self).symbol_table.classes@[class_id.0 as int].super_interfaces@,
                impl_map_view(iface_map@),
            ),
    {
        let ghost start = *self;
        let ifaces = self.symbol_table.classes.get(class_id.0).super_interfaces.clone();
        let mut j: usize = 0;
        while j < ifaces.len()
            invariant
                self.wf(),
                self.reports_after(start),
                self.only_reports_changed(start),
                j <= ifaces@.len(),
                ifaces@ == start.symbol_table.classes@[class_id.0 as int].super_interfaces@,
                self.diagnostics.items@.len() == start.diagnostics.items@.len() + unimplemented_count(
                    start.symbol_table.interfaces@,
                    ifaces@.take(j as int),
                    impl_map_view(iface_map@),
                ),
            decreases ifaces.len() - j,
        {
            let iface_id = ifaces[j];
            proof {
                assert(ifaces@.take(j + 1).drop_last() =~= ifaces@.take(j as int));
                assert(ifaces@.take(j + 1).last() == iface_id);
            }
            if iface_id.0 < self.symbol_table.interfaces.len() {
                let iface_name = self.symbol_table.interfaces.get(iface_id.0).name.clone();
                let iface_span = self.symbol_table.interfaces.get(iface_id.0).span;
                if let Some(impl_ids) = Self::lookup_impl_ids(iface_map, &iface_name) {
                    let ghost base = self.diagnostics.items@.len();
                    let mut i: usize = 0;
                    while i < impl_ids.len()
                        invariant
                            self.wf(),
                            self.reports_after(start),
                            self.only_reports_changed(start),
                            i <= impl_ids@.len(),
                            iface_id.0 < self.symbol_table.interfaces@.len(),
                            self.diagnostics.items@.len() == base + max_count(impl_ids@.take(i as int)),
                        decreases impl_ids.len() - i,
                    {
                        proof {
                            assert(impl_ids@.take(i + 1).drop_last() =~= impl_ids@.take(i as int));
                        }
                        if impl_ids[i] == usize::MAX {
                            let iface = self.symbol_table.interfaces.get(iface_id.0);
                            let method_name = if i < iface.methods.len() && iface.methods[i].0
                                < self.symbol_table.methods.len() {
                                self.symbol_table.methods.get(iface.methods[i].0).name.clone()
                            } else {
                                let mut digits: Vec<char> = Vec::new();
                                push_decimal(i as u64, &mut digits);
                                String::from_str("方法#").concat(string_from_chars(&digits).as_str())
                            };
                            let msg = String::from_str("没有实现 ").concat(iface_name.as_str()).concat(
                                " 接口的 ",
                            ).concat(method_name.as_str()).concat(" 方法");
                            self.report(iface_span, msg);
                        }
                        i = i + 1;
                    }
                    proof {
                        assert(impl_ids@.take(impl_ids@.len() as int) =~= impl_ids@);
                    }
                }
            }
            j = j + 1;
        }
        proof {
            assert(ifaces@.take(ifaces@.len() as int) =~= ifaces@);
        }
    }
}


/// Counts one more instance field of type `ti` in `tc`; a count stops at
/// `usize::MAX`.
fn count_instance_field(tc: &mut FrozenTypeCount, ti: &TypeInfo)
    ensures
        kind_count(*final(tc), count_kind(*ti)) == capped(kind_count(*old(tc), count_kind(*ti)) + 1),
        forall|vt: ValueType|
            vt != count_kind(*ti) ==> #[trigger] kind_count(*final(tc), vt) == kind_count(*old(tc), vt),
{
    let current = match type_info_to_value_type(ti) {
        ValueType::Int => tc.int,
        ValueType::Float => tc.float,
        ValueType::Bool => tc.bool,
        ValueType::String => tc.string,
        ValueType::Object => tc.object,
    };
    if current < usize::MAX {
        bump_frozen_type_count(tc, ti);
    }
}

/// Whether the chain of super classes of class `c` leads back to it: its
/// super class is another class, from which `c` is met going up.
pub open spec fn inherits_from_itself(classes: Seq<ClassInfo>, c: int) -> bool {
    classes[c].super_class matches Some(s) && s.0 != c && s.0 < classes.len() && chain_reaches(
        classes,
        classes[s.0 as int].super_class,
        ClassId(c as usize),
        classes.len() as nat,
    )
}

/// The numbers that class `c` starts from: the method, constructor and
/// field totals of its super class, or nothing where it has none.
pub open spec fn inherited_start(classes: Seq<ClassInfo>, c: int) -> (usize, usize, FrozenTypeCount) {
    match classes[c].super_class {
        Some(s) => if s.0 < classes.len() {
            (
                classes[s.0 as int].method_count_total,
                classes[s.0 as int].constructor_count_total,
                classes[s.0 as int].field_type_count_total,
            )
        } else {
            (0, 0, zero_count())
        },
        None => (0, 0, zero_count()),
    }
}

/// `nc` is class `oc` frozen over the table `st` (class `c` being `oc`):
/// numbered after its super class, with its own methods, constructors and
/// instance fields counted on top, its overrides mapped, and its
/// inheritance frozen; nothing else of it changed.
pub open spec fn frozen_from(st: SymbolTable, c: int, nc: ClassInfo) -> bool {
    let oc = st.classes@[c];
    let (ms, ks, fs) = inherited_start(st.classes@, c);
    &&& nc.method_start_id == ms
    &&& nc.method_count_total == capped(ms + oc.methods@.len())
    &&& nc.constructor_start_id == ks
    &&& nc.constructor_count_total == capped(ks + oc.constructors@.len())
    &&& nc.field_start_type_count == fs
    &&& forall|vt: ValueType|
        #[trigger] kind_count(nc.field_type_count_total, vt) == capped(
            kind_count(fs, vt) + instance_kind_fields(st.fields@, oc.fields@, vt),
        )
    &&& nc.method_override_id@ == override_map(
        st.classes@,
        st.methods@,
        st.parameters@,
        oc.super_class,
        ms,
        oc.methods@,
    )
    &&& nc.inheritance_frozen
    &&& nc == (ClassInfo {
        method_start_id: nc.method_start_id,
        method_count_total: nc.method_count_total,
        constructor_start_id: nc.constructor_start_id,
        constructor_count_total: nc.constructor_count_total,
        method_override_id: nc.method_override_id,
        field_start_type_count: nc.field_start_type_count,
        field_type_count_total: nc.field_type_count_total,
        interface_method_impl_id: nc.interface_method_impl_id,
        inheritance_frozen: nc.inheritance_frozen,
        ..oc
    })
}

impl Compiler {
    /// For each of the `cnt` injector constructor numbers, the global number
    /// `ctor_start + i` of the last constructor `ctors[i]` that has it, 0
    /// where none has.
    fn injector_impl_slots(&self, ctors: &Vec<ConstructorId>, ctor_start: usize, cnt: usize) -> (slots: Vec<usize>)
        ensures
            slots@ == injector_slots(self.injector_constructor_ids@, ctor_start, ctors@, cnt as nat),
    {
        let mut slots: Vec<usize> = Vec::new();
        let mut z: usize = 0;
        while z < cnt
            invariant
                z <= cnt,
                slots@ == Seq::new(z as nat, |i: int| 0usize),
            decreases cnt - z,
        {
            slots.push(0);
            z = z + 1;
            proof {
                assert(slots@ =~= Seq::new(z as nat, |i: int| 0usize));
            }
        }
        proof {
            assert(ctors@.take(0) =~= Seq::<ConstructorId>::empty());
        }
        let mut k: usize = 0;
        while k < ctors.len()
            invariant
                k <= ctors@.len(),
                slots@ == injector_slots(self.injector_constructor_ids@, ctor_start, ctors@.take(k as int), cnt as nat),
                slots@.len() == cnt,
            decreases ctors.len() - k,
        {
            let kid = ctors[k];
            proof {
                assert(ctors@.take(k + 1).drop_last() =~= ctors@.take(k as int));
                assert(ctors@.take(k + 1).last() == kid);
            }
            match self.injector_local_id(kid) {
                Some(l) => {
                    if l < cnt {
                        slots.set(l, ctor_start.saturating_add(k));
                    }
                },
                None => {},
            }
            k = k + 1;
        }
        proof {
            assert(ctors@.take(ctors@.len() as int) =~= ctors@);
        }
        slots
    }

    /// Freezes the numbering of class `cid`: reports a chain of super classes
    /// that leads back to it; starts its methods, constructors and fields of
    /// each kind after the totals of its super class, or at zero, and counts
    /// its own on top; maps each of its instance methods that overrides one up
    /// the chain; maps each of its injector constructor numbers to the
    /// constructor that has it; maps each method of the interfaces it
    /// implements to the method implementing it, reporting those with none;
    /// and marks its inheritance frozen.
    #[verifier::spinoff_prover]
    fn freeze_class(&mut self, cid: ClassId)
        requires
            old(self).wf(),
            cid.0 < old(self).symbol_table.classes@.len(),
        ensures
            final(self).wf(),
            final(self).reports_after(*old(self)),
            final(self).diagnostics.items@.len() == old(self).diagnostics.items@.len() + one_if(
                inherits_from_itself(old(self).symbol_table.classes@, cid.0 as int),
            ) + unimplemented_count(
                old(self).symbol_table.interfaces@,
                old(self).symbol_table.classes@[cid.0 as int].super_interfaces@,
                impl_entries(
                    old(self).symbol_table.classes@,
                    old(self).symbol_table.methods@,
                    old(self).symbol_table.parameters@,
                    old(self).symbol_table.interfaces@,
                    cid,
                ),
            ),
            final(self).symbol_table.classes@.len() == old(self).symbol_table.classes@.len(),
            frozen_from(old(self).symbol_table, cid.0 as int, final(self).symbol_table.classes@[cid.0 as int]),
            forall|i: int|
                0 <= i < old(self).symbol_table.classes@.len() && i != cid.0
                    ==> final(self).symbol_table.classes@[i] == old(self).symbol_table.classes@[i],
            final(self).symbol_table.fields@ == old(self).symbol_table.fields@,
            final(self).symbol_table.methods@ == old(self).symbol_table.methods@,
            final(self).symbol_table.constructors@ == old(self).symbol_table.constructors@,
            final(self).symbol_table.parameters@ == old(self).symbol_table.parameters@,
            final(self).symbol_table.interfaces@ == old(self).symbol_table.interfaces@,
            final(self).symbol_table.enums@ == old(self).symbol_table.enums@,
            final(self).symbol_table.scopes@ == old(self).symbol_table.scopes@,
            final(self).tasks@ == old(self).tasks@,
            final(self).current_namespace_id == old(self).current_namespace_id,
            final(self).class_annotations@ == old(self).class_annotations@,
            final(self).injector_fields@ == old(self).injector_fields@,
            final(self).class_injector_constructor_count@ == old(self).class_injector_constructor_count@,
            final(self).injector_constructor_ids@ == old(self).injector_constructor_ids@,
            ({
                let cnt = injector_count(old(self).class_injector_constructor_count@, cid);
                let oi = old(self).injector_constructor_impl_id@;
                let ni = final(self).injector_constructor_impl_id@;
                if cnt > 0 {
                    &&& ni.len() == oi.len() + 1
                    &&& ni.drop_last() == oi
                    &&& ni.last().0@ == old(self).symbol_table.classes@[cid.0 as int].name@
                    &&& ni.last().1@ == injector_slots(
                        old(self).injector_constructor_ids@,
                        final(self).symbol_table.classes@[cid.0 as int].constructor_start_id,
                        old(self).symbol_table.classes@[cid.0 as int].constructors@,
                        cnt,
                    )
                } else {
                    ni == oi
                }
            }),
    {
        broadcast use vstd::std_specs::hash::group_hash_axioms;

        let ghost start = *self;
        let n = self.symbol_table.classes.len();
        let super_id = self.symbol_table.classes.get(cid.0).super_class;
        if let Some(sid) = super_id {
            if sid.0 != cid.0 && sid.0 < n {
                let up = self.symbol_table.classes.get(sid.0).super_class;
                if self.chain_reaches_from(up, cid, n) {
                    let msg = String::from_str("类 `").concat(
                        self.symbol_table.classes.get(cid.0).name.as_str(),
                    ).concat("` 存在循环继承（自身出现在父类链中）");
                    let span = self.symbol_table.classes.get(cid.0).span;
                    self.report(span, msg);
                }
            }
        }
        let ghost after_cycle = *self;
        let (method_start, ctor_start, field_start) = match super_id {
            Some(sid) => {
                if sid.0 < n {
                    let sup = self.symbol_table.classes.get(sid.0);
                    (sup.method_count_total, sup.constructor_count_total, sup.field_type_count_total)
                } else {
                    (0, 0, FrozenTypeCount { int: 0, float: 0, bool: 0, string: 0, object: 0 })
                }
            },
            None => (0, 0, FrozenTypeCount { int: 0, float: 0, bool: 0, string: 0, object: 0 }),
        };
        let own = self.symbol_table.classes.get(cid.0);
        let method_total = method_start.saturating_add(own.methods.len());
        let ctor_total = ctor_start.saturating_add(own.constructors.len());
        let mut field_total = field_start;
        let mut j: usize = 0;
        while j < own.fields.len()
            invariant
                j <= own.fields@.len(),
                *own == start.symbol_table.classes@[cid.0 as int],
                self.symbol_table.fields@ == start.symbol_table.fields@,
                forall|vt: ValueType|
                    #[trigger] kind_count(field_total, vt) == capped(
                        kind_count(field_start, vt) + instance_kind_fields(
                            start.symbol_table.fields@,
                            own.fields@.take(j as int),
                            vt,
                        ),
                    ),
            decreases own.fields.len() - j,
        {
            let fid = own.fields[j];
            proof {
                assert(own.fields@.take(j + 1).drop_last() =~= own.fields@.take(j as int));
                assert(own.fields@.take(j + 1).last() == fid);
            }
            if fid.0 < self.symbol_table.fields.len() && !self.symbol_table.fields.get(fid.0).is_static {
                let ghost before = field_total;
                count_instance_field(&mut field_total, &self.symbol_table.fields.get(fid.0).field_type);
                proof {
                    assert forall|vt: ValueType| #[trigger] kind_count(field_total, vt) == capped(
                        kind_count(field_start, vt) + instance_kind_fields(
                            start.symbol_table.fields@,
                            own.fields@.take(j + 1),
                            vt,
                        ),
                    ) by {
                        if vt == count_kind(self.symbol_table.fields@[fid.0 as int].field_type) {
                            lemma_capped_add(
                                kind_count(field_start, vt) + instance_kind_fields(
                                    start.symbol_table.fields@,
                                    own.fields@.take(j as int),
                                    vt,
                                ),
                                1,
                            );
                        }
                    }
                }
            }
            j = j + 1;
        }
        proof {
            assert(own.fields@.take(own.fields@.len() as int) =~= own.fields@);
        }
        let mut override_ids: HashMap<usize, usize> = HashMap::new();
        if let Some(sid) = super_id {
            let mut k: usize = 0;
            while k < own.methods.len()
                invariant
                    k <= own.methods@.len(),
                    *own == start.symbol_table.classes@[cid.0 as int],
                    super_id == Some(sid),
                    self.symbol_table.classes@ == start.symbol_table.classes@,
                    self.symbol_table.methods@ == start.symbol_table.methods@,
                    self.symbol_table.parameters@ == start.symbol_table.parameters@,
                    override_ids@ == override_map(
                        start.symbol_table.classes@,
                        start.symbol_table.methods@,
                        start.symbol_table.parameters@,
                        super_id,
                        method_start,
                        own.methods@.take(k as int),
                    ),
                decreases own.methods.len() - k,
            {
                let mid = own.methods[k];
                proof {
                    assert(own.methods@.take(k + 1).drop_last() =~= own.methods@.take(k as int));
                    assert(own.methods@.take(k + 1).last() == mid);
                }
                if mid.0 < self.symbol_table.methods.len() {
                    let mi = self.symbol_table.methods.get(mid.0);
                    if !mi.is_static {
                        if let Some(overridden) = self.find_overridden_method(sid, mi) {
                            override_ids.insert(overridden, method_start.saturating_add(k));
                        }
                    }
                }
                k = k + 1;
            }
            proof {
                assert(own.methods@.take(own.methods@.len() as int) =~= own.methods@);
            }
        } else {
            proof {
                lemma_override_map_without_super(
                    start.symbol_table.classes@,
                    start.symbol_table.methods@,
                    start.symbol_table.parameters@,
                    method_start,
                    own.methods@,
                );
            }
        }
        let cnt = self.injector_constructor_count(cid);
        if cnt > 0 {
            let slots = self.injector_impl_slots(&own.constructors, ctor_start, cnt);
            let name = own.name.clone();
            self.injector_constructor_impl_id.push((name, slots));
        }
        let iface_map = self.build_interface_impl_map(cid);
        self.check_interface_impl_completeness(cid, &iface_map);
        let mut iface_ids: HashMap<String, Vec<usize>> = HashMap::new();
        let mut q: usize = 0;
        while q < iface_map.len()
            decreases iface_map.len() - q,
        {
            iface_ids.insert(iface_map[q].0.clone(), iface_map[q].1.clone());
            q = q + 1;
        }
        let ghost before_write = self.symbol_table;
        let c = self.symbol_table.classes.get_mut(cid.0);
        c.method_start_id = method_start;
        c.method_count_total = method_total;
        c.constructor_start_id = ctor_start;
        c.constructor_count_total = ctor_total;
        c.field_start_type_count = field_start;
        c.field_type_count_total = field_total;
        c.method_override_id = override_ids;
        c.interface_method_impl_id = iface_ids;
        c.inheritance_frozen = true;
        proof {
            assert forall|i: int| 0 <= i < self.symbol_table.classes@.len() implies (
            #[trigger] self.symbol_table.classes@[i]).scope_id.0 < self.symbol_table.scopes@.len() by {
                assert(before_write.classes@[i].scope_id == self.symbol_table.classes@[i].scope_id);
            }
        }
    }
}

/// A class with no super class overrides nothing.
proof fn lemma_override_map_without_super(
    classes: Seq<ClassInfo>,
    methods: Seq<MethodInfo>,
    params: Seq<ParameterInfo>,
    start: usize,
    ms: Seq<MethodId>,
)
    ensures
        override_map(classes, methods, params, None, start, ms) == Map::<usize, usize>::empty(),
    decreases ms.len(),
{
    if ms.len() > 0 {
        lemma_override_map_without_super(classes, methods, params, start, ms.drop_last());
    }
}


/// The depth of each class of `classes` in its inheritance chain.
pub open spec fn depth_seq(classes: Seq<ClassInfo>) -> Seq<usize> {
    Seq::new(classes.len(), |y: int| class_depth(classes, y) as usize)
}

/// Whether class `x` comes before position `(d, c)` in the freezing order:
/// by depth first, then by number.
pub open spec fn taken_before(depths: Seq<usize>, x: int, d: int, c: int) -> bool {
    depths[x] < d || (depths[x] == d && x < c)
}

/// Whether every class but the native ones has its declaration frozen.
pub open spec fn declarations_frozen(classes: Seq<ClassInfo>) -> bool {
    forall|x: int| 0 <= x < classes.len() ==> #[trigger] classes[x].is_native || classes[x].declaration_frozen
}

/// Class `x` of `classes` is numbered after its super class `s` where `s` is
/// frozen first: its methods, constructors and fields of each kind start at
/// the totals of `s`.
pub open spec fn numbered_after_super(classes: Seq<ClassInfo>, depths: Seq<usize>, x: int) -> bool {
    match classes[x].super_class {
        Some(s) => (s.0 < classes.len() && depths[s.0 as int] < depths[x]) ==> {
            &&& classes[x].method_start_id == classes[s.0 as int].method_count_total
            &&& classes[x].constructor_start_id == classes[s.0 as int].constructor_count_total
            &&& classes[x].field_start_type_count == classes[s.0 as int].field_type_count_total
        },
        None => true,
    }
}

/// Whether every class met going up from the super class of class `x` in
/// `classes` is shallower than `x` (so frozen before it).
pub open spec fn ancestors_shallower(classes: Seq<ClassInfo>, depths: Seq<usize>, x: int) -> bool {
    forall|c: ClassId|
        #![trigger chain_reaches(classes, classes[x].super_class, c, classes.len() as nat)]
        c.0 < classes.len() && chain_reaches(classes, classes[x].super_class, c, classes.len() as nat)
            ==> depths[c.0 as int] < depths[x]
}

/// Whether `rank` orders the inheritance of `classes` with no cycle: every
/// class ranks above its super class, and no rank reaches a thousand (the
/// depth up to which chains are followed).
pub open spec fn ranked_hierarchy(classes: Seq<ClassInfo>, rank: Seq<nat>) -> bool {
    &&& rank.len() == classes.len()
    &&& forall|x: int| 0 <= x < classes.len() ==> #[trigger] rank[x] < 1000
    &&& forall|x: int|
        0 <= x < classes.len() ==> match (#[trigger] classes[x]).super_class {
            Some(s) => s.0 < classes.len() ==> rank[s.0 as int] < rank[x],
            None => true,
        }
}

proof fn lemma_chain_depth_bounded(classes: Seq<ClassInfo>, cur: Option<ClassId>, fuel: nat)
    ensures
        chain_depth(classes, cur, fuel) <= fuel,
    decreases fuel,
{
    match cur {
        Some(s) => {
            if fuel > 0 && s.0 < classes.len() {
                lemma_chain_depth_bounded(classes, classes[s.0 as int].super_class, (fuel - 1) as nat);
            }
        },
        None => {},
    }
}

/// Above the rank of class `c`, the depth of its chain no longer depends on
/// how far the chain is followed.
proof fn lemma_chain_depth_settled(classes: Seq<ClassInfo>, rank: Seq<nat>, c: int, fuel: nat)
    requires
        ranked_hierarchy(classes, rank),
        0 <= c < classes.len(),
        fuel > rank[c],
    ensures
        chain_depth(classes, classes[c].super_class, fuel) == class_depth(classes, c),
    decreases rank[c],
{
    assert(rank[c] < 1000);
    match classes[c].super_class {
        Some(s) => {
            if s.0 < classes.len() {
                assert(rank[s.0 as int] < rank[c]);
                lemma_chain_depth_settled(classes, rank, s.0 as int, (fuel - 1) as nat);
                lemma_chain_depth_settled(classes, rank, s.0 as int, 1000);
            }
        },
        None => {},
    }
}

/// In a ranked hierarchy a class is one deeper than its super class.
proof fn lemma_depth_of_super(classes: Seq<ClassInfo>, rank: Seq<nat>, c: int)
    requires
        ranked_hierarchy(classes, rank),
        0 <= c < classes.len(),
        classes[c].super_class matches Some(s) && s.0 < classes.len(),
    ensures
        class_depth(classes, c) == class_depth(classes, (classes[c].super_class->0).0 as int) + 1,
{
    let s = (classes[c].super_class->0).0 as int;
    assert(rank[c] < 1000);
    assert(rank[s] < rank[c]);
    lemma_chain_depth_settled(classes, rank, s, 1000);
}

/// Every class that the chain from `cur` reaches is no deeper than the class `cur` names.
proof fn lemma_reached_not_deeper(classes: Seq<ClassInfo>, rank: Seq<nat>, s: ClassId, c: ClassId, fuel: nat)
    requires
        ranked_hierarchy(classes, rank),
        chain_reaches(classes, Some(s), c, fuel),
    ensures
        s.0 < classes.len(),
        class_depth(classes, c.0 as int) <= class_depth(classes, s.0 as int),
    decreases fuel,
{
    if s != c {
        let t = classes[s.0 as int].super_class;
        match t {
            Some(tt) => {
                assert(chain_reaches(classes, t, c, (fuel - 1) as nat));
                lemma_reached_not_deeper(classes, rank, tt, c, (fuel - 1) as nat);
                lemma_depth_of_super(classes, rank, s.0 as int);
                assert(class_depth(classes, s.0 as int) == class_depth(classes, tt.0 as int) + 1);
            },
            None => {
                assert(!chain_reaches(classes, t, c, (fuel - 1) as nat));
            },
        }
    } else {
        assert(c.0 == s.0);
    }
}

/// With no cycle in the inheritance, every class met going up from a class
/// is shallower than it, so the freezing order numbers each class after its
/// super class.
pub proof fn lemma_ranked_hierarchy_ancestors_shallower(classes: Seq<ClassInfo>, rank: Seq<nat>, x: int)
    requires
        ranked_hierarchy(classes, rank),
        0 <= x < classes.len(),
    ensures
        ancestors_shallower(classes, depth_seq(classes), x),
{
    assert forall|c: ClassId|
        c.0 < classes.len() && chain_reaches(classes, classes[x].super_class, c, classes.len() as nat)
        implies depth_seq(classes)[c.0 as int] < depth_seq(classes)[x] by {
        let s = classes[x].super_class->0;
        lemma_reached_not_deeper(classes, rank, s, c, classes.len() as nat);
        lemma_depth_of_super(classes, rank, x);
        lemma_chain_depth_bounded(classes, classes[x].super_class, 1001);
        lemma_chain_depth_bounded(classes, classes[c.0 as int].super_class, 1001);
    }
}

/// Whether class `x` of `classes` maps each method it overrides to its own.
pub open spec fn overrides_mapped(
    classes: Seq<ClassInfo>,
    methods: Seq<MethodInfo>,
    params: Seq<ParameterInfo>,
    x: int,
) -> bool {
    classes[x].method_override_id@ == override_map(
        classes,
        methods,
        params,
        classes[x].super_class,
        classes[x].method_start_id,
        classes[x].methods@,
    )
}

/// Looking a method up a chain of classes reads only the classes on it.
proof fn lemma_chain_method_off_chain(
    a: Seq<ClassInfo>,
    b: Seq<ClassInfo>,
    s: Seq<ClassInfo>,
    z: int,
    methods: Seq<MethodInfo>,
    params: Seq<ParameterInfo>,
    cur: Option<ClassId>,
    name: Seq<char>,
    is_static: bool,
    ps: Seq<ParameterId>,
    fuel: nat,
)
    requires
        a.len() == b.len(),
        a.len() == s.len(),
        forall|i: int| 0 <= i < a.len() ==> (#[trigger] a[i]).super_class == s[i].super_class,
        forall|i: int| 0 <= i < a.len() && i != z ==> #[trigger] a[i] == b[i],
        !chain_reaches(s, cur, ClassId(z as usize), fuel),
        0 <= z < a.len(),
    ensures
        chain_method(a, methods, params, cur, name, is_static, ps, fuel) == chain_method(
            b,
            methods,
            params,
            cur,
            name,
            is_static,
            ps,
            fuel,
        ),
    decreases fuel,
{
    if let Some(c) = cur {
        if fuel > 0 && c.0 < a.len() {
            assert(c.0 != z);
            assert(a[c.0 as int] == b[c.0 as int]);
            assert(a[c.0 as int].super_class == s[c.0 as int].super_class);
            lemma_chain_method_off_chain(
                a,
                b,
                s,
                z,
                methods,
                params,
                a[c.0 as int].super_class,
                name,
                is_static,
                ps,
                (fuel - 1) as nat,
            );
        }
    }
}

/// The override map of a class reads only the classes above it.
proof fn lemma_override_map_off_chain(
    a: Seq<ClassInfo>,
    b: Seq<ClassInfo>,
    s: Seq<ClassInfo>,
    z: int,
    methods: Seq<MethodInfo>,
    params: Seq<ParameterInfo>,
    sup: Option<ClassId>,
    start: usize,
    ms: Seq<MethodId>,
)
    requires
        a.len() == b.len(),
        a.len() == s.len(),
        forall|i: int| 0 <= i < a.len() ==> (#[trigger] a[i]).super_class == s[i].super_class,
        forall|i: int| 0 <= i < a.len() && i != z ==> #[trigger] a[i] == b[i],
        !chain_reaches(s, sup, ClassId(z as usize), s.len() as nat),
        0 <= z < a.len(),
    ensures
        override_map(a, methods, params, sup, start, ms) == override_map(b, methods, params, sup, start, ms),
    decreases ms.len(),
{
    if ms.len() > 0 {
        lemma_override_map_off_chain(a, b, s, z, methods, params, sup, start, ms.drop_last());
        let m = ms.last();
        if sup is Some && m.0 < methods.len() && !methods[m.0 as int].is_static {
            lemma_chain_method_off_chain(
                a,
                b,
                s,
                z,
                methods,
                params,
                sup,
                methods[m.0 as int].name@,
                false,
                methods[m.0 as int].parameters@,
                a.len() as nat,
            );
        }
    }
}

/// Every class of `classes` is frozen: its totals counted, its fields
/// counted, numbered from 0 if it has no super class and after its super
/// class otherwise (the depths taken from `before`, whose super classes it
/// keeps).
pub open spec fn all_frozen(classes: Seq<ClassInfo>, fields: Seq<FieldInfo>, before: Seq<ClassInfo>) -> bool {
    forall|x: int|
        0 <= x < classes.len() ==> {
            &&& #[trigger] totals_counted(classes, x)
            &&& fields_counted(classes, fields, x)
            &&& root_starts_at_zero(classes, x)
            &&& numbered_after_super(classes, depth_seq(before), x)
            &&& classes[x].super_class == before[x].super_class
        }
}

/// Class `x` of `classes` counts, for each kind, its own instance fields on
/// top of the fields it starts from.
pub open spec fn fields_counted(classes: Seq<ClassInfo>, fields: Seq<FieldInfo>, x: int) -> bool {
    forall|vt: ValueType|
        #[trigger] kind_count(classes[x].field_type_count_total, vt) == capped(
            kind_count(classes[x].field_start_type_count, vt) + instance_kind_fields(
                fields,
                classes[x].fields@,
                vt,
            ),
        )
}

/// Class `x` of `classes`, if it has no super class, is numbered from 0.
pub open spec fn root_starts_at_zero(classes: Seq<ClassInfo>, x: int) -> bool {
    classes[x].super_class is None ==> {
        &&& classes[x].method_start_id == 0
        &&& classes[x].constructor_start_id == 0
        &&& classes[x].field_start_type_count == zero_count()
    }
}

/// Class `x` of `classes` is frozen: its totals count its own methods and
/// constructors after its start, and its inheritance is frozen.
pub open spec fn totals_counted(classes: Seq<ClassInfo>, x: int) -> bool {
    &&& classes[x].inheritance_frozen
    &&& classes[x].method_count_total == capped(classes[x].method_start_id + classes[x].methods@.len())
    &&& classes[x].constructor_count_total == capped(
        classes[x].constructor_start_id + classes[x].constructors@.len(),
    )
}

impl Compiler {
    /// Freezes the numbering of every class, each super class before its
    /// subclasses: classes are taken by increasing depth in their inheritance
    /// chain, and by number within one depth. Each class that is not native
    /// and whose declaration is not frozen is reported first, and nothing is
    /// frozen if an error has been reported by then.
    #[verifier::spinoff_prover]
    #[verifier::rlimit(40)]
    pub fn freeze_inheritance(&mut self)
        requires
            old(self).wf(),
        ensures
            final(self).wf(),
            final(self).reports_after(*old(self)),
            final(self).symbol_table.classes@.len() == old(self).symbol_table.classes@.len(),
            !declarations_frozen(old(self).symbol_table.classes@) ==> has_error(final(self).diagnostics.items@),
            if !has_error(old(self).diagnostics.items@) && declarations_frozen(old(self).symbol_table.classes@) {
                all_frozen(
                    final(self).symbol_table.classes@,
                    final(self).symbol_table.fields@,
                    old(self).symbol_table.classes@,
                )
            } else {
                final(self).symbol_table == old(self).symbol_table
            },
            final(self).tasks@ == old(self).tasks@,
            final(self).current_namespace_id == old(self).current_namespace_id,
            final(self).class_annotations@ == old(self).class_annotations@,
            final(self).injector_fields@ == old(self).injector_fields@,
            forall|x: int|
                0 <= x < old(self).symbol_table.classes@.len() ==> (#[trigger] final(self).symbol_table.classes@[x]).fields@
                    == old(self).symbol_table.classes@[x].fields@
                    && final(self).symbol_table.classes@[x].super_class == old(self).symbol_table.classes@[x].super_class,
            final(self).symbol_table.fields@ == old(self).symbol_table.fields@,
            names_kept(old(self).symbol_table, final(self).symbol_table),
            !has_error(old(self).diagnostics.items@) && declarations_frozen(old(self).symbol_table.classes@)
                ==> forall|x: int|
                0 <= x < final(self).symbol_table.classes@.len() && ancestors_shallower(
                    old(self).symbol_table.classes@,
                    depth_seq(old(self).symbol_table.classes@),
                    x,
                ) ==> #[trigger] overrides_mapped(
                    final(self).symbol_table.classes@,
                    final(self).symbol_table.methods@,
                    final(self).symbol_table.parameters@,
                    x,
                ),
    {
        let ghost start = *self;
        let n = self.symbol_table.classes.len();
        let mut depths: Vec<usize> = Vec::new();
        let mut c: usize = 0;
        while c < n
            invariant
                names_kept(start.symbol_table, self.symbol_table),
                c <= n,
                n == self.symbol_table.classes@.len(),
                depths@.len() == c,
                forall|y: int| 0 <= y < c ==> #[trigger] depths@[y] == class_depth(self.symbol_table.classes@, y),
                forall|y: int| 0 <= y < c ==> #[trigger] depths@[y] <= 1001,
            decreases n - c,
        {
            depths.push(self.inheritance_depth(ClassId(c)));
            c = c + 1;
        }
        let ghost dseq = Seq::new(n as nat, |y: int| class_depth(start.symbol_table.classes@, y) as usize);
        proof {
            assert(depths@ =~= dseq);
        }
        let mut d: usize = 0;
        while d <= 1001
            invariant
                names_kept(start.symbol_table, self.symbol_table),
                self.wf(),
                self.reports_after(start),
                self.only_reports_changed(start),
                n == self.symbol_table.classes@.len(),
                depths@ == dseq,
                dseq.len() == n,
                d <= 1002,
                (forall|x: int|
                    0 <= x < n && taken_before(depths@, x, d as int, 0)
                        ==> #[trigger] self.symbol_table.classes@[x].is_native
                        || self.symbol_table.classes@[x].declaration_frozen) ==> self.diagnostics.items@
                    == start.diagnostics.items@,
                (exists|x: int|
                    0 <= x < n && taken_before(depths@, x, d as int, 0)
                        && !(#[trigger] self.symbol_table.classes@[x].is_native
                        || self.symbol_table.classes@[x].declaration_frozen)) ==> has_error(
                    self.diagnostics.items@,
                ),
            decreases 1002 - d,
        {
            let mut c: usize = 0;
            while c < n
                invariant
                    names_kept(start.symbol_table, self.symbol_table),
                    self.wf(),
                    self.reports_after(start),
                    self.only_reports_changed(start),
                    n == self.symbol_table.classes@.len(),
                    depths@ == dseq,
                    dseq.len() == n,
                    c <= n,
                    d <= 1001,
                    (forall|x: int|
                        0 <= x < n && taken_before(depths@, x, d as int, c as int)
                            ==> #[trigger] self.symbol_table.classes@[x].is_native
                            || self.symbol_table.classes@[x].declaration_frozen) ==> self.diagnostics.items@
                        == start.diagnostics.items@,
                    (exists|x: int|
                        0 <= x < n && taken_before(depths@, x, d as int, c as int)
                            && !(#[trigger] self.symbol_table.classes@[x].is_native
                            || self.symbol_table.classes@[x].declaration_frozen)) ==> has_error(
                        self.diagnostics.items@,
                    ),
                decreases n - c,
            {
                let ghost before = self.diagnostics.items@;
                let ghost mut reported = false;
                if depths[c] == d {
                    let ci = self.symbol_table.classes.get(c);
                    if !ci.is_native && !ci.declaration_frozen {
                        let msg = String::from_str("类 `").concat(ci.name.as_str()).concat(
                            "` 声明尚未冻结，不能进行继承编号冻结",
                        );
                        let span = ci.span;
                        self.report(span, msg);
                        proof {
                            reported = true;
                            let k = self.diagnostics.items@.len() - 1;
                            assert(self.diagnostics.items@[k].severity == Severity::Error);
                            assert(has_error(self.diagnostics.items@));
                        }
                    }
                }
                proof {
                    let cls = self.symbol_table.classes@;
                    let unfrozen = !(cls[c as int].is_native || cls[c as int].declaration_frozen);
                    assert(!reported ==> self.diagnostics.items@ == before);
                    assert(depths@[c as int] == d && unfrozen ==> reported);
                    if exists|x: int|
                        0 <= x < n && taken_before(depths@, x, d as int, c + 1)
                            && !(#[trigger] cls[x].is_native || cls[x].declaration_frozen) {
                        let x = choose|x: int|
                            0 <= x < n && taken_before(depths@, x, d as int, c + 1)
                                && !(#[trigger] cls[x].is_native || cls[x].declaration_frozen);
                        if taken_before(depths@, x, d as int, c as int) {
                            assert(has_error(before));
                            let w = choose|w: int| 0 <= w < before.len() && before[w].severity == Severity::Error;
                            assert(self.diagnostics.items@[w] == before[w]);
                        } else {
                            assert(x == c && depths@[c as int] == d);
                        }
                    }
                    if forall|x: int|
                        0 <= x < n && taken_before(depths@, x, d as int, c + 1)
                            ==> #[trigger] cls[x].is_native || cls[x].declaration_frozen {
                        assert forall|x: int|
                            0 <= x < n && taken_before(depths@, x, d as int, c as int)
                                implies #[trigger] cls[x].is_native || cls[x].declaration_frozen by {
                            assert(taken_before(depths@, x, d as int, c + 1));
                        }
                        if depths@[c as int] == d {
                            assert(taken_before(depths@, c as int, d as int, c + 1));
                        }
                    }
                }
                c = c + 1;
            }
            proof {
                assert forall|x: int| 0 <= x < n implies taken_before(depths@, x, d as int, n as int)
                    == taken_before(depths@, x, d + 1, 0) by {}
            }
            d = d + 1;
        }
        proof {
            let cls = self.symbol_table.classes@;
            assert(cls == start.symbol_table.classes@);
            if !declarations_frozen(start.symbol_table.classes@) {
                let x = choose|x: int|
                    0 <= x < n && !(#[trigger] start.symbol_table.classes@[x].is_native
                        || start.symbol_table.classes@[x].declaration_frozen);
                assert(taken_before(depths@, x, d as int, 0));
            } else {
                assert forall|x: int| 0 <= x < n && taken_before(depths@, x, d as int, 0)
                    implies #[trigger] cls[x].is_native || cls[x].declaration_frozen by {}
            }
        }
        if self.diagnostics.has_errors() {
            proof {
                assert(self.symbol_table == start.symbol_table);
                if !has_error(start.diagnostics.items@) && declarations_frozen(start.symbol_table.classes@) {
                    assert(self.diagnostics.items@ == start.diagnostics.items@);
                    assert(false);
                }
            }
            return;
        }
        let ghost checked = *self;
        let mut d: usize = 0;
        while d <= 1001
            invariant
                names_kept(start.symbol_table, self.symbol_table),
                self.wf(),
                self.reports_after(checked),
                n == self.symbol_table.classes@.len(),
                n == start.symbol_table.classes@.len(),
                depths@ == dseq,
                dseq.len() == n,
                forall|y: int| 0 <= y < n ==> #[trigger] dseq[y] <= 1001,
                d <= 1002,
                forall|x: int|
                    0 <= x < n ==> (#[trigger] self.symbol_table.classes@[x]).super_class
                        == start.symbol_table.classes@[x].super_class,
                forall|x: int|
                    0 <= x < n ==> (#[trigger] self.symbol_table.classes@[x]).methods@
                        == start.symbol_table.classes@[x].methods@,
                forall|x: int|
                    0 <= x < n ==> (#[trigger] self.symbol_table.classes@[x]).fields@
                        == start.symbol_table.classes@[x].fields@,
                forall|x: int|
                    0 <= x < n ==> (#[trigger] self.symbol_table.classes@[x]).constructors@
                        == start.symbol_table.classes@[x].constructors@,
                forall|x: int|
                    0 <= x < n && #[trigger] dseq[x] < d ==> totals_counted(self.symbol_table.classes@, x)
                        && numbered_after_super(self.symbol_table.classes@, dseq, x)
                        && fields_counted(self.symbol_table.classes@, start.symbol_table.fields@, x)
                        && root_starts_at_zero(self.symbol_table.classes@, x),
                self.symbol_table.fields@ == start.symbol_table.fields@,
                forall|x: int|
                    0 <= x < n && !(#[trigger] dseq[x] < d) ==> self.symbol_table.classes@[x]
                        == start.symbol_table.classes@[x],
                self.symbol_table.methods@ == start.symbol_table.methods@,
                self.symbol_table.parameters@ == start.symbol_table.parameters@,
                forall|x: int|
                    0 <= x < n && dseq[x] < d && ancestors_shallower(start.symbol_table.classes@, dseq, x)
                        ==> #[trigger] overrides_mapped(
                        self.symbol_table.classes@,
                        start.symbol_table.methods@,
                        start.symbol_table.parameters@,
                        x,
                    ),
                self.tasks@ == start.tasks@,
                self.current_namespace_id == start.current_namespace_id,
                self.class_annotations@ == start.class_annotations@,
                self.injector_fields@ == start.injector_fields@,
            decreases 1002 - d,
        {
            let mut c: usize = 0;
            while c < n
                invariant
                    names_kept(start.symbol_table, self.symbol_table),
                    self.wf(),
                    self.reports_after(checked),
                    n == self.symbol_table.classes@.len(),
                    n == start.symbol_table.classes@.len(),
                    depths@ == dseq,
                    dseq.len() == n,
                    c <= n,
                    d <= 1001,
                    forall|x: int|
                        0 <= x < n ==> (#[trigger] self.symbol_table.classes@[x]).super_class
                            == start.symbol_table.classes@[x].super_class,
                    forall|x: int|
                        0 <= x < n ==> (#[trigger] self.symbol_table.classes@[x]).methods@
                            == start.symbol_table.classes@[x].methods@,
                    forall|x: int|
                        0 <= x < n ==> (#[trigger] self.symbol_table.classes@[x]).fields@
                            == start.symbol_table.classes@[x].fields@,
                    forall|x: int|
                        0 <= x < n ==> (#[trigger] self.symbol_table.classes@[x]).constructors@
                            == start.symbol_table.classes@[x].constructors@,
                    forall|x: int|
                        0 <= x < n && taken_before(dseq, x, d as int, c as int) ==> #[trigger] totals_counted(
                            self.symbol_table.classes@,
                            x,
                        ) && numbered_after_super(self.symbol_table.classes@, dseq, x)
                            && fields_counted(self.symbol_table.classes@, start.symbol_table.fields@, x)
                            && root_starts_at_zero(self.symbol_table.classes@, x),
                    self.symbol_table.fields@ == start.symbol_table.fields@,
                    self.symbol_table.methods@ == start.symbol_table.methods@,
                    self.symbol_table.parameters@ == start.symbol_table.parameters@,
                    forall|x: int|
                        0 <= x < n && taken_before(dseq, x, d as int, c as int) && ancestors_shallower(
                            start.symbol_table.classes@,
                            dseq,
                            x,
                        ) ==> #[trigger] overrides_mapped(
                            self.symbol_table.classes@,
                            start.symbol_table.methods@,
                            start.symbol_table.parameters@,
                            x,
                        ),
                    forall|x: int|
                        0 <= x < n && !taken_before(dseq, x, d as int, c as int)
                            ==> #[trigger] self.symbol_table.classes@[x] == start.symbol_table.classes@[x],
                    self.tasks@ == start.tasks@,
                    self.current_namespace_id == start.current_namespace_id,
                    self.class_annotations@ == start.class_annotations@,
                    self.injector_fields@ == start.injector_fields@,
                decreases n - c,
            {
                if depths[c] == d {
                    let ghost before = self.symbol_table;
                    self.freeze_class(ClassId(c));
                    proof {
                        let cls = self.symbol_table.classes@;
                        assert(frozen_from(before, c as int, cls[c as int]));
                        assert forall|x: int|
                            0 <= x < n && taken_before(dseq, x, d as int, c + 1) implies #[trigger] totals_counted(
                            cls,
                            x,
                        ) && numbered_after_super(cls, dseq, x)
                            && fields_counted(cls, start.symbol_table.fields@, x)
                            && root_starts_at_zero(cls, x) by {
                            if x == c {
                                assert(!taken_before(dseq, x, d as int, c as int));
                                assert(before.classes@[x] == start.symbol_table.classes@[x]);
                                assert(cls[x].methods@ == before.classes@[x].methods@);
                                assert(cls[x].constructors@ == before.classes@[x].constructors@);
                                assert(totals_counted(cls, x));
                                if let Some(s) = cls[x].super_class {
                                    if s.0 < n && dseq[s.0 as int] < dseq[x] {
                                        assert(s.0 != c);
                                        assert(cls[s.0 as int] == before.classes@[s.0 as int]);
                                        assert(before.classes@[x].super_class == Some(s));
                                    }
                                }
                                assert(numbered_after_super(cls, dseq, x));
                            } else {
                                assert(taken_before(dseq, x, d as int, c as int));
                                assert(cls[x] == before.classes@[x]);
                                assert(totals_counted(before.classes@, x));
                                assert(numbered_after_super(before.classes@, dseq, x));
                                if let Some(s) = cls[x].super_class {
                                    if s.0 < n && dseq[s.0 as int] < dseq[x] {
                                        if s.0 == c {
                                            assert(dseq[x] <= d);
                                            assert(false);
                                        }
                                        assert(cls[s.0 as int] == before.classes@[s.0 as int]);
                                    }
                                }
                                assert(numbered_after_super(cls, dseq, x));
                            }
                        }
                        assert forall|x: int|
                            0 <= x < n && !taken_before(dseq, x, d as int, c + 1)
                                implies #[trigger] cls[x] == start.symbol_table.classes@[x] by {
                            assert(x != c);
                            assert(cls[x] == before.classes@[x]);
                        }
                        let sc = start.symbol_table.classes@;
                        assert forall|i: int| 0 <= i < n implies (#[trigger] before.classes@[i]).super_class
                            == sc[i].super_class by {}
                        assert forall|i: int| 0 <= i < n && i != c implies #[trigger] before.classes@[i] == cls[i] by {}
                        assert forall|x: int|
                            0 <= x < n && taken_before(dseq, x, d as int, c + 1) && ancestors_shallower(sc, dseq, x)
                                implies #[trigger] overrides_mapped(
                            cls,
                            start.symbol_table.methods@,
                            start.symbol_table.parameters@,
                            x,
                        ) by {
                            let cid = ClassId(c);
                            if chain_reaches(sc, sc[x].super_class, cid, sc.len() as nat) {
                                assert(dseq[c as int] < dseq[x]);
                                assert(false);
                            }
                            lemma_override_map_off_chain(
                                before.classes@,
                                cls,
                                sc,
                                c as int,
                                start.symbol_table.methods@,
                                start.symbol_table.parameters@,
                                sc[x].super_class,
                                cls[x].method_start_id,
                                cls[x].methods@,
                            );
                            if x != c {
                                assert(taken_before(dseq, x, d as int, c as int));
                                assert(cls[x] == before.classes@[x]);
                                assert(overrides_mapped(
                                    before.classes@,
                                    start.symbol_table.methods@,
                                    start.symbol_table.parameters@,
                                    x,
                                ));
                            } else {
                                assert(before.classes@[c as int] == sc[c as int]);
                                assert(before.methods@ == start.symbol_table.methods@);
                                assert(before.parameters@ == start.symbol_table.parameters@);
                                assert(cls[x].super_class == sc[x].super_class);
                                assert(cls[x].methods@ == before.classes@[x].methods@);
                            }
                        }
                    }
                } else {
                    proof {
                        assert forall|x: int|
                            0 <= x < n && taken_before(dseq, x, d as int, c + 1) implies #[trigger] totals_counted(
                            self.symbol_table.classes@,
                            x,
                        ) && numbered_after_super(self.symbol_table.classes@, dseq, x)
                            && fields_counted(self.symbol_table.classes@, start.symbol_table.fields@, x)
                            && root_starts_at_zero(self.symbol_table.classes@, x) by {
                            assert(taken_before(dseq, x, d as int, c as int));
                            assert(totals_counted(self.symbol_table.classes@, x));
                        }
                        assert forall|x: int|
                            0 <= x < n && taken_before(dseq, x, d as int, c + 1) && ancestors_shallower(
                                start.symbol_table.classes@,
                                dseq,
                                x,
                            ) implies #[trigger] overrides_mapped(
                            self.symbol_table.classes@,
                            start.symbol_table.methods@,
                            start.symbol_table.parameters@,
                            x,
                        ) by {
                            assert(taken_before(dseq, x, d as int, c as int));
                        }
                    }
                }
                c = c + 1;
            }
            proof {
                assert forall|x: int| 0 <= x < n && #[trigger] dseq[x] < d + 1 implies totals_counted(
                    self.symbol_table.classes@,
                    x,
                ) && numbered_after_super(self.symbol_table.classes@, dseq, x)
                    && fields_counted(self.symbol_table.classes@, start.symbol_table.fields@, x)
                    && root_starts_at_zero(self.symbol_table.classes@, x) by {
                    assert(taken_before(dseq, x, d as int, n as int));
                }
                assert forall|x: int| 0 <= x < n && !(#[trigger] dseq[x] < d + 1) implies self.symbol_table.classes@[x]
                    == start.symbol_table.classes@[x] by {
                    assert(!taken_before(dseq, x, d as int, n as int));
                }
                assert forall|x: int|
                    0 <= x < n && dseq[x] < d + 1 && ancestors_shallower(start.symbol_table.classes@, dseq, x)
                        implies #[trigger] overrides_mapped(
                        self.symbol_table.classes@,
                        start.symbol_table.methods@,
                        start.symbol_table.parameters@,
                        x,
                    ) by {
                    assert(taken_before(dseq, x, d as int, n as int));
                }
            }
            d = d + 1;
        }
        proof {
            assert(!has_error(start.diagnostics.items@)) by {
                if has_error(start.diagnostics.items@) {
                    let w = choose|w: int|
                        0 <= w < start.diagnostics.items@.len()
                            && start.diagnostics.items@[w].severity == Severity::Error;
                    assert(checked.diagnostics.items@[w] == start.diagnostics.items@[w]);
                }
            }
            assert(declarations_frozen(start.symbol_table.classes@));
            assert(dseq =~= depth_seq(start.symbol_table.classes@));
            assert forall|x: int|
                0 <= x < n && ancestors_shallower(start.symbol_table.classes@, depth_seq(start.symbol_table.classes@), x)
                    implies #[trigger] overrides_mapped(
                    self.symbol_table.classes@,
                    self.symbol_table.methods@,
                    self.symbol_table.parameters@,
                    x,
                ) by {
                assert(dseq[x] < d);
            }
            assert forall|x: int| 0 <= x < n implies #[trigger] totals_counted(self.symbol_table.classes@, x) by {
                assert(dseq[x] < d);
            }
            assert forall|x: int| 0 <= x < n implies numbered_after_super(self.symbol_table.classes@, dseq, x) by {
                assert(dseq[x] < d);
            }
            assert forall|x: int| 0 <= x < n implies #[trigger] totals_counted(self.symbol_table.classes@, x)
                && fields_counted(self.symbol_table.classes@, self.symbol_table.fields@, x)
                && root_starts_at_zero(self.symbol_table.classes@, x) && numbered_after_super(
                self.symbol_table.classes@,
                dseq,
                x,
            ) && self.symbol_table.classes@[x].super_class == start.symbol_table.classes@[x].super_class by {
                assert(dseq[x] < d);
                assert(totals_counted(self.symbol_table.classes@, x));
            }
            assert forall|x: int|
                0 <= x < self.symbol_table.classes@.len() implies {
                    &&& #[trigger] totals_counted(self.symbol_table.classes@, x)
                    &&& fields_counted(self.symbol_table.classes@, self.symbol_table.fields@, x)
                    &&& root_starts_at_zero(self.symbol_table.classes@, x)
                    &&& numbered_after_super(
                        self.symbol_table.classes@,
                        depth_seq(start.symbol_table.classes@),
                        x,
                    )
                    &&& self.symbol_table.classes@[x].super_class == start.symbol_table.classes@[x].super_class
                } by {
                assert(totals_counted(self.symbol_table.classes@, x));
            }
            assert(all_frozen(self.symbol_table.classes@, self.symbol_table.fields@, start.symbol_table.classes@));
        }
    }
}


/// The depth of a class in its chain depends on the super classes alone.
proof fn lemma_chain_depth_same_supers(a: Seq<ClassInfo>, b: Seq<ClassInfo>, cur: Option<ClassId>, fuel: nat)
    requires
        a.len() == b.len(),
        forall|x: int| 0 <= x < a.len() ==> (#[trigger] a[x]).super_class == b[x].super_class,
    ensures
        chain_depth(a, cur, fuel) == chain_depth(b, cur, fuel),
    decreases fuel,
{
    if let Some(s) = cur {
        if fuel > 0 && s.0 < a.len() {
            lemma_chain_depth_same_supers(a, b, a[s.0 as int].super_class, (fuel - 1) as nat);
        }
    }
}

/// Freezing keeps the super classes, so the numbering law stated over the
/// depths before the freeze holds over the depths after it.
proof fn lemma_frozen_numbering(cls: Seq<ClassInfo>, old_cls: Seq<ClassInfo>)
    requires
        cls.len() == old_cls.len(),
        forall|x: int| 0 <= x < cls.len() ==> #[trigger] totals_counted(cls, x),
        forall|x: int| 0 <= x < cls.len() ==> #[trigger] numbered_after_super(cls, depth_seq(old_cls), x),
        forall|x: int| 0 <= x < cls.len() ==> (#[trigger] cls[x]).super_class == old_cls[x].super_class,
    ensures
        forall|x: int| 0 <= x < cls.len() ==> #[trigger] totals_counted(cls, x),
        forall|x: int| 0 <= x < cls.len() ==> #[trigger] numbered_after_super(cls, depth_seq(cls), x),
{
    assert forall|y: int| 0 <= y < cls.len() implies class_depth(cls, y) == class_depth(old_cls, y) by {
        lemma_chain_depth_same_supers(cls, old_cls, cls[y].super_class, 1001);
    }
    assert(depth_seq(cls) =~= depth_seq(old_cls));
    assert forall|x: int| 0 <= x < cls.len() implies #[trigger] numbered_after_super(cls, depth_seq(cls), x) by {
        assert(numbered_after_super(cls, depth_seq(old_cls), x));
    }
}

/// The kind of value that expression `e` gives, as far as its form shows: a
/// literal's own kind, a binary expression a float if either side is one,
/// else an integer if either side is one, a unary expression that of its
/// operand, and an object for anything else.
pub open spec fn inferred_kind(e: Expression) -> ValueType
    decreases e,
{
    match e {
        Expression::Literal(lit, _) => match lit {
            Literal::Int(_) => ValueType::Int,
            Literal::Float(_) => ValueType::Float,
            Literal::Bool(_) => ValueType::Bool,
            Literal::String(_) => ValueType::String,
        },
        Expression::Binary { left, right, .. } => {
            let l = inferred_kind(*left);
            let r = inferred_kind(*right);
            if l == ValueType::Float || r == ValueType::Float {
                ValueType::Float
            } else if l == ValueType::Int || r == ValueType::Int {
                ValueType::Int
            } else {
                ValueType::Object
            }
        },
        Expression::Unary { operand, .. } => inferred_kind(*operand),
        _ => ValueType::Object,
    }
}

/// Whether the type written `tr` names `ti` in `st`: a primitive by its
/// keyword, else a class or an enum by its name.
pub open spec fn written_type_names(st: SymbolTable, tr: TypeRef, ti: TypeInfo) -> bool {
    match tr {
        TypeRef::Simple { name, .. } => if name@ == "int"@ {
            ti is Int
        } else if name@ == "float"@ {
            ti is Float
        } else if name@ == "bool"@ {
            ti is Bool
        } else if name@ == "string"@ {
            ti is String
        } else if name@ == "void"@ {
            ti is Void
        } else {
            match ti {
                TypeInfo::Object(c) => c.0 < st.classes@.len() && st.classes@[c.0 as int].name@ == name@,
                TypeInfo::Enum(e) => e.0 < st.enums@.len() && st.enums@[e.0 as int].name@ == name@,
                _ => false,
            }
        },
        _ => false,
    }
}

/// The position of the first method among `members` named `name`.
pub open spec fn first_method_named(members: Seq<ClassMember>, name: Seq<char>) -> Option<int>
    decreases members.len(),
{
    if members.len() == 0 {
        None
    } else {
        match first_method_named(members.drop_last(), name) {
            Some(i) => Some(i),
            None => match members.last() {
                ClassMember::Method(m) => if m.name@ == name {
                    Some(members.len() - 1)
                } else {
                    None
                },
                _ => None,
            },
        }
    }
}

/// The position of the first constructor among `members`.
pub open spec fn first_constructor(members: Seq<ClassMember>) -> Option<int>
    decreases members.len(),
{
    if members.len() == 0 {
        None
    } else {
        match first_constructor(members.drop_last()) {
            Some(i) => Some(i),
            None => if members.last() is Constructor {
                Some(members.len() - 1)
            } else {
                None
            },
        }
    }
}

/// Whether the parameters `ps` are written with types naming, one by one,
/// the types of the recorded parameters `ids`.
pub open spec fn params_written_as(st: SymbolTable, ps: Seq<Parameter>, ids: Seq<ParameterId>) -> bool {
    &&& ps.len() == ids.len()
    &&& forall|i: int|
        0 <= i < ps.len() ==> (#[trigger] ids[i]).0 < st.parameters@.len() && written_type_names(
            st,
            ps[i].param_type,
            st.parameters@[ids[i].0 as int].param_type,
        )
}

/// Whether member `m` is a method named `name` whose parameters are written
/// as the recorded parameters `ids`.
pub open spec fn method_written_as(st: SymbolTable, m: ClassMember, name: Seq<char>, ids: Seq<ParameterId>) -> bool {
    match m {
        ClassMember::Method(md) => md.name@ == name && params_written_as(st, md.parameters@, ids),
        _ => false,
    }
}

/// Whether member `m` is a constructor whose parameters are written as the
/// recorded parameters `ids`.
pub open spec fn constructor_written_as(st: SymbolTable, m: ClassMember, ids: Seq<ParameterId>) -> bool {
    match m {
        ClassMember::Constructor(c) => params_written_as(st, c.parameters@, ids),
        _ => false,
    }
}

/// The body of member `m` where it is a method that has one.
pub open spec fn method_body_of(m: ClassMember) -> Option<Vec<Statement>> {
    match m {
        ClassMember::Method(md) => md.body,
        _ => None,
    }
}

/// Whether member `i` of `members` is the first method named `name` whose
/// parameters are written as the recorded parameters `ids`.
pub open spec fn first_method_written_as(
    st: SymbolTable,
    members: Seq<ClassMember>,
    i: int,
    name: Seq<char>,
    ids: Seq<ParameterId>,
) -> bool {
    &&& 0 <= i < members.len()
    &&& method_written_as(st, members[i], name, ids)
    &&& forall|j: int| 0 <= j < i ==> !method_written_as(st, #[trigger] members[j], name, ids)
}

/// Whether member `i` of `members` is the first constructor whose parameters
/// are written as the recorded parameters `ids`.
pub open spec fn first_constructor_written_as(
    st: SymbolTable,
    members: Seq<ClassMember>,
    i: int,
    ids: Seq<ParameterId>,
) -> bool {
    &&& 0 <= i < members.len()
    &&& constructor_written_as(st, members[i], ids)
    &&& forall|j: int| 0 <= j < i ==> !constructor_written_as(st, #[trigger] members[j], ids)
}

impl Compiler {
    /// The kind of value that expression `expr` gives, as far as its form shows.
    pub fn infer_expression_value_type(expr: &Expression) -> (r: ValueType)
        ensures
            r == inferred_kind(*expr),
        decreases expr,
    {
        match expr {
            Expression::Literal(Literal::Int(_), _) => ValueType::Int,
            Expression::Literal(Literal::Float(_), _) => ValueType::Float,
            Expression::Literal(Literal::Bool(_), _) => ValueType::Bool,
            Expression::Literal(Literal::String(_), _) => ValueType::String,
            Expression::Binary { left, right, .. } => {
                let l = Self::infer_expression_value_type(left);
                let r = Self::infer_expression_value_type(right);
                if l == ValueType::Float || r == ValueType::Float {
                    ValueType::Float
                } else if l == ValueType::Int || r == ValueType::Int {
                    ValueType::Int
                } else {
                    ValueType::Object
                }
            },
            Expression::Unary { operand, .. } => Self::infer_expression_value_type(operand),
            _ => ValueType::Object,
        }
    }

    /// `Err(Cancelled)` where a token is given and has been cancelled. The
    /// flag is shared with other threads, so what it reads is not stated;
    /// without a token the result is `Ok`.
    pub fn check_cancelled(token: &Option<CancellationToken>) -> (r: Result<(), CompileError>)
        ensures
            token is None ==> r is Ok,
            r matches Err(e) ==> e == CompileError::Cancelled,
    {
        match token {
            Some(t) => Self::cancellation_outcome(t.is_cancelled()),
            None => Ok(()),
        }
    }

    /// What a checkpoint gives once it knows whether the token was
    /// cancelled: `Err(Cancelled)` if it was, `Ok` otherwise.
    pub fn cancellation_outcome(cancelled: bool) -> (r: Result<(), CompileError>)
        ensures
            r == if cancelled {
                Err::<(), CompileError>(CompileError::Cancelled)
            } else {
                Ok::<(), CompileError>(())
            },
    {
        if cancelled {
            Err(CompileError::Cancelled)
        } else {
            Ok(())
        }
    }

    /// Whether the type written `tr` names `ti`: a primitive by its keyword,
    /// else a class or an enum by its name.
    pub fn type_ref_matches_type_info(&self, tr: &TypeRef, ti: &TypeInfo) -> (r: bool)
        ensures
            r == written_type_names(self.symbol_table, *tr, *ti),
    {
        match tr {
            TypeRef::Simple { name, .. } => {
                proof {
                    reveal_strlit("int");
                    reveal_strlit("float");
                    reveal_strlit("bool");
                    reveal_strlit("string");
                    reveal_strlit("void");
                }
                let int_kw = ['i', 'n', 't'];
                let float_kw = ['f', 'l', 'o', 'a', 't'];
                let bool_kw = ['b', 'o', 'o', 'l'];
                let string_kw = ['s', 't', 'r', 'i', 'n', 'g'];
                let void_kw = ['v', 'o', 'i', 'd'];
                assert(int_kw@ =~= "int"@);
                assert(float_kw@ =~= "float"@);
                assert(bool_kw@ =~= "bool"@);
                assert(string_kw@ =~= "string"@);
                assert(void_kw@ =~= "void"@);
                if text_is(name.as_str(), &int_kw) {
                    matches!(ti, TypeInfo::Int)
                } else if text_is(name.as_str(), &float_kw) {
                    matches!(ti, TypeInfo::Float)
                } else if text_is(name.as_str(), &bool_kw) {
                    matches!(ti, TypeInfo::Bool)
                } else if text_is(name.as_str(), &string_kw) {
                    matches!(ti, TypeInfo::String)
                } else if text_is(name.as_str(), &void_kw) {
                    matches!(ti, TypeInfo::Void)
                } else {
                    match ti {
                        TypeInfo::Object(cid) => cid.0 < self.symbol_table.classes.len()
                            && self.symbol_table.classes.get(cid.0).name == *name,
                        TypeInfo::Enum(eid) => eid.0 < self.symbol_table.enums.len()
                            && self.symbol_table.enums.get(eid.0).name == *name,
                        _ => false,
                    }
                }
            },
            _ => false,
        }
    }

    /// The body of the first method of `class_decl` named `method_name`,
    /// where it has one.
    pub fn find_method_body<'a>(&self, class_decl: &'a ClassDeclaration, method_name: &str) -> (r: Option<&'a Vec<Statement>>)
        ensures
            match first_method_named(class_decl.members@, method_name@) {
                Some(i) => class_decl.members@[i] matches ClassMember::Method(m) && match m.body {
                    Some(b) => r == Some(&b),
                    None => r is None,
                },
                None => r is None,
            },
    {
        let members = &class_decl.members;
        let target = chars_of(method_name);
        let mut i: usize = 0;
        while i < members.len()
            invariant
                i <= members@.len(),
                members@ == class_decl.members@,
                target@ == method_name@,
                first_method_named(members@.take(i as int), method_name@) is None,
            decreases members.len() - i,
        {
            proof {
                assert(members@.take(i + 1).drop_last() =~= members@.take(i as int));
                assert(members@.take(i + 1).last() == members@[i as int]);
            }
            if let ClassMember::Method(m) = &members[i] {
                if text_is(m.name.as_str(), target.as_slice()) {
                    proof {
                        lemma_first_method_prefix(members@, i + 1, method_name@);
                        assert(first_method_named(members@, method_name@) == Some(i as int));
                        assert(members@[i as int] == ClassMember::Method(*m));
                    }
                    return m.body.as_ref();
                }
            }
            i = i + 1;
        }
        proof {
            assert(members@.take(members@.len() as int) =~= members@);
        }
        None
    }

    /// The declaration of the first constructor of `class_decl`.
    pub fn find_constructor_decl<'a>(&self, class_decl: &'a ClassDeclaration) -> (r: Option<&'a ConstructorDeclaration>)
        ensures
            match first_constructor(class_decl.members@) {
                Some(i) => class_decl.members@[i] matches ClassMember::Constructor(c) && r == Some(&c),
                None => r is None,
            },
    {
        let members = &class_decl.members;
        let mut i: usize = 0;
        while i < members.len()
            invariant
                i <= members@.len(),
                members@ == class_decl.members@,
                first_constructor(members@.take(i as int)) is None,
            decreases members.len() - i,
        {
            proof {
                assert(members@.take(i + 1).drop_last() =~= members@.take(i as int));
                assert(members@.take(i + 1).last() == members@[i as int]);
            }
            if let ClassMember::Constructor(c) = &members[i] {
                proof {
                    lemma_first_constructor_prefix(members@, i + 1);
                    assert(first_constructor(members@) == Some(i as int));
                    assert(members@[i as int] == ClassMember::Constructor(*c));
                }
                return Some(c);
            }
            i = i + 1;
        }
        proof {
            assert(members@.take(members@.len() as int) =~= members@);
        }
        None
    }

    /// The body of the first constructor of `class_decl`, where it has one.
    pub fn find_constructor_body<'a>(&self, class_decl: &'a ClassDeclaration) -> (r: Option<&'a Vec<Statement>>)
        ensures
            match first_constructor(class_decl.members@) {
                Some(i) => class_decl.members@[i] matches ClassMember::Constructor(c) && match c.body {
                    Some(b) => r == Some(&b),
                    None => r is None,
                },
                None => r is None,
            },
    {
        match self.find_constructor_decl(class_decl) {
            Some(c) => c.body.as_ref(),
            None => None,
        }
    }

    /// Whether the parameters `ps` are written with types naming, one by
    /// one, the types of the recorded parameters `ids`.
    fn parameters_written_as(&self, ps: &Vec<Parameter>, ids: &Vec<ParameterId>) -> (r: bool)
        ensures
            r == params_written_as(self.symbol_table, ps@, ids@),
    {
        if ps.len() != ids.len() {
            return false;
        }
        let mut i: usize = 0;
        while i < ps.len()
            invariant
                ps@.len() == ids@.len(),
                i <= ps@.len(),
                forall|j: int|
                    0 <= j < i ==> (#[trigger] ids@[j]).0 < self.symbol_table.parameters@.len()
                        && written_type_names(
                        self.symbol_table,
                        ps@[j].param_type,
                        self.symbol_table.parameters@[ids@[j].0 as int].param_type,
                    ),
            decreases ps.len() - i,
        {
            let pid = ids[i];
            if pid.0 >= self.symbol_table.parameters.len() {
                return false;
            }
            if !self.type_ref_matches_type_info(&ps[i].param_type, &self.symbol_table.parameters.get(pid.0).param_type) {
                return false;
            }
            i = i + 1;
        }
        true
    }

    /// The body of the first method of `class_decl` with the name of
    /// `method_info` whose parameters are written with its parameter types,
    /// which tells overloads apart.
    pub fn find_matching_method_body<'a>(&self, class_decl: &'a ClassDeclaration, method_info: &MethodInfo) -> (r: Option<&'a Vec<Statement>>)
        ensures
            match r {
                Some(b) => exists|i: int|
                    #[trigger] first_method_written_as(
                        self.symbol_table,
                        class_decl.members@,
                        i,
                        method_info.name@,
                        method_info.parameters@,
                    ) && method_body_of(class_decl.members@[i]) == Some(*b),
                None => forall|i: int|
                    #[trigger] first_method_written_as(
                        self.symbol_table,
                        class_decl.members@,
                        i,
                        method_info.name@,
                        method_info.parameters@,
                    ) ==> method_body_of(class_decl.members@[i]) is None,
            },
    {
        let members = &class_decl.members;
        let mut i: usize = 0;
        while i < members.len()
            invariant
                i <= members@.len(),
                members@ == class_decl.members@,
                forall|j: int|
                    0 <= j < i ==> !method_written_as(
                        self.symbol_table,
                        #[trigger] members@[j],
                        method_info.name@,
                        method_info.parameters@,
                    ),
            decreases members.len() - i,
        {
            if let ClassMember::Method(m) = &members[i] {
                if m.name == method_info.name && self.parameters_written_as(&m.parameters, &method_info.parameters) {
                    proof {
                        assert(first_method_written_as(
                            self.symbol_table,
                            members@,
                            i as int,
                            method_info.name@,
                            method_info.parameters@,
                        ));
                        assert(members@[i as int] == ClassMember::Method(*m));
                    }
                    return m.body.as_ref();
                }
            }
            i = i + 1;
        }
        None
    }

    /// The declaration of the first constructor of `class_decl` whose
    /// parameters are written with the parameter types of `ctor_info`,
    /// which tells overloads apart.
    pub fn find_matching_constructor_decl<'a>(&self, class_decl: &'a ClassDeclaration, ctor_info: &ConstructorInfo) -> (r: Option<&'a ConstructorDeclaration>)
        ensures
            match r {
                Some(c) => exists|i: int|
                    #[trigger] first_constructor_written_as(
                        self.symbol_table,
                        class_decl.members@,
                        i,
                        ctor_info.parameters@,
                    ) && class_decl.members@[i] == ClassMember::Constructor(*c),
                None => forall|i: int|
                    !#[trigger] first_constructor_written_as(
                        self.symbol_table,
                        class_decl.members@,
                        i,
                        ctor_info.parameters@,
                    ),
            },
    {
        let members = &class_decl.members;
        let mut i: usize = 0;
        while i < members.len()
            invariant
                i <= members@.len(),
                members@ == class_decl.members@,
                forall|j: int|
                    0 <= j < i ==> !constructor_written_as(
                        self.symbol_table,
                        #[trigger] members@[j],
                        ctor_info.parameters@,
                    ),
            decreases members.len() - i,
        {
            if let ClassMember::Constructor(c) = &members[i] {
                if self.parameters_written_as(&c.parameters, &ctor_info.parameters) {
                    proof {
                        assert(first_constructor_written_as(
                            self.symbol_table,
                            members@,
                            i as int,
                            ctor_info.parameters@,
                        ));
                        assert(members@[i as int] == ClassMember::Constructor(*c));
                    }
                    return Some(c);
                }
            }
            i = i + 1;
        }
        None
    }
}

/// A first method of the name within the first `n` members is the first of all.
proof fn lemma_first_method_prefix(members: Seq<ClassMember>, n: int, name: Seq<char>)
    requires
        0 <= n <= members.len(),
        first_method_named(members.take(n), name) is Some,
    ensures
        first_method_named(members, name) == first_method_named(members.take(n), name),
    decreases members.len() - n,
{
    if n < members.len() {
        assert(members.take(n + 1).drop_last() =~= members.take(n));
        lemma_first_method_prefix(members, n + 1, name);
    } else {
        assert(members.take(n) =~= members);
    }
}

/// A first constructor within the first `n` members is the first of all.
proof fn lemma_first_constructor_prefix(members: Seq<ClassMember>, n: int)
    requires
        0 <= n <= members.len(),
        first_constructor(members.take(n)) is Some,
    ensures
        first_constructor(members) == first_constructor(members.take(n)),
    decreases members.len() - n,
{
    if n < members.len() {
        assert(members.take(n + 1).drop_last() =~= members.take(n));
        lemma_first_constructor_prefix(members, n + 1);
    } else {
        assert(members.take(n) =~= members);
    }
}


/// The type that the type written `t` names from scope `sid` when that is a
/// name: what a simple name stands for, or for an injector type `T^` what
/// `T` does.
pub open spec fn named_type(scopes: Seq<Scope>, sid: int, t: TypeRef) -> Option<TypeInfo>
    decreases t,
{
    match t {
        TypeRef::Simple { name, .. } => simple_type(scopes, sid, name@),
        TypeRef::Injector { base_type, .. } => named_type(scopes, sid, *base_type),
        _ => None,
    }
}

/// Whether `ti` is a class, an interface or an enum.
pub open spec fn is_named_entity(ti: TypeInfo) -> bool {
    ti is Object || ti is Interface || ti is Enum
}

/// The class, interface or enum that the type written `t` names from scope
/// `sid`, if it names one.
pub open spec fn entity_named(scopes: Seq<Scope>, sid: int, t: TypeRef) -> Option<TypeInfo> {
    match named_type(scopes, sid, t) {
        Some(x) => if is_named_entity(x) {
            Some(x)
        } else {
            None
        },
        None => None,
    }
}

/// A type written `t` that resolves to a class, an interface or an enum
/// names it, and one that names such an entity resolves.
proof fn lemma_entity_named(scopes: Seq<Scope>, sid: int, t: TypeRef, ti: TypeInfo)
    ensures
        resolves_to(scopes, sid, t, ti) ==> entity_named(scopes, sid, t) == if is_named_entity(ti) {
            Some(ti)
        } else {
            None
        },
        entity_named(scopes, sid, t) is Some ==> type_resolves(scopes, sid, t),
    decreases t,
{
    match t {
        TypeRef::Injector { base_type, .. } => {
            lemma_entity_named(scopes, sid, *base_type, ti);
        },
        _ => {},
    }
}

/// The interfaces among the types written `ts`, in order.
pub open spec fn implemented_ids(scopes: Seq<Scope>, sid: int, ts: Seq<TypeRef>) -> Seq<InterfaceId>
    decreases ts.len(),
{
    if ts.len() == 0 {
        Seq::empty()
    } else {
        implemented_ids(scopes, sid, ts.drop_last()) + match entity_named(scopes, sid, ts.last()) {
            Some(TypeInfo::Interface(i)) => seq![i],
            _ => Seq::empty(),
        }
    }
}

/// The number of the types written `ts` that a class cannot implement: one
/// that names no interface, or an interface named before it.
pub open spec fn implement_errors(scopes: Seq<Scope>, sid: int, ts: Seq<TypeRef>) -> nat
    decreases ts.len(),
{
    if ts.len() == 0 {
        0
    } else {
        implement_errors(scopes, sid, ts.drop_last()) + match entity_named(scopes, sid, ts.last()) {
            Some(TypeInfo::Interface(i)) => if implemented_ids(scopes, sid, ts.drop_last()).contains(i) {
                1nat
            } else {
                0nat
            },
            _ => 1nat,
        }
    }
}

/// The number of the types written `ts` that name no interface.
pub open spec fn non_interfaces(scopes: Seq<Scope>, sid: int, ts: Seq<TypeRef>) -> nat
    decreases ts.len(),
{
    if ts.len() == 0 {
        0
    } else {
        non_interfaces(scopes, sid, ts.drop_last()) + match entity_named(scopes, sid, ts.last()) {
            Some(TypeInfo::Interface(_)) => 0nat,
            _ => 1nat,
        }
    }
}

impl Default for Compiler {
    /// A compiler with an empty symbol table and nothing reported.
    fn default() -> (c: Self)
        ensures
            c.wf(),
            c.symbol_table.scopes@.len() == 1,
            c.symbol_table.classes@.len() == 0,
            c.diagnostics.items@.len() == 0,
            c.class_annotations@.len() == 0,
            c.tasks@.len() == 0,
            c.injector_fields@.len() == 0,
    {
        Compiler::new()
    }
}

} // verus!
