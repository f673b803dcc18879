//! The symbol table: arenas of declared entities and a tree of scopes mapping
//! names to them.

use vstd::prelude::*;
use crate::ast;
use crate::span::Span;
use crate::text::{chars_of, range_eq};
use std::collections::HashMap;
use vstd::string::StringExecFns;

verus! {

// ==================== identifiers ====================

/// Namespace ID.
#[derive(Debug, Clone, Copy, PartialEq, Eq, Hash, Structural)]
pub struct NamespaceId(pub usize);

/// Class ID.
#[derive(Debug, Clone, Copy, PartialEq, Eq, Hash, Structural)]
pub struct ClassId(pub usize);

/// Interface ID.
#[derive(Debug, Clone, Copy, PartialEq, Eq, Hash, Structural)]
pub struct InterfaceId(pub usize);

/// Enum ID.
#[derive(Debug, Clone, Copy, PartialEq, Eq, Hash, Structural)]
pub struct EnumId(pub usize);

/// Enum value ID.
#[derive(Debug, Clone, Copy, PartialEq, Eq, Hash, Structural)]
pub struct EnumValueId(pub usize);

/// Field ID.
#[derive(Debug, Clone, Copy, PartialEq, Eq, Hash, Structural)]
pub struct FieldId(pub usize);

/// Method ID.
#[derive(Debug, Clone, Copy, PartialEq, Eq, Hash, Structural)]
pub struct MethodId(pub usize);

/// Constructor ID.
#[derive(Debug, Clone, Copy, PartialEq, Eq, Hash, Structural)]
pub struct ConstructorId(pub usize);

/// Injector ID.
#[derive(Debug, Clone, Copy, PartialEq, Eq, Hash, Structural)]
pub struct InjectorId(pub usize);

/// Parameter ID.
#[derive(Debug, Clone, Copy, PartialEq, Eq, Hash, Structural)]
pub struct ParameterId(pub usize);

/// Annotation ID.
#[derive(Debug, Clone, Copy, PartialEq, Eq, Hash, Structural)]
pub struct AnnotationId(pub usize);

/// Scope ID.
#[derive(Debug, Clone, Copy, PartialEq, Eq, Hash, Structural)]
pub struct ScopeId(pub usize);

/// Local variable ID.
#[derive(Debug, Clone, Copy, PartialEq, Eq, Hash, Structural)]
pub struct LocalVarId(pub usize);

// ==================== Arena ====================

/// Storage of declared entities, addressed by the index at which each was allocated.
#[derive(Debug)]
pub struct Arena<T> {
    items: Vec<T>,
}

impl<T> View for Arena<T> {
    type V = Seq<T>;

    closed spec fn view(&self) -> Seq<T> {
        self.items@
    }
}

impl<T> Arena<T> {
    pub fn new() -> (a: Self)
        ensures
            a@ == Seq::<T>::empty(),
    {
        Arena { items: Vec::new() }
    }

    /// Stores `item` and returns its index.
    pub fn allocate(&mut self, item: T) -> (id: usize)
        ensures
            id == old(self)@.len(),
            final(self)@ == old(self)@.push(item),
    {
        let id = self.items.len();
        self.items.push(item);
        id
    }

    /// The element at index `id`.
    pub fn get(&self, id: usize) -> (r: &T)
        requires
            id < self@.len(),
        ensures
            *r == self@[id as int],
    {
        &self.items[id]
    }

    /// The element at index `id`, for modification.
    pub fn get_mut(&mut self, id: usize) -> (r: &mut T)
        requires
            id < old(self)@.len(),
        ensures
            *r == old(self)@[id as int],
            final(self)@ == old(self)@.update(id as int, *final(r)),
    {
        &mut self.items[id]
    }

    pub fn len(&self) -> (n: usize)
        ensures
            n == self@.len(),
    {
        self.items.len()
    }

    /// All elements, in allocation order.
    pub fn iter(&self) -> (it: std::slice::Iter<'_, T>)
        ensures
            vstd::std_specs::iter::IteratorSpec::remaining(&it) == self@.as_ref(),
    {
        let items = self.items.as_slice();
        let it = items.iter();
        proof {
            vstd::std_specs::slice::axiom_spec_slice_iter(items);
        }
        it
    }
}

/// What an arena holds after `items` are allocated, one by one, into one that held `before`.
pub open spec fn allocated_after<T>(before: Seq<T>, items: Seq<T>) -> Seq<T>
    decreases items.len(),
{
    if items.len() == 0 {
        before
    } else {
        allocated_after(before, items.drop_last()).push(items.last())
    }
}

/// Allocation only appends: after any further allocations an earlier id
/// still gives the element stored under it, and the arena holds one element
/// more per allocation.
pub proof fn lemma_arena_ids_stable<T>(before: Seq<T>, items: Seq<T>, id: int)
    requires
        0 <= id < before.len(),
    ensures
        allocated_after(before, items).len() == before.len() + items.len(),
        allocated_after(before, items)[id] == before[id],
    decreases items.len(),
{
    if items.len() > 0 {
        lemma_arena_ids_stable(before, items.drop_last(), id);
    }
}

/// An arena that starts empty holds, after `k` allocations, exactly the `k`
/// items allocated, in allocation order (which is what `len` and `iter` give).
pub proof fn lemma_arena_holds_allocations<T>(items: Seq<T>)
    ensures
        allocated_after(Seq::<T>::empty(), items) == items,
    decreases items.len(),
{
    if items.len() > 0 {
        lemma_arena_holds_allocations(items.drop_last());
        assert(items.drop_last().push(items.last()) =~= items);
    }
}

impl<T> Default for Arena<T> {
    fn default() -> (a: Self)
        ensures
            a@ == Seq::<T>::empty(),
    {
        Arena::new()
    }
}


// ==================== names to symbols ====================

/// The symbols declared directly in one scope: a map from names to entries,
/// kept as a list of distinct names in the order of their first declaration.
#[derive(Debug)]
pub struct SymbolMap {
    entries: Vec<(String, SymbolEntry)>,
}

/// Whether `k` is the name of one of the `entries`.
pub open spec fn has_name(entries: Seq<(String, SymbolEntry)>, k: Seq<char>) -> bool {
    exists|i: int| 0 <= i < entries.len() && (#[trigger] entries[i]).0@ == k
}

impl View for SymbolMap {
    type V = Map<Seq<char>, SymbolEntry>;

    closed spec fn view(&self) -> Map<Seq<char>, SymbolEntry> {
        Map::new(
            |k: Seq<char>| has_name(self.entries@, k),
            |k: Seq<char>|
                self.entries@[choose|i: int|
                    0 <= i < self.entries@.len() && (#[trigger] self.entries@[i]).0@ == k].1,
        )
    }
}

impl SymbolMap {
    /// No name occurs twice.
    pub closed spec fn wf(&self) -> bool {
        forall|i: int, j: int|
            0 <= i < j < self.entries@.len() ==> (#[trigger] self.entries@[i]).0@ != (
            #[trigger] self.entries@[j]).0@
    }

    pub fn new() -> (m: Self)
        ensures
            m.wf(),
            m@ == Map::<Seq<char>, SymbolEntry>::empty(),
    {
        let m = SymbolMap { entries: Vec::new() };
        assert(m@ =~= Map::<Seq<char>, SymbolEntry>::empty());
        m
    }

    /// The index of `key` among the entries, if it is there.
    fn position(&self, key: &String) -> (r: Option<usize>)
        requires
            self.wf(),
        ensures
            match r {
                Some(i) => i < self.entries@.len() && self.entries@[i as int].0@ == key@,
                None => !has_name(self.entries@, key@),
            },
    {
        let mut i: usize = 0;
        while i < self.entries.len()
            invariant
                i <= self.entries@.len(),
                forall|j: int| 0 <= j < i ==> (#[trigger] self.entries@[j]).0@ != key@,
            decreases self.entries.len() - i,
        {
            if self.entries[i].0 == *key {
                return Some(i);
            }
            i = i + 1;
        }
        None
    }

    proof fn lemma_view_at(&self, i: int)
        requires
            self.wf(),
            0 <= i < self.entries@.len(),
        ensures
            self@.contains_key(self.entries@[i].0@),
            self@[self.entries@[i].0@] == self.entries@[i].1,
    {
        let k = self.entries@[i].0@;
        assert(has_name(self.entries@, k));
        let j = choose|j: int| 0 <= j < self.entries@.len() && (#[trigger] self.entries@[j]).0@ == k;
        if j < i {
            assert(self.entries@[j].0@ != self.entries@[i].0@);
        } else if i < j {
            assert(self.entries@[i].0@ != self.entries@[j].0@);
        }
    }

    /// The entry declared under `name`.
    pub fn get(&self, name: &str) -> (r: Option<&SymbolEntry>)
        requires
            self.wf(),
        ensures
            match r {
                Some(e) => self@.contains_key(name@) && *e == self@[name@],
                None => !self@.contains_key(name@),
            },
    {
        let key = name.to_owned();
        match self.position(&key) {
            Some(i) => {
                proof {
                    self.lemma_view_at(i as int);
                }
                Some(&self.entries[i].1)
            },
            None => None,
        }
    }

    /// Declares `entry` under `name`, replacing what was declared under it.
    pub fn insert(&mut self, name: &str, entry: SymbolEntry)
        requires
            old(self).wf(),
        ensures
            final(self).wf(),
            final(self)@ == old(self)@.insert(name@, entry),
    {
        let key = name.to_owned();
        let ghost old_entries = self.entries@;
        match self.position(&key) {
            Some(i) => {
                self.entries.set(i, (key, entry));
                proof {
                    assert forall|a: int, b: int|
                        0 <= a < b < self.entries@.len() implies (#[trigger] self.entries@[a]).0@
                        != (#[trigger] self.entries@[b]).0@ by {
                        assert(old_entries[a].0@ != old_entries[b].0@);
                    }
                    assert forall|k: Seq<char>| #[trigger]
                        self@.contains_key(k) == old(self)@.insert(name@, entry).contains_key(k) by {
                        if has_name(old_entries, k) {
                            let j = choose|j: int|
                                0 <= j < old_entries.len() && (#[trigger] old_entries[j]).0@ == k;
                            if j != i {
                                assert(self.entries@[j].0@ == k);
                            }
                        }
                        if has_name(self.entries@, k) {
                            let j = choose|j: int|
                                0 <= j < self.entries@.len() && (#[trigger] self.entries@[j]).0@
                                    == k;
                            if j != i {
                                assert(old_entries[j].0@ == k);
                            }
                        }
                        assert(self.entries@[i as int].0@ == name@);
                    }
                    assert forall|k: Seq<char>| #[trigger] self@.contains_key(k) implies self@[k]
                        == old(self)@.insert(name@, entry)[k] by {
                        let j = choose|j: int|
                            0 <= j < self.entries@.len() && (#[trigger] self.entries@[j]).0@ == k;
                        self.lemma_view_at(j);
                        if j != i {
                            old(self).lemma_view_at(j);
                        }
                    }
                    assert(self@ =~= old(self)@.insert(name@, entry));
                }
            },
            None => {
                self.entries.push((key, entry));
                proof {
                    let n = old_entries.len() as int;
                    assert forall|a: int, b: int|
                        0 <= a < b < self.entries@.len() implies (#[trigger] self.entries@[a]).0@
                        != (#[trigger] self.entries@[b]).0@ by {
                        if b == n {
                            assert(old_entries[a] == self.entries@[a]);
                        } else {
                            assert(old_entries[a].0@ != old_entries[b].0@);
                        }
                    }
                    assert forall|k: Seq<char>| #[trigger]
                        self@.contains_key(k) == old(self)@.insert(name@, entry).contains_key(k) by {
                        if has_name(old_entries, k) {
                            let j = choose|j: int|
                                0 <= j < old_entries.len() && (#[trigger] old_entries[j]).0@ == k;
                            assert(self.entries@[j].0@ == k);
                        }
                        if has_name(self.entries@, k) {
                            let j = choose|j: int|
                                0 <= j < self.entries@.len() && (#[trigger] self.entries@[j]).0@
                                    == k;
                            if j != n {
                                assert(old_entries[j].0@ == k);
                            }
                        }
                        assert(self.entries@[n].0@ == name@);
                    }
                    assert forall|k: Seq<char>| #[trigger] self@.contains_key(k) implies self@[k]
                        == old(self)@.insert(name@, entry)[k] by {
                        let j = choose|j: int|
                            0 <= j < self.entries@.len() && (#[trigger] self.entries@[j]).0@ == k;
                        self.lemma_view_at(j);
                        if j != n {
                            old(self).lemma_view_at(j);
                        }
                    }
                    assert(self@ =~= old(self)@.insert(name@, entry));
                }
            },
        }
    }
}

/// An entry of a scope's symbol map.
#[derive(Debug, Clone)]
pub enum SymbolEntry {
    Namespace(NamespaceId),
    Class(ClassId),
    Interface(InterfaceId),
    Enum(EnumId),
    EnumValue(EnumValueId),
    Field(FieldId),
    /// All methods declared under one name: its overloads, in declaration order.
    Method(Vec<MethodId>),
    Constructor(Vec<ConstructorId>),
    Injector(InjectorId),
    Annotation(AnnotationId),
    LocalVar(LocalVarId),
    Parameter(ParameterId),
}


// ==================== types ====================

/// A type as the compiler knows it once names are resolved (in contrast to
/// `ast::TypeRef`, the type as written).
#[derive(Debug, PartialEq)]
pub enum TypeInfo {
    Int,
    Float,
    Bool,
    String,
    Void,
    /// An instance of a class.
    Object(ClassId),
    Interface(InterfaceId),
    Delegate { return_type: Box<TypeInfo>, param_types: Vec<TypeInfo> },
    Enum(EnumId),
    /// A generic parameter not yet bound.
    GenericParam(String),
    /// A generic type with its arguments.
    GenericInstance { base: Box<TypeInfo>, type_args: Vec<TypeInfo> },
    Array(Box<TypeInfo>),
    /// Not resolved yet (`var`, `object`).
    Unresolved,
}

/// Whether `a` and `b` are the same type: the same variant with the same
/// identifiers, names and component types.
pub open spec fn same_type(a: TypeInfo, b: TypeInfo) -> bool
    decreases a,
{
    match a {
        TypeInfo::Int => b is Int,
        TypeInfo::Float => b is Float,
        TypeInfo::Bool => b is Bool,
        TypeInfo::String => b is String,
        TypeInfo::Void => b is Void,
        TypeInfo::Unresolved => b is Unresolved,
        TypeInfo::Object(x) => b matches TypeInfo::Object(y) && x == y,
        TypeInfo::Interface(x) => b matches TypeInfo::Interface(y) && x == y,
        TypeInfo::Enum(x) => b matches TypeInfo::Enum(y) && x == y,
        TypeInfo::GenericParam(n) => b matches TypeInfo::GenericParam(m) && n@ == m@,
        TypeInfo::Array(e) => b matches TypeInfo::Array(f) && same_type(*e, *f),
        TypeInfo::Delegate { return_type, param_types } => match b {
            TypeInfo::Delegate { return_type: r2, param_types: p2 } => {
                &&& same_type(*return_type, *r2)
                &&& param_types@.len() == p2@.len()
                &&& forall|i: int|
                    0 <= i < param_types@.len() ==> same_type(
                        #[trigger] param_types@[i],
                        p2@[i],
                    )
            },
            _ => false,
        },
        TypeInfo::GenericInstance { base, type_args } => match b {
            TypeInfo::GenericInstance { base: b2, type_args: a2 } => {
                &&& same_type(*base, *b2)
                &&& type_args@.len() == a2@.len()
                &&& forall|i: int|
                    0 <= i < type_args@.len() ==> same_type(#[trigger] type_args@[i], a2@[i])
            },
            _ => false,
        },
    }
}

/// The type that a primitive type keyword names.
pub open spec fn keyword_type(name: Seq<char>) -> Option<TypeInfo> {
    if name == seq!['i', 'n', 't'] {
        Some(TypeInfo::Int)
    } else if name == seq!['f', 'l', 'o', 'a', 't'] {
        Some(TypeInfo::Float)
    } else if name == seq!['b', 'o', 'o', 'l'] {
        Some(TypeInfo::Bool)
    } else if name == seq!['s', 't', 'r', 'i', 'n', 'g'] {
        Some(TypeInfo::String)
    } else if name == seq!['v', 'o', 'i', 'd'] {
        Some(TypeInfo::Void)
    } else if name == seq!['o', 'b', 'j', 'e', 'c', 't'] {
        Some(TypeInfo::Unresolved)
    } else {
        None
    }
}

/// Whether a value of type `a` converts to type `b` implicitly: `int` widens
/// to `float`, an enum value is an `int`, a type converts to itself, and an
/// unresolved type on either side is let through.
pub open spec fn auto_castable(a: TypeInfo, b: TypeInfo) -> bool {
    ||| (a is Int && b is Float)
    ||| (a is Enum && b is Int)
    ||| same_type(a, b)
    ||| a is Unresolved
    ||| b is Unresolved
}

/// Whether `a` and `b` are the same type (the executable form of `same_type`).
#[verifier::loop_isolation(false)]
pub fn types_equal(a: &TypeInfo, b: &TypeInfo) -> (r: bool)
    ensures
        r == same_type(*a, *b),
    decreases a,
{
    match a {
        TypeInfo::Int => matches!(b, TypeInfo::Int),
        TypeInfo::Float => matches!(b, TypeInfo::Float),
        TypeInfo::Bool => matches!(b, TypeInfo::Bool),
        TypeInfo::String => matches!(b, TypeInfo::String),
        TypeInfo::Void => matches!(b, TypeInfo::Void),
        TypeInfo::Unresolved => matches!(b, TypeInfo::Unresolved),
        TypeInfo::Object(x) => match b {
            TypeInfo::Object(y) => x.0 == y.0,
            _ => false,
        },
        TypeInfo::Interface(x) => match b {
            TypeInfo::Interface(y) => x.0 == y.0,
            _ => false,
        },
        TypeInfo::Enum(x) => match b {
            TypeInfo::Enum(y) => x.0 == y.0,
            _ => false,
        },
        TypeInfo::GenericParam(n) => match b {
            TypeInfo::GenericParam(m) => *n == *m,
            _ => false,
        },
        TypeInfo::Array(e) => match b {
            TypeInfo::Array(f) => types_equal(e, f),
            _ => false,
        },
        TypeInfo::Delegate { return_type, param_types } => match b {
            TypeInfo::Delegate { return_type: r2, param_types: p2 } => {
                if !types_equal(return_type, r2) || param_types.len() != p2.len() {
                    return false;
                }
                let mut i: usize = 0;
                while i < param_types.len()
                    invariant
                        param_types@.len() == p2@.len(),
                        i <= param_types@.len(),
                        forall|j: int| 0 <= j < i ==> same_type(#[trigger] param_types@[j], p2@[j]),
                    decreases param_types.len() - i,
                {
                    proof {
                        assert(decreases_to!(*a => param_types@[i as int]));
                    }
                    if !types_equal(&param_types[i], &p2[i]) {
                        return false;
                    }
                    i = i + 1;
                }
                true
            },
            _ => false,
        },
        TypeInfo::GenericInstance { base, type_args } => match b {
            TypeInfo::GenericInstance { base: b2, type_args: a2 } => {
                if !types_equal(base, b2) || type_args.len() != a2.len() {
                    return false;
                }
                let mut i: usize = 0;
                while i < type_args.len()
                    invariant
                        type_args@.len() == a2@.len(),
                        i <= type_args@.len(),
                        forall|j: int| 0 <= j < i ==> same_type(#[trigger] type_args@[j], a2@[j]),
                    decreases type_args.len() - i,
                {
                    proof {
                        assert(decreases_to!(*a => type_args@[i as int]));
                    }
                    if !types_equal(&type_args[i], &a2[i]) {
                        return false;
                    }
                    i = i + 1;
                }
                true
            },
            _ => false,
        },
    }
}

impl TypeInfo {
    /// The type named by a primitive type keyword (`object` stays unresolved
    /// until run time); `None` for any other name.
    pub fn from_keyword(name: &str) -> (r: Option<TypeInfo>)
        ensures
            r == keyword_type(name@),
    {
        let cs = chars_of(name);
        let n = cs.len();
        let lit = ['i', 'n', 't'];
        assert(lit@ =~= seq!['i', 'n', 't']);
        assert(cs@.subrange(0, n as int) =~= cs@);
        if range_eq(&cs, 0, n, &lit) {
            return Some(TypeInfo::Int);
        }
        let lit = ['f', 'l', 'o', 'a', 't'];
        assert(lit@ =~= seq!['f', 'l', 'o', 'a', 't']);
        if range_eq(&cs, 0, n, &lit) {
            return Some(TypeInfo::Float);
        }
        let lit = ['b', 'o', 'o', 'l'];
        assert(lit@ =~= seq!['b', 'o', 'o', 'l']);
        if range_eq(&cs, 0, n, &lit) {
            return Some(TypeInfo::Bool);
        }
        let lit = ['s', 't', 'r', 'i', 'n', 'g'];
        assert(lit@ =~= seq!['s', 't', 'r', 'i', 'n', 'g']);
        if range_eq(&cs, 0, n, &lit) {
            return Some(TypeInfo::String);
        }
        let lit = ['v', 'o', 'i', 'd'];
        assert(lit@ =~= seq!['v', 'o', 'i', 'd']);
        if range_eq(&cs, 0, n, &lit) {
            return Some(TypeInfo::Void);
        }
        let lit = ['o', 'b', 'j', 'e', 'c', 't'];
        assert(lit@ =~= seq!['o', 'b', 'j', 'e', 'c', 't']);
        if range_eq(&cs, 0, n, &lit) {
            return Some(TypeInfo::Unresolved);
        }
        None
    }

    /// Whether a value of this type converts to `target` implicitly: the same
    /// type, `int` to `float`, an enum to `int`, or either side unresolved.
    pub fn can_auto_cast_to(&self, target: &TypeInfo) -> (r: bool)
        ensures
            r == auto_castable(*self, *target),
    {
        if matches!(self, TypeInfo::Int) && matches!(target, TypeInfo::Float) {
            return true;
        }
        if matches!(self, TypeInfo::Enum(_)) && matches!(target, TypeInfo::Int) {
            return true;
        }
        if types_equal(self, target) {
            return true;
        }
        matches!(self, TypeInfo::Unresolved) || matches!(target, TypeInfo::Unresolved)
    }

    /// Whether a value of this type converts to `target` by an explicit cast:
    /// when either converts to the other implicitly.
    pub fn can_cast_to(&self, target: &TypeInfo) -> (r: bool)
        ensures
            r == (auto_castable(*self, *target) || auto_castable(*target, *self)),
    {
        self.can_auto_cast_to(target) || target.can_auto_cast_to(self)
    }
}


// ==================== declared entities ====================

/// A namespace.
#[derive(Debug, Clone)]
pub struct NamespaceInfo {
    pub name: String,
    pub scope_id: ScopeId,
    /// The classes declared in the namespace.
    pub classes: Vec<ClassId>,
    pub interfaces: Vec<InterfaceId>,
    pub enums: Vec<EnumId>,
    pub using_scopes: Vec<ScopeId>,
}

/// Counts of instance fields by value kind.
#[derive(Debug, Clone, Copy, Default, PartialEq, Eq, Structural)]
pub struct FrozenTypeCount {
    pub int: usize,
    pub float: usize,
    pub bool: usize,
    pub string: usize,
    pub object: usize,
}

/// A class.
#[derive(Debug)]
pub struct ClassInfo {
    pub namespace_scope_id: ScopeId,
    pub name: String,
    pub scope_id: ScopeId,
    /// The class named after `extends`.
    pub super_class: Option<ClassId>,
    /// The interfaces it implements.
    pub super_interfaces: Vec<InterfaceId>,
    pub is_native: bool,
    pub is_static: bool,
    pub is_abstract: bool,
    pub fields: Vec<FieldId>,
    pub methods: Vec<MethodId>,
    pub constructors: Vec<ConstructorId>,
    pub injector: Option<InjectorId>,
    pub annotations: Vec<AnnotationId>,
    pub span: Span,
    /// Global number of the class's first own method: the method total of its
    /// super class. Its i-th own method has number `method_start_id + i`.
    pub method_start_id: usize,
    /// Number of methods, inherited ones included.
    pub method_count_total: usize,
    pub constructor_start_id: usize,
    pub constructor_count_total: usize,
    /// Overrides: global number of the overridden method to that of the overriding one.
    pub method_override_id: HashMap<usize, usize>,
    /// First index of the class's own instance fields of each value kind.
    pub field_start_type_count: FrozenTypeCount,
    /// Instance fields of each value kind, inherited ones included.
    pub field_type_count_total: FrozenTypeCount,
    /// For each implemented interface (by full name), the global number of the
    /// method implementing each of its methods.
    pub interface_method_impl_id: HashMap<String, Vec<usize>>,
    /// No member may be added once set.
    pub declaration_frozen: bool,
    /// The inheritance chain is fixed once set.
    pub inheritance_frozen: bool,
    /// Names of the generic parameters, `class Foo<T, U>`.
    pub generic_params: Vec<String>,
}

/// The message given when a member is added to a class whose declaration is frozen.
pub open spec fn declaration_frozen_message(class_name: Seq<char>) -> Seq<char> {
    "类 `"@ + class_name + "` 的声明已冻结，不允许再添加成员"@
}

/// The message given when the inheritance of a class is changed once frozen.
pub open spec fn inheritance_frozen_message(class_name: Seq<char>) -> Seq<char> {
    "类 `"@ + class_name + "` 的继承关系已冻结，不允许修改"@
}

impl ClassInfo {
    /// Checks that members may still be added to the class.
    pub fn check_declaration_not_frozen(&self) -> (r: Result<(), String>)
        ensures
            match r {
                Ok(()) => !self.declaration_frozen,
                Err(m) => self.declaration_frozen && m@ == declaration_frozen_message(self.name@),
            },
    {
        if self.declaration_frozen {
            proof {
                reveal_strlit("类 `");
                reveal_strlit("` 的声明已冻结，不允许再添加成员");
            }
            let m = String::from_str("类 `");
            let m = m.concat(self.name.as_str());
            let m = m.concat("` 的声明已冻结，不允许再添加成员");
            Err(m)
        } else {
            Ok(())
        }
    }

    /// Checks that the inheritance of the class may still change.
    pub fn check_inheritance_not_frozen(&self) -> (r: Result<(), String>)
        ensures
            match r {
                Ok(()) => !self.inheritance_frozen,
                Err(m) => self.inheritance_frozen && m@ == inheritance_frozen_message(self.name@),
            },
    {
        if self.inheritance_frozen {
            proof {
                reveal_strlit("类 `");
                reveal_strlit("` 的继承关系已冻结，不允许修改");
            }
            let m = String::from_str("类 `");
            let m = m.concat(self.name.as_str());
            let m = m.concat("` 的继承关系已冻结，不允许修改");
            Err(m)
        } else {
            Ok(())
        }
    }
}

/// An interface.
#[derive(Debug, Clone)]
pub struct InterfaceInfo {
    pub namespace_scope_id: ScopeId,
    pub name: String,
    pub scope_id: ScopeId,
    pub super_interfaces: Vec<InterfaceId>,
    pub methods: Vec<MethodId>,
    pub span: Span,
}

/// An enum.
#[derive(Debug, Clone)]
pub struct EnumInfo {
    pub namespace_scope_id: ScopeId,
    pub name: String,
    pub scope_id: ScopeId,
    pub values: Vec<EnumValueId>,
    pub span: Span,
}

/// A value of an enum.
#[derive(Debug, Clone)]
pub struct EnumValueInfo {
    pub name: String,
    pub enum_id: EnumId,
    pub value: Option<i64>,
    pub span: Span,
}

/// A field.
#[derive(Debug)]
pub struct FieldInfo {
    pub name: String,
    pub class_id: ClassId,
    pub field_type: TypeInfo,
    pub is_static: bool,
    pub is_native: bool,
    /// Offset in the object layout, once assigned.
    pub offset: Option<usize>,
    pub span: Span,
}

/// A method of a class or an interface.
#[derive(Debug)]
pub struct MethodInfo {
    pub name: String,
    pub class_id: Option<ClassId>,
    pub interface_id: Option<InterfaceId>,
    pub return_type: TypeInfo,
    pub parameters: Vec<ParameterId>,
    pub is_static: bool,
    pub is_native: bool,
    pub is_override: bool,
    pub is_abstract: bool,
    /// The scope of the body, where it has one.
    pub body_scope_id: Option<ScopeId>,
    pub span: Span,
}

/// A constructor.
#[derive(Debug, Clone)]
pub struct ConstructorInfo {
    pub class_id: ClassId,
    pub parameters: Vec<ParameterId>,
    pub is_native: bool,
    pub body_scope_id: Option<ScopeId>,
    pub span: Span,
}

/// An injector.
#[derive(Debug)]
pub struct InjectorInfo {
    pub class_id: ClassId,
    pub fields: Vec<InjectorFieldInfo>,
    pub span: Span,
}

/// A field of an injector.
#[derive(Debug)]
pub struct InjectorFieldInfo {
    pub name: String,
    pub field_type: TypeInfo,
    pub span: Span,
}

/// A parameter of a method or a constructor.
#[derive(Debug)]
pub struct ParameterInfo {
    pub name: String,
    pub param_type: TypeInfo,
    pub owner_method_id: Option<MethodId>,
    pub owner_constructor_id: Option<ConstructorId>,
    pub index: usize,
    pub span: Span,
}

/// An annotation.
#[derive(Debug, Clone)]
pub struct AnnotationInfo {
    pub name: String,
    pub fields: Vec<FieldId>,
    pub span: Span,
}

/// A local variable.
#[derive(Debug)]
pub struct LocalVarInfo {
    pub name: String,
    pub var_type: TypeInfo,
    /// Offset in the stack frame.
    pub offset: usize,
    pub span: Span,
}

// ==================== scopes ====================

/// A node of the scope tree, with the names declared directly in it.
#[derive(Debug)]
pub struct Scope {
    pub kind: ScopeKind,
    pub parent: Option<ScopeId>,
    pub children: Vec<ScopeId>,
    pub symbols: SymbolMap,
    /// Scopes whose names are visible here too (not transitively).
    pub using_scopes: Vec<ScopeId>,
}

/// What a scope belongs to.
#[derive(Debug, Clone, PartialEq)]
pub enum ScopeKind {
    /// The root.
    Global,
    Namespace { name: String },
    Class { class_id: ClassId },
    Interface { interface_id: InterfaceId },
    Enum { enum_id: EnumId },
    Method { method_id: MethodId },
    Constructor { constructor_id: ConstructorId },
    Injector { injector_id: InjectorId },
    Annotation { annotation_id: AnnotationId },
    /// A block inside a body.
    CodeBlock { context: BlockContext },
}

/// The context of a block: it decides how names and `this` resolve in it.
#[derive(Debug, Clone, Copy, PartialEq, Eq, Structural)]
pub enum BlockContext {
    Constant,
    StaticMethod,
    Injector,
    FieldInitializer,
    Instance,
}


// ==================== name resolution ====================

/// The scope tree is sound at index `i`: its symbol map is well formed, its
/// parent comes before it, and the scopes it names exist.
pub open spec fn scope_wf(scopes: Seq<Scope>, i: int) -> bool {
    let s = scopes[i];
    &&& s.symbols.wf()
    &&& (s.parent matches Some(p) ==> (p.0 as int) < i)
    &&& forall|j: int| 0 <= j < s.children@.len() ==> (#[trigger] s.children@[j]).0 < scopes.len()
    &&& forall|j: int|
        0 <= j < s.using_scopes@.len() ==> (#[trigger] s.using_scopes@[j]).0 < scopes.len()
}

/// The entry for `name` in scope `sid` or the nearest of its ancestors that
/// declares it.
pub open spec fn chain_find(scopes: Seq<Scope>, sid: int, name: Seq<char>) -> Option<SymbolEntry>
    decreases sid,
{
    if !(0 <= sid < scopes.len()) {
        None
    } else if scopes[sid].symbols@.contains_key(name) {
        Some(scopes[sid].symbols@[name])
    } else {
        match scopes[sid].parent {
            Some(p) => if (p.0 as int) < sid {
                chain_find(scopes, p.0 as int, name)
            } else {
                None
            },
            None => None,
        }
    }
}

/// The first of the scopes `usings[i..]` whose chain declares `name`, with the entry.
pub open spec fn usings_find(scopes: Seq<Scope>, usings: Seq<ScopeId>, i: int, name: Seq<char>) -> Option<
    (SymbolEntry, ScopeId),
>
    decreases usings.len() - i,
{
    if !(0 <= i < usings.len()) {
        None
    } else {
        match chain_find(scopes, usings[i].0 as int, name) {
            Some(e) => Some((e, usings[i])),
            None => usings_find(scopes, usings, i + 1, name),
        }
    }
}

/// Resolution of `name` from scope `sid`: the scope's own symbols, then its
/// ancestors in turn, then the scopes it uses (each with its ancestors, but
/// not what they use); with the entry, the scope where the search found it.
pub open spec fn resolve(scopes: Seq<Scope>, sid: int, name: Seq<char>) -> Option<(SymbolEntry, ScopeId)>
    decreases sid,
{
    if !(0 <= sid < scopes.len()) {
        None
    } else if scopes[sid].symbols@.contains_key(name) {
        Some((scopes[sid].symbols@[name], ScopeId(sid as usize)))
    } else {
        let up = match scopes[sid].parent {
            Some(p) => if (p.0 as int) < sid {
                resolve(scopes, p.0 as int, name)
            } else {
                None
            },
            None => None,
        };
        if up is Some {
            up
        } else {
            usings_find(scopes, scopes[sid].using_scopes@, 0, name)
        }
    }
}

/// The nearest of scope `sid` and its ancestors whose kind satisfies `p`.
pub open spec fn nearest_ancestor(scopes: Seq<Scope>, sid: int, p: spec_fn(ScopeKind) -> bool) -> Option<ScopeId>
    decreases sid,
{
    if !(0 <= sid < scopes.len()) {
        None
    } else if p(scopes[sid].kind) {
        Some(ScopeId(sid as usize))
    } else {
        match scopes[sid].parent {
            Some(q) => if (q.0 as int) < sid {
                nearest_ancestor(scopes, q.0 as int, p)
            } else {
                None
            },
            None => None,
        }
    }
}

/// The scope kinds of classes.
pub open spec fn class_kind() -> spec_fn(ScopeKind) -> bool {
    |k: ScopeKind| k is Class
}

/// The scope kinds of methods.
pub open spec fn method_kind() -> spec_fn(ScopeKind) -> bool {
    |k: ScopeKind| k is Method
}

/// The scope kinds for which `f` returns true.
pub open spec fn accepted_by<F: Fn(&ScopeKind) -> bool>(f: F) -> spec_fn(ScopeKind) -> bool {
    |k: ScopeKind| f.ensures((&k,), true)
}

/// What an exact lookup result says, with the entry taken by reference.
pub open spec fn found_as(r: Option<(&SymbolEntry, ScopeId)>, expected: Option<(SymbolEntry, ScopeId)>) -> bool {
    match r {
        Some(p) => expected == Some((*p.0, p.1)),
        None => expected is None,
    }
}

/// What an exact lookup result says, with the entry taken by reference.
pub open spec fn entry_as(r: Option<&SymbolEntry>, expected: Option<SymbolEntry>) -> bool {
    match r {
        Some(e) => expected == Some(*e),
        None => expected is None,
    }
}

/// Scopes `a` and `b` agree, below index `n`, on everything that resolving
/// `name` reads: whether and how each declares it, its parent, and the scopes
/// it uses, which lie below `n`.
pub open spec fn agree_on(a: Seq<Scope>, b: Seq<Scope>, n: int, name: Seq<char>) -> bool {
    &&& 0 <= n <= a.len()
    &&& n <= b.len()
    &&& forall|i: int|
        0 <= i < n ==> {
            &&& (#[trigger] a[i]).symbols@.contains_key(name) == b[i].symbols@.contains_key(name)
            &&& a[i].symbols@.contains_key(name) ==> a[i].symbols@[name] == b[i].symbols@[name]
            &&& a[i].parent == b[i].parent
            &&& a[i].using_scopes@ == b[i].using_scopes@
            &&& forall|j: int|
                0 <= j < a[i].using_scopes@.len() ==> (#[trigger] a[i].using_scopes@[j]).0 < n
        }
}

proof fn lemma_chain_agree(a: Seq<Scope>, b: Seq<Scope>, n: int, sid: int, name: Seq<char>)
    requires
        agree_on(a, b, n, name),
        0 <= sid < n,
    ensures
        chain_find(a, sid, name) == chain_find(b, sid, name),
    decreases sid,
{
    assert(a[sid].parent == b[sid].parent);
    if let Some(p) = a[sid].parent {
        if (p.0 as int) < sid {
            lemma_chain_agree(a, b, n, p.0 as int, name);
        }
    }
}

proof fn lemma_usings_agree(
    a: Seq<Scope>,
    b: Seq<Scope>,
    n: int,
    us: Seq<ScopeId>,
    i: int,
    name: Seq<char>,
)
    requires
        agree_on(a, b, n, name),
        forall|j: int| 0 <= j < us.len() ==> (#[trigger] us[j]).0 < n,
    ensures
        usings_find(a, us, i, name) == usings_find(b, us, i, name),
    decreases us.len() - i,
{
    if 0 <= i < us.len() {
        lemma_chain_agree(a, b, n, us[i].0 as int, name);
        lemma_usings_agree(a, b, n, us, i + 1, name);
    }
}

proof fn lemma_resolve_agree(a: Seq<Scope>, b: Seq<Scope>, n: int, sid: int, name: Seq<char>)
    requires
        agree_on(a, b, n, name),
        0 <= sid < n,
    ensures
        resolve(a, sid, name) == resolve(b, sid, name),
    decreases sid,
{
    assert(a[sid].parent == b[sid].parent);
    if let Some(p) = a[sid].parent {
        if (p.0 as int) < sid {
            lemma_resolve_agree(a, b, n, p.0 as int, name);
        }
    }
    assert(forall|j: int|
        0 <= j < a[sid].using_scopes@.len() ==> (#[trigger] a[sid].using_scopes@[j]).0 < n);
    lemma_usings_agree(a, b, n, a[sid].using_scopes@, 0, name);
}


/// A copy of a list of scope IDs.
fn copy_scope_ids(v: &Vec<ScopeId>) -> (r: Vec<ScopeId>)
    ensures
        r@ == v@,
{
    let mut r: Vec<ScopeId> = Vec::new();
    let mut i: usize = 0;
    while i < v.len()
        invariant
            i <= v@.len(),
            r@ == v@.subrange(0, i as int),
        decreases v.len() - i,
    {
        r.push(v[i]);
        i = i + 1;
        assert(r@ =~= v@.subrange(0, i as int));
    }
    assert(v@.subrange(0, v@.len() as int) =~= v@);
    r
}

/// Resolution from the scopes below `n` is the same in `a` and `b` when those
/// scopes are the same and use only scopes below `n`.
proof fn lemma_resolve_frame(a: Seq<Scope>, b: Seq<Scope>, n: int)
    requires
        0 <= n <= a.len(),
        n <= b.len(),
        forall|i: int| 0 <= i < n ==> a[i] == b[i],
        forall|i: int|
            #![trigger a[i]]
            0 <= i < n ==> forall|j: int|
                0 <= j < a[i].using_scopes@.len() ==> (#[trigger] a[i].using_scopes@[j]).0 < n,
    ensures
        forall|sid: int, name: Seq<char>|
            0 <= sid < n ==> #[trigger] resolve(a, sid, name) == resolve(b, sid, name),
{
    assert forall|sid: int, name: Seq<char>| 0 <= sid < n implies #[trigger] resolve(a, sid, name)
        == resolve(b, sid, name) by {
        assert(agree_on(a, b, n, name));
        lemma_resolve_agree(a, b, n, sid, name);
    }
}

/// The overloads already declared under `name` in `symbols`.
pub open spec fn prior_overloads(symbols: Map<Seq<char>, SymbolEntry>, name: Seq<char>) -> Seq<MethodId> {
    if symbols.contains_key(name) {
        match symbols[name] {
            SymbolEntry::Method(ids) => ids@,
            _ => Seq::empty(),
        }
    } else {
        Seq::empty()
    }
}

/// The constructors already declared in a class scope's `symbols`.
pub open spec fn prior_constructors(symbols: Map<Seq<char>, SymbolEntry>) -> Seq<ConstructorId> {
    let k = "constructor"@;
    if symbols.contains_key(k) {
        match symbols[k] {
            SymbolEntry::Constructor(ids) => ids@,
            _ => Seq::empty(),
        }
    } else {
        Seq::empty()
    }
}

/// `new` is `old` with one scope more, a child of `parent` that sees what the
/// parent uses (and the parent itself, where `uses_parent`); `parent` now
/// declares `entry` under `name`; no other scope changed.
pub open spec fn scope_declared(
    old: Seq<Scope>,
    new: Seq<Scope>,
    parent: ScopeId,
    uses_parent: bool,
    name: Seq<char>,
    entry: SymbolEntry,
) -> bool {
    let child = old.len() as int;
    let p = parent.0 as int;
    &&& new.len() == old.len() + 1
    &&& new[child].parent == Some(parent)
    &&& new[child].children@.len() == 0
    &&& new[child].symbols@ == Map::<Seq<char>, SymbolEntry>::empty()
    &&& new[child].using_scopes@ == if uses_parent {
        old[p].using_scopes@.push(parent)
    } else {
        old[p].using_scopes@
    }
    &&& new[p].kind == old[p].kind
    &&& new[p].parent == old[p].parent
    &&& new[p].children@ == old[p].children@.push(ScopeId(old.len() as usize))
    &&& new[p].symbols@ == old[p].symbols@.insert(name, entry)
    &&& new[p].using_scopes@ == old[p].using_scopes@
    &&& forall|i: int| 0 <= i < old.len() && i != p ==> new[i] == old[i]
}

/// `new` is `old` but for the symbol declared under `name` in scope `sid`.
pub open spec fn symbol_declared(
    old: Seq<Scope>,
    new: Seq<Scope>,
    sid: ScopeId,
    name: Seq<char>,
    entry: SymbolEntry,
) -> bool {
    let s = sid.0 as int;
    &&& new.len() == old.len()
    &&& new[s].kind == old[s].kind
    &&& new[s].parent == old[s].parent
    &&& new[s].children@ == old[s].children@
    &&& new[s].symbols@ == old[s].symbols@.insert(name, entry)
    &&& new[s].using_scopes@ == old[s].using_scopes@
    &&& forall|i: int| 0 <= i < old.len() && i != s ==> new[i] == old[i]
}

/// Declaring `name` in scope `sid` made it resolve there to `entry`, and
/// changed the resolution of no other name from any scope that existed.
pub open spec fn declaration_effect(
    old: Seq<Scope>,
    new: Seq<Scope>,
    sid: ScopeId,
    name: Seq<char>,
    entry: SymbolEntry,
) -> bool {
    &&& resolve(new, sid.0 as int, name) == Some((entry, sid))
    &&& forall|s: int, other: Seq<char>|
        0 <= s < old.len() && other != name ==> #[trigger] resolve(new, s, other) == resolve(
            old,
            s,
            other,
        )
}

/// No instance field counted yet.
pub open spec fn zero_count() -> FrozenTypeCount {
    FrozenTypeCount { int: 0, float: 0, bool: 0, string: 0, object: 0 }
}

/// `c` is a class just declared with the given attributes: not static, not
/// abstract, with no members, no numbering and nothing frozen yet.
pub open spec fn is_new_class(
    c: ClassInfo,
    ns_scope: ScopeId,
    name: Seq<char>,
    scope: ScopeId,
    super_class: Option<ClassId>,
    super_interfaces: Seq<InterfaceId>,
    is_native: bool,
    span: Span,
) -> bool {
    &&& c.namespace_scope_id == ns_scope
    &&& c.name@ == name
    &&& c.scope_id == scope
    &&& c.super_class == super_class
    &&& c.super_interfaces@ == super_interfaces
    &&& c.is_native == is_native
    &&& !c.is_static
    &&& !c.is_abstract
    &&& c.fields@.len() == 0
    &&& c.methods@.len() == 0
    &&& c.constructors@.len() == 0
    &&& c.injector is None
    &&& c.annotations@.len() == 0
    &&& c.span == span
    &&& c.method_start_id == 0
    &&& c.method_count_total == 0
    &&& c.constructor_start_id == 0
    &&& c.constructor_count_total == 0
    &&& c.method_override_id@ == Map::<usize, usize>::empty()
    &&& c.field_start_type_count == zero_count()
    &&& c.field_type_count_total == zero_count()
    &&& c.interface_method_impl_id@ == Map::<String, Vec<usize>>::empty()
    &&& !c.declaration_frozen
    &&& !c.inheritance_frozen
    &&& c.generic_params@.len() == 0
}

/// A copy of a list of method IDs.
fn copy_method_ids(v: &Vec<MethodId>) -> (r: Vec<MethodId>)
    ensures
        r@ == v@,
{
    let mut r: Vec<MethodId> = Vec::new();
    let mut i: usize = 0;
    while i < v.len()
        invariant
            i <= v@.len(),
            r@ == v@.subrange(0, i as int),
        decreases v.len() - i,
    {
        r.push(v[i]);
        i = i + 1;
        assert(r@ =~= v@.subrange(0, i as int));
    }
    assert(v@.subrange(0, v@.len() as int) =~= v@);
    r
}

/// A copy of a list of constructor IDs.
fn copy_constructor_ids(v: &Vec<ConstructorId>) -> (r: Vec<ConstructorId>)
    ensures
        r@ == v@,
{
    let mut r: Vec<ConstructorId> = Vec::new();
    let mut i: usize = 0;
    while i < v.len()
        invariant
            i <= v@.len(),
            r@ == v@.subrange(0, i as int),
        decreases v.len() - i,
    {
        r.push(v[i]);
        i = i + 1;
        assert(r@ =~= v@.subrange(0, i as int));
    }
    assert(v@.subrange(0, v@.len() as int) =~= v@);
    r
}

/// The type that a simple type name stands for from scope `sid`: a primitive
/// keyword, else the class, interface or enum it resolves to.
pub open spec fn simple_type(scopes: Seq<Scope>, sid: int, name: Seq<char>) -> Option<TypeInfo> {
    match keyword_type(name) {
        Some(t) => Some(t),
        None => match resolve(scopes, sid, name) {
            Some((SymbolEntry::Class(c), _)) => Some(TypeInfo::Object(c)),
            Some((SymbolEntry::Interface(i), _)) => Some(TypeInfo::Interface(i)),
            Some((SymbolEntry::Enum(e), _)) => Some(TypeInfo::Enum(e)),
            _ => None,
        },
    }
}

/// The base of a generic type named `name` from scope `sid`: a primitive
/// keyword, else the class it resolves to.
pub open spec fn generic_base(scopes: Seq<Scope>, sid: int, name: Seq<char>) -> Option<TypeInfo> {
    match keyword_type(name) {
        Some(t) => Some(t),
        None => match resolve(scopes, sid, name) {
            Some((SymbolEntry::Class(c), _)) => Some(TypeInfo::Object(c)),
            _ => None,
        },
    }
}

/// Whether the type written `t` resolves from scope `sid`: every name in it does.
pub open spec fn type_resolves(scopes: Seq<Scope>, sid: int, t: ast::TypeRef) -> bool
    decreases t,
{
    match t {
        ast::TypeRef::Simple { name, .. } => simple_type(scopes, sid, name@) is Some,
        ast::TypeRef::Array { element_type, .. } => type_resolves(scopes, sid, *element_type),
        ast::TypeRef::Delegate { return_type, param_types, .. } => {
            &&& type_resolves(scopes, sid, *return_type)
            &&& forall|i: int|
                0 <= i < param_types@.len() ==> type_resolves(scopes, sid, #[trigger] param_types@[i])
        },
        ast::TypeRef::Generic { name, type_args, .. } => {
            &&& generic_base(scopes, sid, name@) is Some
            &&& forall|i: int|
                0 <= i < type_args@.len() ==> type_resolves(scopes, sid, #[trigger] type_args@[i])
        },
        ast::TypeRef::Injector { base_type, .. } => type_resolves(scopes, sid, *base_type),
    }
}

/// Whether `ti` is what the type written `t` resolves to from scope `sid`:
/// an array of the element's type, a delegate of the return and parameter
/// types, a generic instance of its base and arguments, and for an injector
/// type the type of its base.
pub open spec fn resolves_to(scopes: Seq<Scope>, sid: int, t: ast::TypeRef, ti: TypeInfo) -> bool
    decreases t,
{
    match t {
        ast::TypeRef::Simple { name, .. } => simple_type(scopes, sid, name@) == Some(ti),
        ast::TypeRef::Array { element_type, .. } => match ti {
            TypeInfo::Array(inner) => resolves_to(scopes, sid, *element_type, *inner),
            _ => false,
        },
        ast::TypeRef::Delegate { return_type, param_types, .. } => match ti {
            TypeInfo::Delegate { return_type: r, param_types: ps } => {
                &&& resolves_to(scopes, sid, *return_type, *r)
                &&& ps@.len() == param_types@.len()
                &&& forall|i: int|
                    0 <= i < param_types@.len() ==> resolves_to(
                        scopes,
                        sid,
                        #[trigger] param_types@[i],
                        ps@[i],
                    )
            },
            _ => false,
        },
        ast::TypeRef::Generic { name, type_args, .. } => match ti {
            TypeInfo::GenericInstance { base, type_args: args } => {
                &&& generic_base(scopes, sid, name@) == Some(*base)
                &&& args@.len() == type_args@.len()
                &&& forall|i: int|
                    0 <= i < type_args@.len() ==> resolves_to(
                        scopes,
                        sid,
                        #[trigger] type_args@[i],
                        args@[i],
                    )
            },
            _ => false,
        },
        ast::TypeRef::Injector { base_type, .. } => resolves_to(scopes, sid, *base_type, ti),
    }
}

/// The symbol table: arenas of everything declared, addressed by typed IDs,
/// and the scope tree that decides which names are visible where.
pub struct SymbolTable {
    pub namespaces: Arena<NamespaceInfo>,
    pub classes: Arena<ClassInfo>,
    pub interfaces: Arena<InterfaceInfo>,
    pub enums: Arena<EnumInfo>,
    pub enum_values: Arena<EnumValueInfo>,
    pub fields: Arena<FieldInfo>,
    pub methods: Arena<MethodInfo>,
    pub constructors: Arena<ConstructorInfo>,
    pub injectors: Arena<InjectorInfo>,
    pub parameters: Arena<ParameterInfo>,
    pub annotations: Arena<AnnotationInfo>,
    pub local_vars: Arena<LocalVarInfo>,
    pub scopes: Arena<Scope>,
    pub global_scope: ScopeId,
}

impl SymbolTable {
    /// The table's invariant: every scope is sound, and every scope that an
    /// entity refers to exists.
    pub open spec fn wf(&self) -> bool {
        &&& self.global_scope.0 < self.scopes@.len()
        &&& forall|i: int| 0 <= i < self.scopes@.len() ==> #[trigger] scope_wf(self.scopes@, i)
        &&& forall|i: int|
            0 <= i < self.namespaces@.len() ==> (#[trigger] self.namespaces@[i]).scope_id.0
                < self.scopes@.len()
        &&& forall|i: int|
            0 <= i < self.classes@.len() ==> (#[trigger] self.classes@[i]).scope_id.0
                < self.scopes@.len()
        &&& forall|i: int|
            0 <= i < self.interfaces@.len() ==> (#[trigger] self.interfaces@[i]).scope_id.0
                < self.scopes@.len()
        &&& forall|i: int|
            0 <= i < self.enums@.len() ==> (#[trigger] self.enums@[i]).scope_id.0
                < self.scopes@.len()
    }

    /// Whether `sid` names a scope of the table.
    pub open spec fn has_scope(&self, sid: ScopeId) -> bool {
        sid.0 < self.scopes@.len()
    }

    /// Whether a namespace, class, interface or enum entry names one that exists.
    pub open spec fn type_entry_valid(&self, e: SymbolEntry) -> bool {
        match e {
            SymbolEntry::Namespace(id) => id.0 < self.namespaces@.len(),
            SymbolEntry::Class(id) => id.0 < self.classes@.len(),
            SymbolEntry::Interface(id) => id.0 < self.interfaces@.len(),
            SymbolEntry::Enum(id) => id.0 < self.enums@.len(),
            _ => true,
        }
    }

    /// Every namespace, class, interface and enum that a scope declares exists.
    pub open spec fn type_entries_valid(&self) -> bool {
        forall|i: int, k: Seq<char>|
            0 <= i < self.scopes@.len() && #[trigger] self.scopes@[i].symbols@.contains_key(k)
                ==> self.type_entry_valid(self.scopes@[i].symbols@[k])
    }

    /// The table holds one scope, the global one, and nothing else.
    pub fn new() -> (st: Self)
        ensures
            st.wf(),
            st.scopes@.len() == 1,
            st.global_scope == ScopeId(0),
            st.scopes@[0].kind == ScopeKind::Global,
            st.scopes@[0].parent is None,
            st.scopes@[0].children@.len() == 0,
            st.scopes@[0].symbols@ == Map::<Seq<char>, SymbolEntry>::empty(),
            st.scopes@[0].using_scopes@.len() == 0,
            st.namespaces@.len() == 0,
            st.classes@.len() == 0,
            st.interfaces@.len() == 0,
            st.enums@.len() == 0,
            st.enum_values@.len() == 0,
            st.fields@.len() == 0,
            st.methods@.len() == 0,
            st.constructors@.len() == 0,
            st.injectors@.len() == 0,
            st.parameters@.len() == 0,
            st.annotations@.len() == 0,
            st.local_vars@.len() == 0,
    {
        let mut scopes: Arena<Scope> = Arena::new();
        let global = scopes.allocate(
            Scope {
                kind: ScopeKind::Global,
                parent: None,
                children: Vec::new(),
                symbols: SymbolMap::new(),
                using_scopes: Vec::new(),
            },
        );
        let st = SymbolTable {
            namespaces: Arena::new(),
            classes: Arena::new(),
            interfaces: Arena::new(),
            enums: Arena::new(),
            enum_values: Arena::new(),
            fields: Arena::new(),
            methods: Arena::new(),
            constructors: Arena::new(),
            injectors: Arena::new(),
            parameters: Arena::new(),
            annotations: Arena::new(),
            local_vars: Arena::new(),
            scopes,
            global_scope: ScopeId(global),
        };
        assert(scope_wf(st.scopes@, 0));
        st
    }

    /// Creates a scope of kind `kind` under `parent`; it starts with no
    /// symbols and sees what the parent uses.
    pub fn push_scope(&mut self, parent: ScopeId, kind: ScopeKind) -> (child: ScopeId)
        requires
            old(self).wf(),
            old(self).has_scope(parent),
        ensures
            final(self).wf(),
            child.0 == old(self).scopes@.len(),
            final(self).scopes@.len() == old(self).scopes@.len() + 1,
            final(self).scopes@[child.0 as int].kind == kind,
            final(self).scopes@[child.0 as int].parent == Some(parent),
            final(self).scopes@[child.0 as int].children@.len() == 0,
            final(self).scopes@[child.0 as int].symbols@ == Map::<Seq<char>, SymbolEntry>::empty(),
            final(self).scopes@[child.0 as int].using_scopes@
                == old(self).scopes@[parent.0 as int].using_scopes@,
            final(self).scopes@[parent.0 as int].children@
                == old(self).scopes@[parent.0 as int].children@.push(child),
            final(self).scopes@[parent.0 as int].kind == old(self).scopes@[parent.0 as int].kind,
            final(self).scopes@[parent.0 as int].parent == old(self).scopes@[parent.0 as int].parent,
            final(self).scopes@[parent.0 as int].symbols@ == old(
                self,
            ).scopes@[parent.0 as int].symbols@,
            final(self).scopes@[parent.0 as int].using_scopes@ == old(
                self,
            ).scopes@[parent.0 as int].using_scopes@,
            forall|i: int|
                0 <= i < old(self).scopes@.len() && i != parent.0 ==> final(self).scopes@[i] == old(
                    self,
                ).scopes@[i],
            final(self).same_entities(*old(self)),
            // Creating a scope changes nothing that the existing scopes resolve.
            forall|sid: int, name: Seq<char>|
                0 <= sid < old(self).scopes@.len() ==> #[trigger] resolve(final(self).scopes@, sid, name)
                    == resolve(old(self).scopes@, sid, name),
            old(self).type_entries_valid() ==> final(self).type_entries_valid(),
    {
        let ghost old_scopes = self.scopes@;
        let parent_using = copy_scope_ids(&self.scopes.get(parent.0).using_scopes);
        proof {
            assert(scope_wf(old_scopes, parent.0 as int));
        }
        let child = ScopeId(
            self.scopes.allocate(
                Scope {
                    kind,
                    parent: Some(parent),
                    children: Vec::new(),
                    symbols: SymbolMap::new(),
                    using_scopes: parent_using,
                },
            ),
        );
        let ghost mid = self.scopes@;
        self.scopes.get_mut(parent.0).children.push(child);
        proof {
            let new_scopes = self.scopes@;
            let n = old_scopes.len() as int;
            assert forall|i: int| 0 <= i < new_scopes.len() implies #[trigger] scope_wf(new_scopes, i) by {
                if i < n {
                    assert(scope_wf(old_scopes, i));
                    if i == parent.0 {
                        assert forall|j: int| 0 <= j < new_scopes[i].children@.len() implies (
                        #[trigger] new_scopes[i].children@[j]).0 < new_scopes.len() by {
                            if j < old_scopes[i].children@.len() {
                                assert(new_scopes[i].children@[j] == old_scopes[i].children@[j]);
                            }
                        }
                    }
                } else {
                    assert(new_scopes[i].using_scopes@ == old_scopes[parent.0 as int].using_scopes@);
                }
            }
            assert forall|sid: int, name: Seq<char>|
                0 <= sid < n implies #[trigger] resolve(new_scopes, sid, name) == resolve(old_scopes, sid, name) by {
                assert forall|i: int| #![trigger new_scopes[i]] 0 <= i < n implies forall|j: int|
                    0 <= j < new_scopes[i].using_scopes@.len() ==> (
                    #[trigger] new_scopes[i].using_scopes@[j]).0 < n by {
                    assert(scope_wf(old_scopes, i));
                }
                assert(agree_on(new_scopes, old_scopes, n, name));
                lemma_resolve_agree(new_scopes, old_scopes, n, sid, name);
            }
        }
        child
    }

    /// Every arena but the scopes, and the global scope, are those of `other`.
    pub open spec fn same_entities(&self, other: Self) -> bool {
        &&& self.namespaces@ == other.namespaces@
        &&& self.classes@ == other.classes@
        &&& self.interfaces@ == other.interfaces@
        &&& self.enums@ == other.enums@
        &&& self.enum_values@ == other.enum_values@
        &&& self.fields@ == other.fields@
        &&& self.methods@ == other.methods@
        &&& self.constructors@ == other.constructors@
        &&& self.injectors@ == other.injectors@
        &&& self.parameters@ == other.parameters@
        &&& self.annotations@ == other.annotations@
        &&& self.local_vars@ == other.local_vars@
        &&& self.global_scope == other.global_scope
    }

    /// Declares `entry` under `name` in scope `scope_id`, replacing what was
    /// declared under that name there.
    pub fn define_symbol(&mut self, scope_id: ScopeId, name: &str, entry: SymbolEntry)
        requires
            old(self).wf(),
            old(self).has_scope(scope_id),
        ensures
            final(self).wf(),
            final(self).scopes@.len() == old(self).scopes@.len(),
            final(self).scopes@[scope_id.0 as int].symbols@ == old(
                self,
            ).scopes@[scope_id.0 as int].symbols@.insert(name@, entry),
            final(self).scopes@[scope_id.0 as int].kind == old(self).scopes@[scope_id.0 as int].kind,
            final(self).scopes@[scope_id.0 as int].parent == old(self).scopes@[scope_id.0 as int].parent,
            final(self).scopes@[scope_id.0 as int].children@ == old(
                self,
            ).scopes@[scope_id.0 as int].children@,
            final(self).scopes@[scope_id.0 as int].using_scopes@ == old(
                self,
            ).scopes@[scope_id.0 as int].using_scopes@,
            forall|i: int|
                0 <= i < old(self).scopes@.len() && i != scope_id.0 ==> final(self).scopes@[i] == old(
                    self,
                ).scopes@[i],
            final(self).same_entities(*old(self)),
            // The name now resolves, from that scope, to the entry declared there.
            resolve(final(self).scopes@, scope_id.0 as int, name@) == Some((entry, scope_id)),
            // No other name resolves differently from any scope.
            forall|sid: int, other: Seq<char>|
                0 <= sid < old(self).scopes@.len() && other != name@ ==> #[trigger] resolve(
                    final(self).scopes@,
                    sid,
                    other,
                ) == resolve(old(self).scopes@, sid, other),
            old(self).type_entries_valid() && old(self).type_entry_valid(entry)
                ==> final(self).type_entries_valid(),
    {
        let ghost old_scopes = self.scopes@;
        proof {
            assert(scope_wf(old_scopes, scope_id.0 as int));
        }
        self.scopes.get_mut(scope_id.0).symbols.insert(name, entry);
        proof {
            let new_scopes = self.scopes@;
            let n = old_scopes.len() as int;
            assert forall|i: int| 0 <= i < new_scopes.len() implies #[trigger] scope_wf(new_scopes, i) by {
                assert(scope_wf(old_scopes, i));
            }
            assert forall|sid: int, other: Seq<char>|
                0 <= sid < n && other != name@ implies #[trigger] resolve(new_scopes, sid, other)
                    == resolve(old_scopes, sid, other) by {
                assert forall|i: int| #![trigger new_scopes[i]] 0 <= i < n implies forall|j: int|
                    0 <= j < new_scopes[i].using_scopes@.len() ==> (
                    #[trigger] new_scopes[i].using_scopes@[j]).0 < n by {
                    assert(scope_wf(old_scopes, i));
                }
                assert(agree_on(new_scopes, old_scopes, n, other));
                lemma_resolve_agree(new_scopes, old_scopes, n, sid, other);
            }
        }
    }

    /// Opens a child scope of `parent` for a declared entity; it sees what the
    /// parent uses, and the parent itself where `uses_parent`.
    fn open_scope(&mut self, parent: ScopeId, kind: ScopeKind, uses_parent: bool) -> (child: ScopeId)
        requires
            old(self).wf(),
            old(self).has_scope(parent),
        ensures
            final(self).wf(),
            final(self).same_entities(*old(self)),
            child.0 == old(self).scopes@.len(),
            final(self).scopes@.len() == old(self).scopes@.len() + 1,
            final(self).scopes@[child.0 as int].kind == kind,
            final(self).scopes@[child.0 as int].parent == Some(parent),
            final(self).scopes@[child.0 as int].children@.len() == 0,
            final(self).scopes@[child.0 as int].symbols@ == Map::<Seq<char>, SymbolEntry>::empty(),
            final(self).scopes@[child.0 as int].using_scopes@ == if uses_parent {
                old(self).scopes@[parent.0 as int].using_scopes@.push(parent)
            } else {
                old(self).scopes@[parent.0 as int].using_scopes@
            },
            final(self).scopes@[parent.0 as int].children@
                == old(self).scopes@[parent.0 as int].children@.push(child),
            final(self).scopes@[parent.0 as int].kind == old(self).scopes@[parent.0 as int].kind,
            final(self).scopes@[parent.0 as int].parent == old(self).scopes@[parent.0 as int].parent,
            final(self).scopes@[parent.0 as int].symbols@ == old(
                self,
            ).scopes@[parent.0 as int].symbols@,
            final(self).scopes@[parent.0 as int].using_scopes@ == old(
                self,
            ).scopes@[parent.0 as int].using_scopes@,
            forall|i: int|
                0 <= i < old(self).scopes@.len() && i != parent.0 ==> final(self).scopes@[i] == old(
                    self,
                ).scopes@[i],
            forall|sid: int, name: Seq<char>|
                0 <= sid < old(self).scopes@.len() ==> #[trigger] resolve(final(self).scopes@, sid, name)
                    == resolve(old(self).scopes@, sid, name),
            old(self).type_entries_valid() ==> final(self).type_entries_valid(),
    {
        let child = self.push_scope(parent, kind);
        if uses_parent {
            let ghost mid = self.scopes@;
            self.scopes.get_mut(child.0).using_scopes.push(parent);
            proof {
                let new_scopes = self.scopes@;
                let n = mid.len() - 1;
                assert forall|i: int| 0 <= i < new_scopes.len() implies #[trigger] scope_wf(new_scopes, i) by {
                    assert(scope_wf(mid, i));
                    if i == child.0 {
                        assert forall|j: int| 0 <= j < new_scopes[i].using_scopes@.len() implies (
                        #[trigger] new_scopes[i].using_scopes@[j]).0 < new_scopes.len() by {
                            if j < mid[i].using_scopes@.len() {
                                assert(new_scopes[i].using_scopes@[j] == mid[i].using_scopes@[j]);
                            }
                        }
                    }
                }
                assert forall|i: int| #![trigger new_scopes[i]] 0 <= i < n implies forall|j: int|
                    0 <= j < new_scopes[i].using_scopes@.len() ==> (
                    #[trigger] new_scopes[i].using_scopes@[j]).0 < n by {
                    assert(scope_wf(old(self).scopes@, i));
                    assert(new_scopes[i] == mid[i]);
                }
                lemma_resolve_frame(new_scopes, mid, n);
            }
        }
        child
    }

    /// Declares a namespace `name` in scope `parent_scope_id`, with a scope of
    /// its own under it.
    pub fn declare_namespace(&mut self, name: &str, parent_scope_id: ScopeId) -> (ns: NamespaceId)
        requires
            old(self).wf(),
            old(self).has_scope(parent_scope_id),
        ensures
            final(self).wf(),
            ns.0 == old(self).namespaces@.len(),
            final(self).namespaces@.len() == old(self).namespaces@.len() + 1,
            final(self).namespaces@.take(ns.0 as int) == old(self).namespaces@,
            final(self).namespaces@[ns.0 as int].name@ == name@,
            final(self).namespaces@[ns.0 as int].scope_id == ScopeId(old(self).scopes@.len() as usize),
            final(self).namespaces@[ns.0 as int].classes@.len() == 0,
            final(self).namespaces@[ns.0 as int].interfaces@.len() == 0,
            final(self).namespaces@[ns.0 as int].enums@.len() == 0,
            final(self).namespaces@[ns.0 as int].using_scopes@ == old(
                self,
            ).scopes@[parent_scope_id.0 as int].using_scopes@,
            final(self).scopes@[old(self).scopes@.len() as int].kind matches ScopeKind::Namespace {
                name: n,
            } && n@ == name@,
            scope_declared(
                old(self).scopes@,
                final(self).scopes@,
                parent_scope_id,
                false,
                name@,
                SymbolEntry::Namespace(ns),
            ),
            declaration_effect(
                old(self).scopes@,
                final(self).scopes@,
                parent_scope_id,
                name@,
                SymbolEntry::Namespace(ns),
            ),
            final(self).classes@ == old(self).classes@,
            final(self).interfaces@ == old(self).interfaces@,
            final(self).enums@ == old(self).enums@,
            final(self).enum_values@ == old(self).enum_values@,
            final(self).fields@ == old(self).fields@,
            final(self).methods@ == old(self).methods@,
            final(self).constructors@ == old(self).constructors@,
            final(self).injectors@ == old(self).injectors@,
            final(self).parameters@ == old(self).parameters@,
            final(self).annotations@ == old(self).annotations@,
            final(self).local_vars@ == old(self).local_vars@,
            final(self).global_scope == old(self).global_scope,
            old(self).type_entries_valid() ==> final(self).type_entries_valid(),
    {
        let ns_scope = self.open_scope(
            parent_scope_id,
            ScopeKind::Namespace { name: name.to_owned() },
            false,
        );
        let using = copy_scope_ids(&self.scopes.get(ns_scope.0).using_scopes);
        let ns = NamespaceId(
            self.namespaces.allocate(
                NamespaceInfo {
                    name: name.to_owned(),
                    scope_id: ns_scope,
                    classes: Vec::new(),
                    interfaces: Vec::new(),
                    enums: Vec::new(),
                    using_scopes: using,
                },
            ),
        );
        proof {
            assert(self.namespaces@.take(ns.0 as int) =~= old(self).namespaces@);
        }
        self.define_symbol(parent_scope_id, name, SymbolEntry::Namespace(ns));
        ns
    }

    /// Declares class `name` in scope `scope_id`, with a class scope under it
    /// that sees the enclosing scope.
    pub fn declare_class(
        &mut self,
        name: &str,
        scope_id: ScopeId,
        super_class: Option<ClassId>,
        super_interfaces: Vec<InterfaceId>,
        is_native: bool,
        span: Span,
    ) -> (class_id: ClassId)
        requires
            old(self).wf(),
            old(self).has_scope(scope_id),
        ensures
            final(self).wf(),
            class_id.0 == old(self).classes@.len(),
            final(self).classes@.len() == old(self).classes@.len() + 1,
            final(self).classes@.take(class_id.0 as int) == old(self).classes@,
            is_new_class(
                final(self).classes@[class_id.0 as int],
                scope_id,
                name@,
                ScopeId(old(self).scopes@.len() as usize),
                super_class,
                super_interfaces@,
                is_native,
                span,
            ),
            final(self).scopes@[old(self).scopes@.len() as int].kind == (ScopeKind::Class { class_id }),
            scope_declared(
                old(self).scopes@,
                final(self).scopes@,
                scope_id,
                true,
                name@,
                SymbolEntry::Class(class_id),
            ),
            declaration_effect(
                old(self).scopes@,
                final(self).scopes@,
                scope_id,
                name@,
                SymbolEntry::Class(class_id),
            ),
            final(self).namespaces@ == old(self).namespaces@,
            final(self).interfaces@ == old(self).interfaces@,
            final(self).enums@ == old(self).enums@,
            final(self).enum_values@ == old(self).enum_values@,
            final(self).fields@ == old(self).fields@,
            final(self).methods@ == old(self).methods@,
            final(self).constructors@ == old(self).constructors@,
            final(self).injectors@ == old(self).injectors@,
            final(self).parameters@ == old(self).parameters@,
            final(self).annotations@ == old(self).annotations@,
            final(self).local_vars@ == old(self).local_vars@,
            final(self).global_scope == old(self).global_scope,
            old(self).type_entries_valid() ==> final(self).type_entries_valid(),
    {
        let class_id = ClassId(self.classes.len());
        let class_scope = self.open_scope(scope_id, ScopeKind::Class { class_id }, true);
        self.classes.allocate(
            ClassInfo {
                namespace_scope_id: scope_id,
                name: name.to_owned(),
                scope_id: class_scope,
                super_class,
                super_interfaces,
                is_native,
                is_static: false,
                is_abstract: false,
                fields: Vec::new(),
                methods: Vec::new(),
                constructors: Vec::new(),
                injector: None,
                annotations: Vec::new(),
                span,
                method_start_id: 0,
                method_count_total: 0,
                constructor_start_id: 0,
                constructor_count_total: 0,
                method_override_id: HashMap::new(),
                field_start_type_count: FrozenTypeCount {
                    int: 0,
                    float: 0,
                    bool: 0,
                    string: 0,
                    object: 0,
                },
                field_type_count_total: FrozenTypeCount {
                    int: 0,
                    float: 0,
                    bool: 0,
                    string: 0,
                    object: 0,
                },
                interface_method_impl_id: HashMap::new(),
                declaration_frozen: false,
                inheritance_frozen: false,
                generic_params: Vec::new(),
            },
        );
        proof {
            assert(self.classes@.take(class_id.0 as int) =~= old(self).classes@);
        }
        self.define_symbol(scope_id, name, SymbolEntry::Class(class_id));
        class_id
    }

    /// Declares interface `name` in scope `scope_id`, with an interface scope
    /// under it that sees the enclosing scope.
    pub fn declare_interface(
        &mut self,
        name: &str,
        scope_id: ScopeId,
        super_interfaces: Vec<InterfaceId>,
        span: Span,
    ) -> (interface_id: InterfaceId)
        requires
            old(self).wf(),
            old(self).has_scope(scope_id),
        ensures
            final(self).wf(),
            interface_id.0 == old(self).interfaces@.len(),
            final(self).interfaces@.len() == old(self).interfaces@.len() + 1,
            final(self).interfaces@.take(interface_id.0 as int) == old(self).interfaces@,
            final(self).interfaces@[interface_id.0 as int].namespace_scope_id == scope_id,
            final(self).interfaces@[interface_id.0 as int].name@ == name@,
            final(self).interfaces@[interface_id.0 as int].scope_id == ScopeId(
                old(self).scopes@.len() as usize,
            ),
            final(self).interfaces@[interface_id.0 as int].super_interfaces@ == super_interfaces@,
            final(self).interfaces@[interface_id.0 as int].methods@.len() == 0,
            final(self).interfaces@[interface_id.0 as int].span == span,
            final(self).scopes@[old(self).scopes@.len() as int].kind == (ScopeKind::Interface {
                interface_id,
            }),
            scope_declared(
                old(self).scopes@,
                final(self).scopes@,
                scope_id,
                true,
                name@,
                SymbolEntry::Interface(interface_id),
            ),
            declaration_effect(
                old(self).scopes@,
                final(self).scopes@,
                scope_id,
                name@,
                SymbolEntry::Interface(interface_id),
            ),
            final(self).namespaces@ == old(self).namespaces@,
            final(self).classes@ == old(self).classes@,
            final(self).enums@ == old(self).enums@,
            final(self).enum_values@ == old(self).enum_values@,
            final(self).fields@ == old(self).fields@,
            final(self).methods@ == old(self).methods@,
            final(self).constructors@ == old(self).constructors@,
            final(self).injectors@ == old(self).injectors@,
            final(self).parameters@ == old(self).parameters@,
            final(self).annotations@ == old(self).annotations@,
            final(self).local_vars@ == old(self).local_vars@,
            final(self).global_scope == old(self).global_scope,
            old(self).type_entries_valid() ==> final(self).type_entries_valid(),
    {
        let interface_id = InterfaceId(self.interfaces.len());
        let iface_scope = self.open_scope(scope_id, ScopeKind::Interface { interface_id }, true);
        self.interfaces.allocate(
            InterfaceInfo {
                namespace_scope_id: scope_id,
                name: name.to_owned(),
                scope_id: iface_scope,
                super_interfaces,
                methods: Vec::new(),
                span,
            },
        );
        proof {
            assert(self.interfaces@.take(interface_id.0 as int) =~= old(self).interfaces@);
        }
        self.define_symbol(scope_id, name, SymbolEntry::Interface(interface_id));
        interface_id
    }

    /// Declares enum `name` in scope `scope_id`, with an enum scope under it
    /// that sees the enclosing scope.
    pub fn declare_enum(&mut self, name: &str, scope_id: ScopeId, span: Span) -> (enum_id: EnumId)
        requires
            old(self).wf(),
            old(self).has_scope(scope_id),
        ensures
            final(self).wf(),
            enum_id.0 == old(self).enums@.len(),
            final(self).enums@.len() == old(self).enums@.len() + 1,
            final(self).enums@.take(enum_id.0 as int) == old(self).enums@,
            final(self).enums@[enum_id.0 as int].namespace_scope_id == scope_id,
            final(self).enums@[enum_id.0 as int].name@ == name@,
            final(self).enums@[enum_id.0 as int].scope_id == ScopeId(old(self).scopes@.len() as usize),
            final(self).enums@[enum_id.0 as int].values@.len() == 0,
            final(self).enums@[enum_id.0 as int].span == span,
            final(self).scopes@[old(self).scopes@.len() as int].kind == (ScopeKind::Enum { enum_id }),
            scope_declared(
                old(self).scopes@,
                final(self).scopes@,
                scope_id,
                true,
                name@,
                SymbolEntry::Enum(enum_id),
            ),
            declaration_effect(
                old(self).scopes@,
                final(self).scopes@,
                scope_id,
                name@,
                SymbolEntry::Enum(enum_id),
            ),
            final(self).namespaces@ == old(self).namespaces@,
            final(self).classes@ == old(self).classes@,
            final(self).interfaces@ == old(self).interfaces@,
            final(self).enum_values@ == old(self).enum_values@,
            final(self).fields@ == old(self).fields@,
            final(self).methods@ == old(self).methods@,
            final(self).constructors@ == old(self).constructors@,
            final(self).injectors@ == old(self).injectors@,
            final(self).parameters@ == old(self).parameters@,
            final(self).annotations@ == old(self).annotations@,
            final(self).local_vars@ == old(self).local_vars@,
            final(self).global_scope == old(self).global_scope,
            old(self).type_entries_valid() ==> final(self).type_entries_valid(),
    {
        let enum_id = EnumId(self.enums.len());
        let enum_scope = self.open_scope(scope_id, ScopeKind::Enum { enum_id }, true);
        self.enums.allocate(
            EnumInfo {
                namespace_scope_id: scope_id,
                name: name.to_owned(),
                scope_id: enum_scope,
                values: Vec::new(),
                span,
            },
        );
        proof {
            assert(self.enums@.take(enum_id.0 as int) =~= old(self).enums@);
        }
        self.define_symbol(scope_id, name, SymbolEntry::Enum(enum_id));
        enum_id
    }

    /// Declares value `name` of enum `enum_id`, in the enum's scope.
    pub fn declare_enum_value(&mut self, name: &str, enum_id: EnumId, value: Option<i64>, span: Span) -> (val_id: EnumValueId)
        requires
            old(self).wf(),
            enum_id.0 < old(self).enums@.len(),
        ensures
            final(self).wf(),
            val_id.0 == old(self).enum_values@.len(),
            final(self).enum_values@.len() == old(self).enum_values@.len() + 1,
            final(self).enum_values@.take(val_id.0 as int) == old(self).enum_values@,
            final(self).enum_values@[val_id.0 as int].name@ == name@,
            final(self).enum_values@[val_id.0 as int].enum_id == enum_id,
            final(self).enum_values@[val_id.0 as int].value == value,
            final(self).enum_values@[val_id.0 as int].span == span,
            final(self).enums@.len() == old(self).enums@.len(),
            final(self).enums@[enum_id.0 as int].values@ == old(self).enums@[enum_id.0 as int].values@.push(val_id),
            final(self).enums@[enum_id.0 as int].name == old(self).enums@[enum_id.0 as int].name,
            final(self).enums@[enum_id.0 as int].scope_id == old(self).enums@[enum_id.0 as int].scope_id,
            final(self).enums@[enum_id.0 as int].namespace_scope_id == old(self).enums@[enum_id.0 as int].namespace_scope_id,
            final(self).enums@[enum_id.0 as int].span == old(self).enums@[enum_id.0 as int].span,
            forall|i: int| 0 <= i < old(self).enums@.len() && i != enum_id.0 ==> final(self).enums@[i] == old(self).enums@[i],
            final(self).interfaces@ == old(self).interfaces@,
            symbol_declared(
                old(self).scopes@,
                final(self).scopes@,
                old(self).enums@[enum_id.0 as int].scope_id,
                name@,
                SymbolEntry::EnumValue(val_id),
            ),
            declaration_effect(
                old(self).scopes@,
                final(self).scopes@,
                old(self).enums@[enum_id.0 as int].scope_id,
                name@,
                SymbolEntry::EnumValue(val_id),
            ),
            final(self).namespaces@ == old(self).namespaces@,
            final(self).classes@ == old(self).classes@,
            final(self).interfaces@ == old(self).interfaces@,
            final(self).fields@ == old(self).fields@,
            final(self).methods@ == old(self).methods@,
            final(self).constructors@ == old(self).constructors@,
            final(self).injectors@ == old(self).injectors@,
            final(self).parameters@ == old(self).parameters@,
            final(self).annotations@ == old(self).annotations@,
            final(self).local_vars@ == old(self).local_vars@,
            final(self).global_scope == old(self).global_scope,
            old(self).type_entries_valid() ==> final(self).type_entries_valid(),
    {
        let enum_scope = self.enums.get(enum_id.0).scope_id;
        let val_id = EnumValueId(
            self.enum_values.allocate(EnumValueInfo { name: name.to_owned(), enum_id, value, span }),
        );
        self.enums.get_mut(enum_id.0).values.push(val_id);
        proof {
            assert(self.enum_values@.take(val_id.0 as int) =~= old(self).enum_values@);
            assert forall|i: int| 0 <= i < self.enums@.len() implies (#[trigger] self.enums@[i]).scope_id.0
                < self.scopes@.len() by {
                assert(old(self).enums@[i].scope_id == self.enums@[i].scope_id);
            }
        }
        self.define_symbol(enum_scope, name, SymbolEntry::EnumValue(val_id));
        val_id
    }

    /// Declares annotation `name` in scope `scope_id`, with a scope of its own under it.
    pub fn declare_annotation(&mut self, name: &str, scope_id: ScopeId, span: Span) -> (annotation_id: AnnotationId)
        requires
            old(self).wf(),
            old(self).has_scope(scope_id),
        ensures
            final(self).wf(),
            annotation_id.0 == old(self).annotations@.len(),
            final(self).annotations@.len() == old(self).annotations@.len() + 1,
            final(self).annotations@.take(annotation_id.0 as int) == old(self).annotations@,
            final(self).annotations@[annotation_id.0 as int].name@ == name@,
            final(self).annotations@[annotation_id.0 as int].fields@.len() == 0,
            final(self).annotations@[annotation_id.0 as int].span == span,
            final(self).scopes@[old(self).scopes@.len() as int].kind == (ScopeKind::Annotation {
                annotation_id,
            }),
            scope_declared(
                old(self).scopes@,
                final(self).scopes@,
                scope_id,
                false,
                name@,
                SymbolEntry::Annotation(annotation_id),
            ),
            declaration_effect(
                old(self).scopes@,
                final(self).scopes@,
                scope_id,
                name@,
                SymbolEntry::Annotation(annotation_id),
            ),
            final(self).namespaces@ == old(self).namespaces@,
            final(self).classes@ == old(self).classes@,
            final(self).interfaces@ == old(self).interfaces@,
            final(self).enums@ == old(self).enums@,
            final(self).enum_values@ == old(self).enum_values@,
            final(self).fields@ == old(self).fields@,
            final(self).methods@ == old(self).methods@,
            final(self).constructors@ == old(self).constructors@,
            final(self).injectors@ == old(self).injectors@,
            final(self).parameters@ == old(self).parameters@,
            final(self).local_vars@ == old(self).local_vars@,
            final(self).global_scope == old(self).global_scope,
    {
        let annotation_id = AnnotationId(self.annotations.len());
        self.open_scope(scope_id, ScopeKind::Annotation { annotation_id }, false);
        self.annotations.allocate(AnnotationInfo { name: name.to_owned(), fields: Vec::new(), span });
        proof {
            assert(self.annotations@.take(annotation_id.0 as int) =~= old(self).annotations@);
        }
        self.define_symbol(scope_id, name, SymbolEntry::Annotation(annotation_id));
        annotation_id
    }

    /// Sets the super class of class `class_id`.
    pub fn set_super_class(&mut self, class_id: ClassId, super_class: ClassId)
        requires
            old(self).wf(),
            class_id.0 < old(self).classes@.len(),
        ensures
            final(self).wf(),
            final(self).classes@ == old(self).classes@.update(
                class_id.0 as int,
                ClassInfo { super_class: Some(super_class), ..old(self).classes@[class_id.0 as int] },
            ),
            final(self).namespaces@ == old(self).namespaces@,
            final(self).interfaces@ == old(self).interfaces@,
            final(self).enums@ == old(self).enums@,
            final(self).enum_values@ == old(self).enum_values@,
            final(self).fields@ == old(self).fields@,
            final(self).methods@ == old(self).methods@,
            final(self).constructors@ == old(self).constructors@,
            final(self).injectors@ == old(self).injectors@,
            final(self).parameters@ == old(self).parameters@,
            final(self).annotations@ == old(self).annotations@,
            final(self).local_vars@ == old(self).local_vars@,
            final(self).scopes@ == old(self).scopes@,
            final(self).global_scope == old(self).global_scope,
            old(self).type_entries_valid() ==> final(self).type_entries_valid(),
    {
        self.classes.get_mut(class_id.0).super_class = Some(super_class);
        proof {
            assert forall|i: int| 0 <= i < self.classes@.len() implies (#[trigger] self.classes@[i]).scope_id.0
                < self.scopes@.len() by {
                assert(old(self).classes@[i].scope_id == self.classes@[i].scope_id);
            }
        }
    }

    /// Sets the interfaces that class `class_id` implements.
    pub fn set_super_interfaces(&mut self, class_id: ClassId, interfaces: Vec<InterfaceId>)
        requires
            old(self).wf(),
            class_id.0 < old(self).classes@.len(),
        ensures
            final(self).wf(),
            final(self).classes@ == old(self).classes@.update(
                class_id.0 as int,
                ClassInfo { super_interfaces: interfaces, ..old(self).classes@[class_id.0 as int] },
            ),
            final(self).namespaces@ == old(self).namespaces@,
            final(self).interfaces@ == old(self).interfaces@,
            final(self).enums@ == old(self).enums@,
            final(self).enum_values@ == old(self).enum_values@,
            final(self).fields@ == old(self).fields@,
            final(self).methods@ == old(self).methods@,
            final(self).constructors@ == old(self).constructors@,
            final(self).injectors@ == old(self).injectors@,
            final(self).parameters@ == old(self).parameters@,
            final(self).annotations@ == old(self).annotations@,
            final(self).local_vars@ == old(self).local_vars@,
            final(self).scopes@ == old(self).scopes@,
            final(self).global_scope == old(self).global_scope,
            old(self).type_entries_valid() ==> final(self).type_entries_valid(),
    {
        self.classes.get_mut(class_id.0).super_interfaces = interfaces;
        proof {
            assert forall|i: int| 0 <= i < self.classes@.len() implies (#[trigger] self.classes@[i]).scope_id.0
                < self.scopes@.len() by {
                assert(old(self).classes@[i].scope_id == self.classes@[i].scope_id);
            }
        }
    }

    /// Declares field `name` of class `class_id`, in the class scope.
    pub fn declare_field(
        &mut self,
        name: &str,
        class_id: ClassId,
        field_type: TypeInfo,
        is_static: bool,
        span: Span,
    ) -> (field_id: FieldId)
        requires
            old(self).wf(),
            class_id.0 < old(self).classes@.len(),
        ensures
            final(self).wf(),
            field_id.0 == old(self).fields@.len(),
            final(self).fields@.len() == old(self).fields@.len() + 1,
            final(self).fields@.take(field_id.0 as int) == old(self).fields@,
            final(self).fields@[field_id.0 as int].name@ == name@,
            final(self).fields@[field_id.0 as int].class_id == class_id,
            final(self).fields@[field_id.0 as int].field_type == field_type,
            final(self).fields@[field_id.0 as int].is_static == is_static,
            !final(self).fields@[field_id.0 as int].is_native,
            final(self).fields@[field_id.0 as int].offset is None,
            final(self).fields@[field_id.0 as int].span == span,
            final(self).classes@.len() == old(self).classes@.len(),
            final(self).classes@[class_id.0 as int].fields@ == old(self).classes@[class_id.0 as int].fields@.push(field_id),
            final(self).classes@[class_id.0 as int] == (ClassInfo {
                fields: final(self).classes@[class_id.0 as int].fields,
                ..old(self).classes@[class_id.0 as int]
            }),
            forall|i: int| 0 <= i < old(self).classes@.len() && i != class_id.0 ==> final(self).classes@[i] == old(self).classes@[i],
            symbol_declared(
                old(self).scopes@,
                final(self).scopes@,
                old(self).classes@[class_id.0 as int].scope_id,
                name@,
                SymbolEntry::Field(field_id),
            ),
            declaration_effect(
                old(self).scopes@,
                final(self).scopes@,
                old(self).classes@[class_id.0 as int].scope_id,
                name@,
                SymbolEntry::Field(field_id),
            ),
            final(self).namespaces@ == old(self).namespaces@,
            final(self).interfaces@ == old(self).interfaces@,
            final(self).enums@ == old(self).enums@,
            final(self).enum_values@ == old(self).enum_values@,
            final(self).methods@ == old(self).methods@,
            final(self).constructors@ == old(self).constructors@,
            final(self).injectors@ == old(self).injectors@,
            final(self).parameters@ == old(self).parameters@,
            final(self).annotations@ == old(self).annotations@,
            final(self).local_vars@ == old(self).local_vars@,
            final(self).global_scope == old(self).global_scope,
            old(self).type_entries_valid() ==> final(self).type_entries_valid(),
    {
        let field_id = FieldId(
            self.fields.allocate(
                FieldInfo {
                    name: name.to_owned(),
                    class_id,
                    field_type,
                    is_static,
                    is_native: false,
                    offset: None,
                    span,
                },
            ),
        );
        self.classes.get_mut(class_id.0).fields.push(field_id);
        let class_scope = self.classes.get(class_id.0).scope_id;
        proof {
            assert(self.fields@.take(field_id.0 as int) =~= old(self).fields@);
            assert forall|i: int| 0 <= i < self.classes@.len() implies (#[trigger] self.classes@[i]).scope_id.0
                < self.scopes@.len() by {
                assert(old(self).classes@[i].scope_id == self.classes@[i].scope_id);
            }
        }
        self.define_symbol(class_scope, name, SymbolEntry::Field(field_id));
        field_id
    }

    /// Declares method `name` of class `class_id` or else of interface
    /// `interface_id`. Methods of one name are overloads: the new one joins
    /// those declared before under that name.
    pub fn declare_method(
        &mut self,
        name: &str,
        class_id: Option<ClassId>,
        interface_id: Option<InterfaceId>,
        return_type: TypeInfo,
        parameters: Vec<ParameterId>,
        is_static: bool,
        is_native: bool,
        span: Span,
    ) -> (method_id: MethodId)
        requires
            old(self).wf(),
            class_id matches Some(c) ==> c.0 < old(self).classes@.len(),
            (class_id is None && interface_id is Some) ==> interface_id.unwrap().0 < old(self).interfaces@.len(),
        ensures
            final(self).wf(),
            method_id.0 == old(self).methods@.len(),
            final(self).methods@.len() == old(self).methods@.len() + 1,
            final(self).methods@.take(method_id.0 as int) == old(self).methods@,
            final(self).methods@[method_id.0 as int].name@ == name@,
            final(self).methods@[method_id.0 as int].class_id == class_id,
            final(self).methods@[method_id.0 as int].interface_id == interface_id,
            final(self).methods@[method_id.0 as int].return_type == return_type,
            final(self).methods@[method_id.0 as int].parameters@ == parameters@,
            final(self).methods@[method_id.0 as int].is_static == is_static,
            final(self).methods@[method_id.0 as int].is_native == is_native,
            !final(self).methods@[method_id.0 as int].is_override,
            !final(self).methods@[method_id.0 as int].is_abstract,
            final(self).methods@[method_id.0 as int].body_scope_id is None,
            final(self).methods@[method_id.0 as int].span == span,
            final(self).classes@.len() == old(self).classes@.len(),
            final(self).interfaces@.len() == old(self).interfaces@.len(),
            match class_id {
                Some(c) => {
                    let cs = old(self).classes@[c.0 as int].scope_id;
                    let e = final(self).scopes@[cs.0 as int].symbols@[name@];
                    &&& final(self).classes@[c.0 as int].methods@ == old(self).classes@[c.0 as int].methods@.push(method_id)
                    &&& final(self).classes@[c.0 as int] == (ClassInfo {
                        methods: final(self).classes@[c.0 as int].methods,
                        ..old(self).classes@[c.0 as int]
                    })
                    &&& forall|i: int| 0 <= i < old(self).classes@.len() && i != c.0 ==> final(self).classes@[i] == old(self).classes@[i]
                    &&& final(self).interfaces@ == old(self).interfaces@
                    &&& e matches SymbolEntry::Method(ids) && ids@ == prior_overloads(
                        old(self).scopes@[cs.0 as int].symbols@,
                        name@,
                    ).push(method_id)
                    &&& symbol_declared(old(self).scopes@, final(self).scopes@, cs, name@, e)
                    &&& declaration_effect(old(self).scopes@, final(self).scopes@, cs, name@, e)
                },
                None => match interface_id {
                    Some(i) => {
                        let is = old(self).interfaces@[i.0 as int].scope_id;
                        let e = final(self).scopes@[is.0 as int].symbols@[name@];
                        &&& final(self).interfaces@[i.0 as int].methods@ == old(self).interfaces@[i.0 as int].methods@.push(method_id)
                        &&& final(self).interfaces@[i.0 as int] == (InterfaceInfo {
                            methods: final(self).interfaces@[i.0 as int].methods,
                            ..old(self).interfaces@[i.0 as int]
                        })
                        &&& forall|j: int| 0 <= j < old(self).interfaces@.len() && j != i.0 ==> final(self).interfaces@[j] == old(self).interfaces@[j]
                        &&& final(self).classes@ == old(self).classes@
                        &&& e matches SymbolEntry::Method(ids) && ids@ == prior_overloads(
                            old(self).scopes@[is.0 as int].symbols@,
                            name@,
                        ).push(method_id)
                        &&& symbol_declared(old(self).scopes@, final(self).scopes@, is, name@, e)
                        &&& declaration_effect(old(self).scopes@, final(self).scopes@, is, name@, e)
                    },
                    None => {
                        &&& final(self).classes@ == old(self).classes@
                        &&& final(self).interfaces@ == old(self).interfaces@
                        &&& final(self).scopes@ == old(self).scopes@
                    },
                },
            },
            final(self).namespaces@ == old(self).namespaces@,
            final(self).enums@ == old(self).enums@,
            final(self).enum_values@ == old(self).enum_values@,
            final(self).fields@ == old(self).fields@,
            final(self).constructors@ == old(self).constructors@,
            final(self).injectors@ == old(self).injectors@,
            final(self).parameters@ == old(self).parameters@,
            final(self).annotations@ == old(self).annotations@,
            final(self).local_vars@ == old(self).local_vars@,
            final(self).global_scope == old(self).global_scope,
            old(self).type_entries_valid() ==> final(self).type_entries_valid(),
    {
        let method_id = MethodId(
            self.methods.allocate(
                MethodInfo {
                    name: name.to_owned(),
                    class_id,
                    interface_id,
                    return_type,
                    parameters,
                    is_static,
                    is_native,
                    is_override: false,
                    is_abstract: false,
                    body_scope_id: None,
                    span,
                },
            ),
        );
        proof {
            assert(self.methods@.take(method_id.0 as int) =~= old(self).methods@);
        }
        match class_id {
            Some(cid) => {
                let class_scope = self.classes.get(cid.0).scope_id;
                self.classes.get_mut(cid.0).methods.push(method_id);
                proof {
                    assert forall|i: int| 0 <= i < self.classes@.len() implies (
                    #[trigger] self.classes@[i]).scope_id.0 < self.scopes@.len() by {
                        assert(old(self).classes@[i].scope_id == self.classes@[i].scope_id);
                    }
                    assert(scope_wf(self.scopes@, class_scope.0 as int));
                }
                let mut ids: Vec<MethodId> = match self.scopes.get(class_scope.0).symbols.get(name) {
                    Some(SymbolEntry::Method(existing)) => copy_method_ids(existing),
                    _ => Vec::new(),
                };
                assert(ids@ == prior_overloads(self.scopes@[class_scope.0 as int].symbols@, name@));
                ids.push(method_id);
                self.define_symbol(class_scope, name, SymbolEntry::Method(ids));
            },
            None => match interface_id {
                Some(iid) => {
                    let iface_scope = self.interfaces.get(iid.0).scope_id;
                    self.interfaces.get_mut(iid.0).methods.push(method_id);
                    proof {
                        assert forall|i: int| 0 <= i < self.interfaces@.len() implies (
                        #[trigger] self.interfaces@[i]).scope_id.0 < self.scopes@.len() by {
                            assert(old(self).interfaces@[i].scope_id == self.interfaces@[i].scope_id);
                        }
                    }
                    proof {
                        assert(scope_wf(self.scopes@, iface_scope.0 as int));
                    }
                    let mut ids: Vec<MethodId> = match self.scopes.get(iface_scope.0).symbols.get(name) {
                        Some(SymbolEntry::Method(existing)) => copy_method_ids(existing),
                        _ => Vec::new(),
                    };
                    assert(ids@ == prior_overloads(self.scopes@[iface_scope.0 as int].symbols@, name@));
                    ids.push(method_id);
                    self.define_symbol(iface_scope, name, SymbolEntry::Method(ids));
                },
                None => {},
            },
        }
        method_id
    }

    /// Declares a constructor of class `class_id`; constructors are overloads
    /// declared under the name `constructor` in the class scope.
    pub fn declare_constructor(
        &mut self,
        class_id: ClassId,
        parameters: Vec<ParameterId>,
        is_native: bool,
        span: Span,
    ) -> (constructor_id: ConstructorId)
        requires
            old(self).wf(),
            class_id.0 < old(self).classes@.len(),
        ensures
            final(self).wf(),
            constructor_id.0 == old(self).constructors@.len(),
            final(self).constructors@.len() == old(self).constructors@.len() + 1,
            final(self).constructors@.take(constructor_id.0 as int) == old(self).constructors@,
            final(self).constructors@[constructor_id.0 as int].class_id == class_id,
            final(self).constructors@[constructor_id.0 as int].parameters@ == parameters@,
            final(self).constructors@[constructor_id.0 as int].is_native == is_native,
            final(self).constructors@[constructor_id.0 as int].body_scope_id is None,
            final(self).constructors@[constructor_id.0 as int].span == span,
            final(self).classes@.len() == old(self).classes@.len(),
            final(self).classes@[class_id.0 as int].constructors@ == old(self).classes@[class_id.0 as int].constructors@.push(constructor_id),
            final(self).classes@[class_id.0 as int] == (ClassInfo {
                constructors: final(self).classes@[class_id.0 as int].constructors,
                ..old(self).classes@[class_id.0 as int]
            }),
            forall|i: int| 0 <= i < old(self).classes@.len() && i != class_id.0 ==> final(self).classes@[i] == old(self).classes@[i],
            ({
                let cs = old(self).classes@[class_id.0 as int].scope_id;
                let e = final(self).scopes@[cs.0 as int].symbols@["constructor"@];
                &&& e matches SymbolEntry::Constructor(ids) && ids@ == prior_constructors(
                    old(self).scopes@[cs.0 as int].symbols@,
                ).push(constructor_id)
                &&& symbol_declared(old(self).scopes@, final(self).scopes@, cs, "constructor"@, e)
                &&& declaration_effect(old(self).scopes@, final(self).scopes@, cs, "constructor"@, e)
            }),
            final(self).namespaces@ == old(self).namespaces@,
            final(self).interfaces@ == old(self).interfaces@,
            final(self).enums@ == old(self).enums@,
            final(self).enum_values@ == old(self).enum_values@,
            final(self).fields@ == old(self).fields@,
            final(self).methods@ == old(self).methods@,
            final(self).injectors@ == old(self).injectors@,
            final(self).parameters@ == old(self).parameters@,
            final(self).annotations@ == old(self).annotations@,
            final(self).local_vars@ == old(self).local_vars@,
            final(self).global_scope == old(self).global_scope,
            old(self).type_entries_valid() ==> final(self).type_entries_valid(),
    {
        let constructor_id = ConstructorId(
            self.constructors.allocate(
                ConstructorInfo { class_id, parameters, is_native, body_scope_id: None, span },
            ),
        );
        let class_scope = self.classes.get(class_id.0).scope_id;
        self.classes.get_mut(class_id.0).constructors.push(constructor_id);
        proof {
            assert(self.constructors@.take(constructor_id.0 as int) =~= old(self).constructors@);
            assert forall|i: int| 0 <= i < self.classes@.len() implies (#[trigger] self.classes@[i]).scope_id.0
                < self.scopes@.len() by {
                assert(old(self).classes@[i].scope_id == self.classes@[i].scope_id);
            }
            assert(scope_wf(self.scopes@, class_scope.0 as int));
        }
        let ctor_name = "constructor";
        let mut ids: Vec<ConstructorId> = match self.scopes.get(class_scope.0).symbols.get(ctor_name) {
            Some(SymbolEntry::Constructor(existing)) => copy_constructor_ids(existing),
            _ => Vec::new(),
        };
        assert(ids@ == prior_constructors(self.scopes@[class_scope.0 as int].symbols@));
        ids.push(constructor_id);
        self.define_symbol(class_scope, ctor_name, SymbolEntry::Constructor(ids));
        constructor_id
    }

    /// Sets the layout offset of field `field_id`.
    pub fn allocate_field_offset(&mut self, field_id: FieldId, offset: usize)
        requires
            old(self).wf(),
            field_id.0 < old(self).fields@.len(),
        ensures
            final(self).wf(),
            final(self).fields@ == old(self).fields@.update(
                field_id.0 as int,
                FieldInfo { offset: Some(offset), ..old(self).fields@[field_id.0 as int] },
            ),
            final(self).namespaces@ == old(self).namespaces@,
            final(self).classes@ == old(self).classes@,
            final(self).interfaces@ == old(self).interfaces@,
            final(self).enums@ == old(self).enums@,
            final(self).enum_values@ == old(self).enum_values@,
            final(self).methods@ == old(self).methods@,
            final(self).constructors@ == old(self).constructors@,
            final(self).injectors@ == old(self).injectors@,
            final(self).parameters@ == old(self).parameters@,
            final(self).annotations@ == old(self).annotations@,
            final(self).local_vars@ == old(self).local_vars@,
            final(self).scopes@ == old(self).scopes@,
            final(self).global_scope == old(self).global_scope,
            old(self).type_entries_valid() ==> final(self).type_entries_valid(),
    {
        self.fields.get_mut(field_id.0).offset = Some(offset);
    }

    /// Sets the body scope of method `method_id`.
    pub fn set_method_body_scope(&mut self, method_id: MethodId, scope_id: ScopeId)
        requires
            old(self).wf(),
            method_id.0 < old(self).methods@.len(),
        ensures
            final(self).wf(),
            final(self).methods@ == old(self).methods@.update(
                method_id.0 as int,
                MethodInfo { body_scope_id: Some(scope_id), ..old(self).methods@[method_id.0 as int] },
            ),
            final(self).namespaces@ == old(self).namespaces@,
            final(self).classes@ == old(self).classes@,
            final(self).interfaces@ == old(self).interfaces@,
            final(self).enums@ == old(self).enums@,
            final(self).enum_values@ == old(self).enum_values@,
            final(self).fields@ == old(self).fields@,
            final(self).constructors@ == old(self).constructors@,
            final(self).injectors@ == old(self).injectors@,
            final(self).parameters@ == old(self).parameters@,
            final(self).annotations@ == old(self).annotations@,
            final(self).local_vars@ == old(self).local_vars@,
            final(self).scopes@ == old(self).scopes@,
            final(self).global_scope == old(self).global_scope,
            old(self).type_entries_valid() ==> final(self).type_entries_valid(),
    {
        self.methods.get_mut(method_id.0).body_scope_id = Some(scope_id);
    }

    /// Sets the body scope of constructor `constructor_id`.
    pub fn set_constructor_body_scope(&mut self, constructor_id: ConstructorId, scope_id: ScopeId)
        requires
            old(self).wf(),
            constructor_id.0 < old(self).constructors@.len(),
        ensures
            final(self).wf(),
            final(self).constructors@ == old(self).constructors@.update(
                constructor_id.0 as int,
                ConstructorInfo {
                    body_scope_id: Some(scope_id),
                    ..old(self).constructors@[constructor_id.0 as int]
                },
            ),
            final(self).namespaces@ == old(self).namespaces@,
            final(self).classes@ == old(self).classes@,
            final(self).interfaces@ == old(self).interfaces@,
            final(self).enums@ == old(self).enums@,
            final(self).enum_values@ == old(self).enum_values@,
            final(self).fields@ == old(self).fields@,
            final(self).methods@ == old(self).methods@,
            final(self).injectors@ == old(self).injectors@,
            final(self).parameters@ == old(self).parameters@,
            final(self).annotations@ == old(self).annotations@,
            final(self).local_vars@ == old(self).local_vars@,
            final(self).scopes@ == old(self).scopes@,
            final(self).global_scope == old(self).global_scope,
            old(self).type_entries_valid() ==> final(self).type_entries_valid(),
    {
        self.constructors.get_mut(constructor_id.0).body_scope_id = Some(scope_id);
    }

    /// Records parameter `name`; it is declared in no scope here, and has no owner yet.
    pub fn declare_parameter(&mut self, name: &str, param_type: TypeInfo, index: usize, span: Span) -> (param_id: ParameterId)
        requires
            old(self).wf(),
        ensures
            final(self).wf(),
            param_id.0 == old(self).parameters@.len(),
            final(self).parameters@.len() == old(self).parameters@.len() + 1,
            final(self).parameters@.take(param_id.0 as int) == old(self).parameters@,
            final(self).parameters@[param_id.0 as int].name@ == name@,
            final(self).parameters@[param_id.0 as int].param_type == param_type,
            final(self).parameters@[param_id.0 as int].owner_method_id is None,
            final(self).parameters@[param_id.0 as int].owner_constructor_id is None,
            final(self).parameters@[param_id.0 as int].index == index,
            final(self).parameters@[param_id.0 as int].span == span,
            final(self).namespaces@ == old(self).namespaces@,
            final(self).classes@ == old(self).classes@,
            final(self).interfaces@ == old(self).interfaces@,
            final(self).enums@ == old(self).enums@,
            final(self).enum_values@ == old(self).enum_values@,
            final(self).fields@ == old(self).fields@,
            final(self).methods@ == old(self).methods@,
            final(self).constructors@ == old(self).constructors@,
            final(self).injectors@ == old(self).injectors@,
            final(self).annotations@ == old(self).annotations@,
            final(self).local_vars@ == old(self).local_vars@,
            final(self).scopes@ == old(self).scopes@,
            final(self).global_scope == old(self).global_scope,
            old(self).type_entries_valid() ==> final(self).type_entries_valid(),
    {
        let param_id = ParameterId(
            self.parameters.allocate(
                ParameterInfo {
                    name: name.to_owned(),
                    param_type,
                    owner_method_id: None,
                    owner_constructor_id: None,
                    index,
                    span,
                },
            ),
        );
        proof {
            assert(self.parameters@.take(param_id.0 as int) =~= old(self).parameters@);
        }
        param_id
    }

    /// Declares local variable `name` in scope `scope_id`, at stack offset `offset`.
    pub fn declare_local_var(
        &mut self,
        scope_id: ScopeId,
        name: &str,
        var_type: TypeInfo,
        offset: usize,
        span: Span,
    ) -> (var_id: LocalVarId)
        requires
            old(self).wf(),
            old(self).has_scope(scope_id),
        ensures
            final(self).wf(),
            var_id.0 == old(self).local_vars@.len(),
            final(self).local_vars@.len() == old(self).local_vars@.len() + 1,
            final(self).local_vars@.take(var_id.0 as int) == old(self).local_vars@,
            final(self).local_vars@[var_id.0 as int].name@ == name@,
            final(self).local_vars@[var_id.0 as int].var_type == var_type,
            final(self).local_vars@[var_id.0 as int].offset == offset,
            final(self).local_vars@[var_id.0 as int].span == span,
            symbol_declared(old(self).scopes@, final(self).scopes@, scope_id, name@, SymbolEntry::LocalVar(var_id)),
            declaration_effect(old(self).scopes@, final(self).scopes@, scope_id, name@, SymbolEntry::LocalVar(var_id)),
            final(self).namespaces@ == old(self).namespaces@,
            final(self).classes@ == old(self).classes@,
            final(self).interfaces@ == old(self).interfaces@,
            final(self).enums@ == old(self).enums@,
            final(self).enum_values@ == old(self).enum_values@,
            final(self).fields@ == old(self).fields@,
            final(self).methods@ == old(self).methods@,
            final(self).constructors@ == old(self).constructors@,
            final(self).injectors@ == old(self).injectors@,
            final(self).parameters@ == old(self).parameters@,
            final(self).annotations@ == old(self).annotations@,
            final(self).global_scope == old(self).global_scope,
    {
        let var_id = LocalVarId(
            self.local_vars.allocate(LocalVarInfo { name: name.to_owned(), var_type, offset, span }),
        );
        proof {
            assert(self.local_vars@.take(var_id.0 as int) =~= old(self).local_vars@);
        }
        self.define_symbol(scope_id, name, SymbolEntry::LocalVar(var_id));
        var_id
    }

    /// The nearest of scope `scope_id` and its ancestors whose kind satisfies
    /// `predicate`.
    pub fn find_ancestor_scope<F: Fn(&ScopeKind) -> bool>(&self, scope_id: ScopeId, predicate: F) -> (r: Option<ScopeId>)
        requires
            self.wf(),
            self.has_scope(scope_id),
            forall|k: &ScopeKind| #[trigger] predicate.requires((k,)),
            forall|k: &ScopeKind, b1: bool, b2: bool|
                predicate.ensures((k,), b1) && predicate.ensures((k,), b2) ==> b1 == b2,
        ensures
            r == nearest_ancestor(self.scopes@, scope_id.0 as int, accepted_by(predicate)),
    {
        let ghost p = accepted_by(predicate);
        let mut cur: usize = scope_id.0;
        loop
            invariant
                p == accepted_by(predicate),
                self.wf(),
                cur < self.scopes@.len(),
                forall|k: &ScopeKind| #[trigger] predicate.requires((k,)),
                forall|k: &ScopeKind, b1: bool, b2: bool|
                    predicate.ensures((k,), b1) && predicate.ensures((k,), b2) ==> b1 == b2,
                nearest_ancestor(self.scopes@, scope_id.0 as int, p) == nearest_ancestor(
                    self.scopes@,
                    cur as int,
                    p,
                ),
            decreases cur,
        {
            let scope = self.scopes.get(cur);
            proof {
                assert(scope_wf(self.scopes@, cur as int));
            }
            let b = predicate(&scope.kind);
            if b {
                return Some(ScopeId(cur));
            }
            proof {
                if p(scope.kind) {
                    assert(predicate.ensures((&scope.kind,), true));
                }
            }
            match scope.parent {
                Some(q) => {
                    cur = q.0;
                },
                None => {
                    return None;
                },
            }
        }
    }

    /// The nearest class scope enclosing scope `scope_id` (or that scope itself).
    pub fn enclosing_class_scope(&self, scope_id: ScopeId) -> (r: Option<ScopeId>)
        requires
            self.wf(),
            self.has_scope(scope_id),
        ensures
            r == nearest_ancestor(self.scopes@, scope_id.0 as int, class_kind()),
    {
        let ghost p = class_kind();
        let mut cur: usize = scope_id.0;
        loop
            invariant
                p == class_kind(),
                self.wf(),
                cur < self.scopes@.len(),
                nearest_ancestor(self.scopes@, scope_id.0 as int, p) == nearest_ancestor(
                    self.scopes@,
                    cur as int,
                    p,
                ),
            decreases cur,
        {
            let scope = self.scopes.get(cur);
            proof {
                assert(scope_wf(self.scopes@, cur as int));
            }
            if matches!(scope.kind, ScopeKind::Class { .. }) {
                return Some(ScopeId(cur));
            }
            match scope.parent {
                Some(q) => {
                    cur = q.0;
                },
                None => {
                    return None;
                },
            }
        }
    }

    /// The nearest method scope enclosing scope `scope_id` (or that scope itself).
    pub fn enclosing_method_scope(&self, scope_id: ScopeId) -> (r: Option<ScopeId>)
        requires
            self.wf(),
            self.has_scope(scope_id),
        ensures
            r == nearest_ancestor(self.scopes@, scope_id.0 as int, method_kind()),
    {
        let ghost p = method_kind();
        let mut cur: usize = scope_id.0;
        loop
            invariant
                p == method_kind(),
                self.wf(),
                cur < self.scopes@.len(),
                nearest_ancestor(self.scopes@, scope_id.0 as int, p) == nearest_ancestor(
                    self.scopes@,
                    cur as int,
                    p,
                ),
            decreases cur,
        {
            let scope = self.scopes.get(cur);
            proof {
                assert(scope_wf(self.scopes@, cur as int));
            }
            if matches!(scope.kind, ScopeKind::Method { .. }) {
                return Some(ScopeId(cur));
            }
            match scope.parent {
                Some(q) => {
                    cur = q.0;
                },
                None => {
                    return None;
                },
            }
        }
    }

    /// The class that `name` resolves to from scope `scope_id`.
    pub fn lookup_class(&self, scope_id: ScopeId, name: &str) -> (r: Option<ClassId>)
        requires
            self.wf(),
            self.has_scope(scope_id),
        ensures
            r == match resolve(self.scopes@, scope_id.0 as int, name@) {
                Some((SymbolEntry::Class(id), _)) => Some(id),
                _ => None,
            },
    {
        match self.lookup(scope_id, name) {
            Some((SymbolEntry::Class(id), _)) => Some(*id),
            _ => None,
        }
    }

    /// The interface that `name` resolves to from scope `scope_id`.
    pub fn lookup_interface(&self, scope_id: ScopeId, name: &str) -> (r: Option<InterfaceId>)
        requires
            self.wf(),
            self.has_scope(scope_id),
        ensures
            r == match resolve(self.scopes@, scope_id.0 as int, name@) {
                Some((SymbolEntry::Interface(id), _)) => Some(id),
                _ => None,
            },
    {
        match self.lookup(scope_id, name) {
            Some((SymbolEntry::Interface(id), _)) => Some(*id),
            _ => None,
        }
    }

    /// The enum that `name` resolves to from scope `scope`.
    pub fn find_enum_by_name(&self, scope: ScopeId, name: &str) -> (r: Option<EnumId>)
        requires
            self.wf(),
            self.has_scope(scope),
        ensures
            r == match resolve(self.scopes@, scope.0 as int, name@) {
                Some((SymbolEntry::Enum(id), _)) => Some(id),
                _ => None,
            },
    {
        match self.lookup(scope, name) {
            Some((SymbolEntry::Enum(id), _)) => Some(*id),
            _ => None,
        }
    }

    /// The field that `name` resolves to from scope `scope_id`.
    pub fn lookup_field(&self, scope_id: ScopeId, name: &str) -> (r: Option<FieldId>)
        requires
            self.wf(),
            self.has_scope(scope_id),
        ensures
            r == match resolve(self.scopes@, scope_id.0 as int, name@) {
                Some((SymbolEntry::Field(id), _)) => Some(id),
                _ => None,
            },
    {
        match self.lookup(scope_id, name) {
            Some((SymbolEntry::Field(id), _)) => Some(*id),
            _ => None,
        }
    }

    /// All overloads of the method that `name` resolves to from scope
    /// `scope_id`; none where it resolves to no method.
    pub fn lookup_method(&self, scope_id: ScopeId, name: &str) -> (r: Vec<MethodId>)
        requires
            self.wf(),
            self.has_scope(scope_id),
        ensures
            r@ == match resolve(self.scopes@, scope_id.0 as int, name@) {
                Some((SymbolEntry::Method(ids), _)) => ids@,
                _ => Seq::<MethodId>::empty(),
            },
    {
        match self.lookup(scope_id, name) {
            Some((SymbolEntry::Method(ids), _)) => copy_method_ids(ids),
            _ => Vec::new(),
        }
    }

    /// The local variable that `name` resolves to from scope `scope_id`.
    pub fn lookup_local_var(&self, scope_id: ScopeId, name: &str) -> (r: Option<LocalVarId>)
        requires
            self.wf(),
            self.has_scope(scope_id),
        ensures
            r == match resolve(self.scopes@, scope_id.0 as int, name@) {
                Some((SymbolEntry::LocalVar(id), _)) => Some(id),
                _ => None,
            },
    {
        match self.lookup(scope_id, name) {
            Some((SymbolEntry::LocalVar(id), _)) => Some(*id),
            _ => None,
        }
    }

    /// Resolves the type written `type_ref` from scope `scope_id`; `None` when
    /// a name in it resolves to no type.
    #[verifier::loop_isolation(false)]
    pub fn resolve_type(&self, scope_id: ScopeId, type_ref: &ast::TypeRef) -> (r: Option<TypeInfo>)
        requires
            self.wf(),
            self.has_scope(scope_id),
        ensures
            r is Some <==> type_resolves(self.scopes@, scope_id.0 as int, *type_ref),
            r matches Some(ti) ==> resolves_to(self.scopes@, scope_id.0 as int, *type_ref, ti),
        decreases type_ref,
    {
        match type_ref {
            ast::TypeRef::Simple { name, .. } => {
                if let Some(ti) = TypeInfo::from_keyword(name.as_str()) {
                    return Some(ti);
                }
                if let Some(class_id) = self.lookup_class(scope_id, name.as_str()) {
                    return Some(TypeInfo::Object(class_id));
                }
                if let Some(iface_id) = self.lookup_interface(scope_id, name.as_str()) {
                    return Some(TypeInfo::Interface(iface_id));
                }
                if let Some(enum_id) = self.find_enum_by_name(scope_id, name.as_str()) {
                    return Some(TypeInfo::Enum(enum_id));
                }
                None
            },
            ast::TypeRef::Array { element_type, .. } => {
                match self.resolve_type(scope_id, element_type) {
                    Some(inner) => Some(TypeInfo::Array(Box::new(inner))),
                    None => None,
                }
            },
            ast::TypeRef::Delegate { return_type, param_types, .. } => {
                let ret = match self.resolve_type(scope_id, return_type) {
                    Some(t) => t,
                    None => {
                        return None;
                    },
                };
                let mut params: Vec<TypeInfo> = Vec::new();
                let mut i: usize = 0;
                while i < param_types.len()
                    invariant
                        i <= param_types@.len(),
                        params@.len() == i,
                        forall|j: int|
                            0 <= j < i ==> type_resolves(self.scopes@, scope_id.0 as int, #[trigger] param_types@[j]),
                        forall|j: int|
                            0 <= j < i ==> resolves_to(
                                self.scopes@,
                                scope_id.0 as int,
                                #[trigger] param_types@[j],
                                params@[j],
                            ),
                    decreases param_types.len() - i,
                {
                    proof {
                        assert(decreases_to!(*type_ref => param_types@[i as int]));
                    }
                    match self.resolve_type(scope_id, &param_types[i]) {
                        Some(t) => {
                            params.push(t);
                        },
                        None => {
                            return None;
                        },
                    }
                    i = i + 1;
                }
                Some(TypeInfo::Delegate { return_type: Box::new(ret), param_types: params })
            },
            ast::TypeRef::Generic { name, type_args, .. } => {
                let base = match TypeInfo::from_keyword(name.as_str()) {
                    Some(ti) => ti,
                    None => match self.lookup_class(scope_id, name.as_str()) {
                        Some(class_id) => TypeInfo::Object(class_id),
                        None => {
                            return None;
                        },
                    },
                };
                let mut args: Vec<TypeInfo> = Vec::new();
                let mut i: usize = 0;
                while i < type_args.len()
                    invariant
                        i <= type_args@.len(),
                        args@.len() == i,
                        forall|j: int|
                            0 <= j < i ==> type_resolves(self.scopes@, scope_id.0 as int, #[trigger] type_args@[j]),
                        forall|j: int|
                            0 <= j < i ==> resolves_to(
                                self.scopes@,
                                scope_id.0 as int,
                                #[trigger] type_args@[j],
                                args@[j],
                            ),
                    decreases type_args.len() - i,
                {
                    proof {
                        assert(decreases_to!(*type_ref => type_args@[i as int]));
                    }
                    match self.resolve_type(scope_id, &type_args[i]) {
                        Some(t) => {
                            args.push(t);
                        },
                        None => {
                            return None;
                        },
                    }
                    i = i + 1;
                }
                Some(TypeInfo::GenericInstance { base: Box::new(base), type_args: args })
            },
            ast::TypeRef::Injector { base_type, .. } => self.resolve_type(scope_id, base_type),
        }
    }

    /// The entry for `name` in scope `scope_id` or its nearest ancestor that
    /// declares it (the scopes it uses are not searched).
    pub fn lookup_local_only(&self, scope_id: ScopeId, name: &str) -> (r: Option<&SymbolEntry>)
        requires
            self.wf(),
            self.has_scope(scope_id),
        ensures
            entry_as(r, chain_find(self.scopes@, scope_id.0 as int, name@)),
    {
        let mut cur: usize = scope_id.0;
        loop
            invariant
                self.wf(),
                cur < self.scopes@.len(),
                chain_find(self.scopes@, scope_id.0 as int, name@) == chain_find(
                    self.scopes@,
                    cur as int,
                    name@,
                ),
            decreases cur,
        {
            let scope = self.scopes.get(cur);
            proof {
                assert(scope_wf(self.scopes@, cur as int));
            }
            match scope.symbols.get(name) {
                Some(e) => {
                    return Some(e);
                },
                None => {},
            }
            match scope.parent {
                Some(p) => {
                    cur = p.0;
                },
                None => {
                    return None;
                },
            }
        }
    }

    /// Resolves `name` from scope `scope_id`: its own symbols, then its
    /// ancestors, then the scopes it uses; with the scope where it was found.
    pub fn lookup(&self, scope_id: ScopeId, name: &str) -> (r: Option<(&SymbolEntry, ScopeId)>)
        requires
            self.wf(),
            self.has_scope(scope_id),
        ensures
            found_as(r, resolve(self.scopes@, scope_id.0 as int, name@)),
        decreases scope_id.0,
    {
        let scope = self.scopes.get(scope_id.0);
        proof {
            assert(scope_wf(self.scopes@, scope_id.0 as int));
        }
        match scope.symbols.get(name) {
            Some(e) => {
                return Some((e, scope_id));
            },
            None => {},
        }
        match scope.parent {
            Some(p) => {
                let up = self.lookup(p, name);
                if up.is_some() {
                    return up;
                }
            },
            None => {},
        }
        let mut i: usize = 0;
        while i < scope.using_scopes.len()
            invariant
                self.wf(),
                scope_id.0 < self.scopes@.len(),
                *scope == self.scopes@[scope_id.0 as int],
                resolve(self.scopes@, scope_id.0 as int, name@) == usings_find(
                    self.scopes@,
                    scope.using_scopes@,
                    0,
                    name@,
                ),
                scope_wf(self.scopes@, scope_id.0 as int),
                i <= scope.using_scopes@.len(),
                usings_find(self.scopes@, scope.using_scopes@, 0, name@) == usings_find(
                    self.scopes@,
                    scope.using_scopes@,
                    i as int,
                    name@,
                ),
            decreases scope.using_scopes.len() - i,
        {
            let u = scope.using_scopes[i];
            match self.lookup_local_only(u, name) {
                Some(e) => {
                    return Some((e, u));
                },
                None => {},
            }
            i = i + 1;
        }
        None
    }

    /// The entry declared under `name` in scope `scope_id` itself.
    pub fn lookup_local(&self, scope_id: ScopeId, name: &str) -> (r: Option<&SymbolEntry>)
        requires
            self.wf(),
            self.has_scope(scope_id),
        ensures
            match r {
                Some(e) => self.scopes@[scope_id.0 as int].symbols@.contains_key(name@) && *e
                    == self.scopes@[scope_id.0 as int].symbols@[name@],
                None => !self.scopes@[scope_id.0 as int].symbols@.contains_key(name@),
            },
    {
        proof {
            assert(scope_wf(self.scopes@, scope_id.0 as int));
        }
        self.scopes.get(scope_id.0).symbols.get(name)
    }

    /// The parent of scope `scope_id`.
    pub fn parent_scope(&self, scope_id: ScopeId) -> (r: Option<ScopeId>)
        requires
            self.has_scope(scope_id),
        ensures
            r == self.scopes@[scope_id.0 as int].parent,
    {
        self.scopes.get(scope_id.0).parent
    }

    /// The kind of scope `scope_id`.
    pub fn scope_kind(&self, scope_id: ScopeId) -> (r: &ScopeKind)
        requires
            self.has_scope(scope_id),
        ensures
            *r == self.scopes@[scope_id.0 as int].kind,
    {
        &self.scopes.get(scope_id.0).kind
    }
}

/// Every type is the same type as itself.
pub proof fn lemma_same_type_refl(t: TypeInfo)
    ensures
        same_type(t, t),
    decreases t,
{
    match t {
        TypeInfo::Array(e) => {
            lemma_same_type_refl(*e);
        },
        TypeInfo::Delegate { return_type, param_types } => {
            lemma_same_type_refl(*return_type);
            assert forall|i: int| 0 <= i < param_types@.len() implies same_type(
                #[trigger] param_types@[i],
                param_types@[i],
            ) by {
                assert(decreases_to!(t => param_types@[i]));
                lemma_same_type_refl(param_types@[i]);
            }
        },
        TypeInfo::GenericInstance { base, type_args } => {
            lemma_same_type_refl(*base);
            assert forall|i: int| 0 <= i < type_args@.len() implies same_type(
                #[trigger] type_args@[i],
                type_args@[i],
            ) by {
                assert(decreases_to!(t => type_args@[i]));
                lemma_same_type_refl(type_args@[i]);
            }
        },
        _ => {},
    }
}

/// A value of any type converts implicitly to that same type, and so a cast
/// between two types is allowed either way round or not at all.
pub proof fn law_cast_rules(a: TypeInfo, b: TypeInfo)
    ensures
        auto_castable(a, a),
        (auto_castable(a, b) || auto_castable(b, a)) == (auto_castable(b, a) || auto_castable(a, b)),
{
    lemma_same_type_refl(a);
}

/// A name that a scope does not declare itself resolves there as in its
/// parent, wherever the parent resolves it.
pub proof fn law_resolution_inherits_parent(st: &SymbolTable, child: ScopeId, name: Seq<char>)
    requires
        st.wf(),
        st.has_scope(child),
        !st.scopes@[child.0 as int].symbols@.contains_key(name),
        st.scopes@[child.0 as int].parent is Some,
        resolve(st.scopes@, st.scopes@[child.0 as int].parent.unwrap().0 as int, name) is Some,
    ensures
        resolve(st.scopes@, child.0 as int, name) == resolve(
            st.scopes@,
            st.scopes@[child.0 as int].parent.unwrap().0 as int,
            name,
        ),
{
    assert(scope_wf(st.scopes@, child.0 as int));
}

/// An entry that `chain_find` returns is declared in some scope, so it is
/// valid where every declared entry is.
pub proof fn lemma_chain_entry_valid(st: &SymbolTable, sid: int, name: Seq<char>)
    requires
        st.wf(),
        st.type_entries_valid(),
    ensures
        chain_find(st.scopes@, sid, name) matches Some(e) ==> st.type_entry_valid(e),
    decreases sid,
{
    if 0 <= sid < st.scopes@.len() && !st.scopes@[sid].symbols@.contains_key(name) {
        if let Some(p) = st.scopes@[sid].parent {
            if (p.0 as int) < sid {
                lemma_chain_entry_valid(st, p.0 as int, name);
            }
        }
    }
}

proof fn lemma_usings_entry_valid(st: &SymbolTable, us: Seq<ScopeId>, i: int, name: Seq<char>)
    requires
        st.wf(),
        st.type_entries_valid(),
    ensures
        usings_find(st.scopes@, us, i, name) matches Some((e, _)) ==> st.type_entry_valid(e),
    decreases us.len() - i,
{
    if 0 <= i < us.len() {
        lemma_chain_entry_valid(st, us[i].0 as int, name);
        lemma_usings_entry_valid(st, us, i + 1, name);
    }
}

/// An entry that resolution returns is declared in some scope, so it is
/// valid where every declared entry is.
pub proof fn lemma_resolve_entry_valid(st: &SymbolTable, sid: int, name: Seq<char>)
    requires
        st.wf(),
        st.type_entries_valid(),
    ensures
        resolve(st.scopes@, sid, name) matches Some((e, _)) ==> st.type_entry_valid(e),
    decreases sid,
{
    if 0 <= sid < st.scopes@.len() && !st.scopes@[sid].symbols@.contains_key(name) {
        if let Some(p) = st.scopes@[sid].parent {
            if (p.0 as int) < sid {
                lemma_resolve_entry_valid(st, p.0 as int, name);
            }
        }
        lemma_usings_entry_valid(st, st.scopes@[sid].using_scopes@, 0, name);
    }
}

/// The class, interface or enum that a type resolves to exists.
pub proof fn lemma_resolved_type_valid(st: &SymbolTable, sid: int, t: ast::TypeRef, ti: TypeInfo)
    requires
        st.wf(),
        st.type_entries_valid(),
        resolves_to(st.scopes@, sid, t, ti),
    ensures
        ti matches TypeInfo::Object(id) ==> id.0 < st.classes@.len(),
        ti matches TypeInfo::Interface(id) ==> id.0 < st.interfaces@.len(),
        ti matches TypeInfo::Enum(id) ==> id.0 < st.enums@.len(),
    decreases t,
{
    match t {
        ast::TypeRef::Simple { name, .. } => {
            lemma_resolve_entry_valid(st, sid, name@);
        },
        ast::TypeRef::Injector { base_type, .. } => {
            lemma_resolved_type_valid(st, sid, *base_type, ti);
        },
        _ => {},
    }
}

impl Default for SymbolTable {
    fn default() -> (st: Self)
        ensures
            st.wf(),
            st.scopes@.len() == 1,
            st.global_scope == ScopeId(0),
    {
        SymbolTable::new()
    }
}


/// Whether scope `t` is scope `sid` or one of the ancestors that resolution
/// from `sid` visits.
pub open spec fn on_scope_chain(scopes: Seq<Scope>, sid: int, t: int) -> bool
    decreases sid,
{
    if !(0 <= sid < scopes.len()) {
        false
    } else if sid == t {
        true
    } else {
        match scopes[sid].parent {
            Some(p) => if (p.0 as int) < sid {
                on_scope_chain(scopes, p.0 as int, t)
            } else {
                false
            },
            None => false,
        }
    }
}

/// `b` is `a` with, at most, other scopes used by some scopes.
pub open spec fn same_but_usings(a: Seq<Scope>, b: Seq<Scope>) -> bool {
    &&& a.len() == b.len()
    &&& forall|j: int|
        0 <= j < a.len() ==> (#[trigger] b[j]).symbols@ == a[j].symbols@ && b[j].parent
            == a[j].parent
}

/// Looking up a name along a chain of ancestors ignores the scopes used.
pub proof fn lemma_chain_find_same_but_usings(a: Seq<Scope>, b: Seq<Scope>, sid: int, name: Seq<char>)
    requires
        same_but_usings(a, b),
    ensures
        chain_find(b, sid, name) == chain_find(a, sid, name),
    decreases sid,
{
    if 0 <= sid < a.len() {
        assert(b[sid].symbols@ == a[sid].symbols@);
        if !a[sid].symbols@.contains_key(name) {
            if let Some(p) = a[sid].parent {
                if (p.0 as int) < sid {
                    lemma_chain_find_same_but_usings(a, b, p.0 as int, name);
                }
            }
        }
    }
}

/// Looking up a name in the chains of the scopes `usings[i..]` ignores the
/// scopes that those use.
pub proof fn lemma_usings_find_same_but_usings(
    a: Seq<Scope>,
    b: Seq<Scope>,
    usings: Seq<ScopeId>,
    i: int,
    name: Seq<char>,
)
    requires
        same_but_usings(a, b),
    ensures
        usings_find(b, usings, i, name) == usings_find(a, usings, i, name),
    decreases usings.len() - i,
{
    if 0 <= i < usings.len() {
        lemma_chain_find_same_but_usings(a, b, usings[i].0 as int, name);
        lemma_usings_find_same_but_usings(a, b, usings, i + 1, name);
    }
}

/// Resolution from `sid` is unchanged where only scopes off its chain use
/// other scopes.
pub proof fn lemma_resolve_same_but_usings(a: Seq<Scope>, b: Seq<Scope>, sid: int, name: Seq<char>)
    requires
        same_but_usings(a, b),
        forall|j: int|
            0 <= j < a.len() && b[j].using_scopes@ != a[j].using_scopes@ ==> !on_scope_chain(
                a,
                sid,
                j,
            ),
    ensures
        resolve(b, sid, name) == resolve(a, sid, name),
    decreases sid,
{
    if 0 <= sid < a.len() {
        assert(b[sid].symbols@ == a[sid].symbols@);
        if !a[sid].symbols@.contains_key(name) {
            if let Some(p) = a[sid].parent {
                if (p.0 as int) < sid {
                    assert forall|j: int|
                        0 <= j < a.len() && b[j].using_scopes@ != a[j].using_scopes@ implies !on_scope_chain(
                        a,
                        p.0 as int,
                        j,
                    ) by {
                        assert(!on_scope_chain(a, sid, j));
                    }
                    lemma_resolve_same_but_usings(a, b, p.0 as int, name);
                }
            }
            assert(on_scope_chain(a, sid, sid));
            lemma_usings_find_same_but_usings(a, b, a[sid].using_scopes@, 0, name);
        }
    }
}

} // verus!
