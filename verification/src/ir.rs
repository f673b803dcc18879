//! The three-address intermediate code that method bodies are compiled to:
//! typed local addresses, immediate values, and one operator per code.

use vstd::prelude::*;
use crate::span::Span;

verus! {

/// The kind of value a local slot holds; each kind has its own numbering.
#[derive(Debug, Clone, Copy, PartialEq, Eq, Hash, Structural)]
pub enum ValueType {
    Int,
    Float,
    Bool,
    String,
    Object,
}

/// A local slot: its kind and its number among the slots of that kind.
#[derive(Debug, Clone, Copy, PartialEq, Eq, Hash, Structural)]
pub struct Address {
    pub value_type: ValueType,
    pub index: usize,
}

impl Address {
    pub fn new(value_type: ValueType, index: usize) -> (a: Address)
        ensures
            a.value_type == value_type,
            a.index == index,
    {
        Address { value_type, index }
    }
}

/// A constant written into the code. A float constant is held as the bit
/// pattern of its IEEE 754 double.
#[derive(Debug, Clone)]
pub enum ImmediateValue {
    Int(i64),
    Float(u64),
    Bool(bool),
    String(String),
}

impl ImmediateValue {
    /// A copy equal to `self`.
    pub fn duplicate(&self) -> (r: ImmediateValue)
        ensures
            r == *self,
    {
        match self {
            ImmediateValue::Int(v) => ImmediateValue::Int(*v),
            ImmediateValue::Float(v) => ImmediateValue::Float(*v),
            ImmediateValue::Bool(v) => ImmediateValue::Bool(*v),
            ImmediateValue::String(v) => ImmediateValue::String(v.clone()),
        }
    }
}

/// What a code reads: a local slot or a constant.
#[derive(Debug, Clone)]
pub enum Operand {
    Address(Address),
    Immediate(ImmediateValue),
}

impl Operand {
    pub fn integer(v: i64) -> (o: Operand)
        ensures
            o == Operand::Immediate(ImmediateValue::Int(v)),
    {
        Operand::Immediate(ImmediateValue::Int(v))
    }

    pub fn boolean(v: bool) -> (o: Operand)
        ensures
            o == Operand::Immediate(ImmediateValue::Bool(v)),
    {
        Operand::Immediate(ImmediateValue::Bool(v))
    }

    pub fn string(v: String) -> (o: Operand)
        ensures
            o == Operand::Immediate(ImmediateValue::String(v)),
    {
        Operand::Immediate(ImmediateValue::String(v))
    }

    /// A float constant, given by the bit pattern of its double.
    pub fn float_bits(bits: u64) -> (o: Operand)
        ensures
            o == Operand::Immediate(ImmediateValue::Float(bits)),
    {
        Operand::Immediate(ImmediateValue::Float(bits))
    }

    /// A copy equal to `self`.
    pub fn duplicate(&self) -> (r: Operand)
        ensures
            r == *self,
    {
        match self {
            Operand::Address(a) => Operand::Address(*a),
            Operand::Immediate(v) => Operand::Immediate(v.duplicate()),
        }
    }
}

/// The operation of one code. Those with a number refer to a jump target,
/// a field, a method or a constructor by that number.
#[derive(Debug, Clone, Copy, PartialEq, Eq, Hash, Structural)]
pub enum IntermediateOperator {
    IntAssign,
    FloatAssign,
    BoolAssign,
    StringAssign,
    ObjectAssign,
    IntAdd,
    IntSub,
    IntMul,
    IntDiv,
    IntMod,
    FloatAdd,
    FloatSub,
    FloatMul,
    FloatDiv,
    IntEqual,
    IntNotEqual,
    FloatEqual,
    FloatNotEqual,
    BoolEqual,
    BoolNotEqual,
    StringEqual,
    StringNotEqual,
    ObjectEqual,
    ObjectNotEqual,
    IntLess,
    IntLessEqual,
    IntGreater,
    IntGreaterEqual,
    FloatLess,
    FloatLessEqual,
    FloatGreater,
    FloatGreaterEqual,
    LogicalAnd,
    LogicalOr,
    LogicalNot,
    StringAddition,
    Jump(usize),
    JumpIfFalse(usize),
    JumpIfTrue(usize),
    ReturnInt,
    ReturnFloat,
    ReturnBool,
    ReturnString,
    ReturnObject,
    ReturnVoid,
    SetIntParameter,
    SetFloatParameter,
    SetBoolParameter,
    SetStringParameter,
    SetObjectParameter,
    LoadIntParameter,
    LoadFloatParameter,
    LoadBoolParameter,
    LoadStringParameter,
    LoadObjectParameter,
    InvokeInstance(usize),
    InvokeStatic(usize),
    InvokeInterface(usize),
    InvokeDelegate(usize),
    InvokeConstructor(usize),
    DoConstruct(usize),
    InvokeSuperConstructor(usize),
    InvokeArrayConstructor,
    InvokeInjectorConstructor(usize),
    ConstructDelegate(usize),
    LoadIntField(usize),
    LoadFloatField(usize),
    LoadBoolField(usize),
    LoadStringField(usize),
    LoadObjectField(usize),
    SetIntField(usize),
    SetFloatField(usize),
    SetBoolField(usize),
    SetStringField(usize),
    SetObjectField(usize),
    LoadIntInjectorField(usize),
    LoadFloatInjectorField(usize),
    LoadBoolInjectorField(usize),
    LoadStringInjectorField(usize),
    LoadObjectInjectorField(usize),
    SetIntInjectorField(usize),
    SetFloatInjectorField(usize),
    SetBoolInjectorField(usize),
    SetStringInjectorField(usize),
    SetObjectInjectorField(usize),
    LoadThis,
    LoadInjector,
    SetInjector,
    LoadInjectorConstant(usize),
    Nop,
}

/// The operator that copies a value of kind `t` into a slot.
pub open spec fn assign_operator(t: ValueType) -> IntermediateOperator {
    match t {
        ValueType::Int => IntermediateOperator::IntAssign,
        ValueType::Float => IntermediateOperator::FloatAssign,
        ValueType::Bool => IntermediateOperator::BoolAssign,
        ValueType::String => IntermediateOperator::StringAssign,
        ValueType::Object => IntermediateOperator::ObjectAssign,
    }
}

/// One code: an operator, what it reads, and the slot it writes, if any.
#[derive(Debug, Clone)]
pub struct IntermediateCode {
    pub operator: IntermediateOperator,
    pub left: Operand,
    pub right: Option<Operand>,
    pub result: Option<Address>,
}

/// The operand that jumps, returns without a value and no-ops carry on the
/// left: slot number zero of the integers.
pub open spec fn no_operand() -> Operand {
    Operand::Address(Address { value_type: ValueType::Int, index: 0 })
}

impl IntermediateCode {
    pub fn new(
        operator: IntermediateOperator,
        left: Operand,
        right: Option<Operand>,
        result: Option<Address>,
    ) -> (c: IntermediateCode)
        ensures
            c == (IntermediateCode { operator, left, right, result }),
    {
        IntermediateCode { operator, left, right, result }
    }

    /// `result = value`, with the assignment of the result's kind.
    pub fn assign(result: Address, value: Operand) -> (c: IntermediateCode)
        ensures
            c == (IntermediateCode {
                operator: assign_operator(result.value_type),
                left: value,
                right: None,
                result: Some(result),
            }),
    {
        let operator = match result.value_type {
            ValueType::Int => IntermediateOperator::IntAssign,
            ValueType::Float => IntermediateOperator::FloatAssign,
            ValueType::Bool => IntermediateOperator::BoolAssign,
            ValueType::String => IntermediateOperator::StringAssign,
            ValueType::Object => IntermediateOperator::ObjectAssign,
        };
        IntermediateCode { operator, left: value, right: None, result: Some(result) }
    }

    /// `result = left op right`.
    pub fn binary(operator: IntermediateOperator, left: Operand, right: Operand, result: Address) -> (c: IntermediateCode)
        ensures
            c == (IntermediateCode { operator, left, right: Some(right), result: Some(result) }),
    {
        IntermediateCode { operator, left, right: Some(right), result: Some(result) }
    }

    /// A jump to code `target`.
    pub fn jump(target: usize) -> (c: IntermediateCode)
        ensures
            c == (IntermediateCode {
                operator: IntermediateOperator::Jump(target),
                left: no_operand(),
                right: None,
                result: None,
            }),
    {
        IntermediateCode {
            operator: IntermediateOperator::Jump(target),
            left: Operand::Address(Address { value_type: ValueType::Int, index: 0 }),
            right: None,
            result: None,
        }
    }

    /// A jump to code `target` taken when `condition` is false.
    pub fn jump_if_false(condition: Operand, target: usize) -> (c: IntermediateCode)
        ensures
            c == (IntermediateCode {
                operator: IntermediateOperator::JumpIfFalse(target),
                left: condition,
                right: None,
                result: None,
            }),
    {
        IntermediateCode { operator: IntermediateOperator::JumpIfFalse(target), left: condition, right: None, result: None }
    }

    /// A jump to code `target` taken when `condition` is true.
    pub fn jump_if_true(condition: Operand, target: usize) -> (c: IntermediateCode)
        ensures
            c == (IntermediateCode {
                operator: IntermediateOperator::JumpIfTrue(target),
                left: condition,
                right: None,
                result: None,
            }),
    {
        IntermediateCode { operator: IntermediateOperator::JumpIfTrue(target), left: condition, right: None, result: None }
    }

    /// A return with no value.
    pub fn return_void() -> (c: IntermediateCode)
        ensures
            c == (IntermediateCode {
                operator: IntermediateOperator::ReturnVoid,
                left: no_operand(),
                right: None,
                result: None,
            }),
    {
        IntermediateCode {
            operator: IntermediateOperator::ReturnVoid,
            left: Operand::Address(Address { value_type: ValueType::Int, index: 0 }),
            right: None,
            result: None,
        }
    }

    /// A code that does nothing.
    pub fn nop() -> (c: IntermediateCode)
        ensures
            c == (IntermediateCode {
                operator: IntermediateOperator::Nop,
                left: no_operand(),
                right: None,
                result: None,
            }),
    {
        IntermediateCode {
            operator: IntermediateOperator::Nop,
            left: Operand::Address(Address { value_type: ValueType::Int, index: 0 }),
            right: None,
            result: None,
        }
    }

    /// A copy equal to `self`.
    pub fn duplicate(&self) -> (r: IntermediateCode)
        ensures
            r == *self,
    {
        let right = match &self.right {
            Some(o) => Some(o.duplicate()),
            None => None,
        };
        IntermediateCode { operator: self.operator, left: self.left.duplicate(), right, result: self.result }
    }
}

/// A code and the source position it was compiled from.
#[derive(Debug, Clone)]
pub struct CodeWithSpan {
    pub code: IntermediateCode,
    pub span: Span,
}

impl CodeWithSpan {
    pub fn new(code: IntermediateCode, span: Span) -> (c: CodeWithSpan)
        ensures
            c == (CodeWithSpan { code, span }),
    {
        CodeWithSpan { code, span }
    }

    /// A copy equal to `self`.
    pub fn duplicate(&self) -> (r: CodeWithSpan)
        ensures
            r == *self,
    {
        CodeWithSpan { code: self.code.duplicate(), span: self.span }
    }
}

} // verus!
