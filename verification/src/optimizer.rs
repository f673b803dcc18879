//! The optimizer of method bodies: basic blocks and their control flow,
//! removal of dead code, common subexpressions within a block, and jumps to
//! jumps.

use vstd::prelude::*;
use crate::ir::{
    assign_operator, Address, CodeWithSpan, ImmediateValue, IntermediateCode, IntermediateOperator, Operand,
    ValueType,
};

verus! {

/// The code that a jump operator goes to, if `op` is a jump.
pub open spec fn jump_target_of(op: IntermediateOperator) -> Option<usize> {
    match op {
        IntermediateOperator::Jump(t) => Some(t),
        IntermediateOperator::JumpIfFalse(t) => Some(t),
        IntermediateOperator::JumpIfTrue(t) => Some(t),
        _ => None,
    }
}

/// Whether `op` returns from the method.
pub open spec fn is_return(op: IntermediateOperator) -> bool {
    ||| op is ReturnInt
    ||| op is ReturnFloat
    ||| op is ReturnBool
    ||| op is ReturnString
    ||| op is ReturnObject
    ||| op is ReturnVoid
}

/// Whether the code after one with operator `op` starts a new block.
pub open spec fn ends_block(op: IntermediateOperator) -> bool {
    jump_target_of(op) is Some || is_return(op)
}

/// Whether code `j` makes code `i` the first of a block: `i` is where `j`
/// jumps to, or `i` follows a jump or a return at `j`.
pub open spec fn marks_leader(codes: Seq<CodeWithSpan>, j: int, i: int) -> bool {
    ||| (match jump_target_of(codes[j].code.operator) {
        Some(t) => t == i,
        None => false,
    })
    ||| (i == j + 1 && ends_block(codes[j].code.operator))
}

/// Whether code `i` starts a basic block: the first code, a jump target, or
/// the code after a jump or a return.
pub open spec fn is_leader(codes: Seq<CodeWithSpan>, i: int) -> bool {
    i == 0 || exists|j: int| 0 <= j < codes.len() && #[trigger] marks_leader(codes, j, i)
}

/// A run of codes `start..end` entered only at its start and left only at its end.
#[derive(Debug, Clone)]
pub struct BasicBlock {
    pub start: usize,
    pub end: usize,
    /// The blocks control can pass to from this one.
    pub successors: Vec<usize>,
    /// The blocks control can come from into this one.
    pub predecessors: Vec<usize>,
}

/// Whether `blocks` cut `codes` into consecutive runs, each starting at a
/// leader and holding no other, with no control flow edges yet.
pub open spec fn partitions(codes: Seq<CodeWithSpan>, blocks: Seq<BasicBlock>) -> bool {
    &&& (codes.len() == 0 <==> blocks.len() == 0)
    &&& blocks.len() > 0 ==> blocks[0].start == 0 && blocks.last().end == codes.len()
    &&& forall|k: int| 0 <= k < blocks.len() - 1 ==> #[trigger] blocks[k].end == blocks[k + 1].start
    &&& forall|k: int| 0 <= k < blocks.len() ==> {
        &&& (#[trigger] blocks[k]).start < blocks[k].end
        &&& blocks[k].end <= codes.len()
        &&& is_leader(codes, blocks[k].start as int)
        &&& forall|i: int| blocks[k].start < i < blocks[k].end ==> !is_leader(codes, i)
        &&& blocks[k].successors@.len() == 0
        &&& blocks[k].predecessors@.len() == 0
    }
}

/// Whether code `i` is a leader by what codes `0..upto` mark.
pub open spec fn leader_upto(codes: Seq<CodeWithSpan>, upto: int, i: int) -> bool {
    i == 0 || exists|j: int| 0 <= j < upto && #[trigger] marks_leader(codes, j, i)
}

/// Where a jump to `t` ends after following at most `steps` unconditional
/// or conditional jumps that code `t` and its successors make; a jump to
/// itself stops the chain.
pub open spec fn follow_jumps(codes: Seq<CodeWithSpan>, t: usize, steps: nat) -> usize
    decreases steps,
{
    if steps == 0 || t >= codes.len() {
        t
    } else {
        match jump_target_of(codes[t as int].code.operator) {
            Some(next) => if next == t {
                t
            } else {
                follow_jumps(codes, next, (steps - 1) as nat)
            },
            None => t,
        }
    }
}

/// `op` with its jump target replaced by `t` (other operators unchanged).
pub open spec fn with_target(op: IntermediateOperator, t: usize) -> IntermediateOperator {
    match op {
        IntermediateOperator::Jump(_) => IntermediateOperator::Jump(t),
        IntermediateOperator::JumpIfFalse(_) => IntermediateOperator::JumpIfFalse(t),
        IntermediateOperator::JumpIfTrue(_) => IntermediateOperator::JumpIfTrue(t),
        _ => op,
    }
}

/// Code `c` jumping to `t` in place of its own target.
pub open spec fn retargeted(c: CodeWithSpan, t: usize) -> CodeWithSpan {
    CodeWithSpan { code: IntermediateCode { operator: with_target(c.code.operator, t), ..c.code }, ..c }
}

/// Code `c` of `codes` after its jump, if it is one, goes straight to where
/// a chain of up to eight jumps from its target ends.
pub open spec fn jump_shortened(codes: Seq<CodeWithSpan>, c: CodeWithSpan) -> CodeWithSpan {
    match jump_target_of(c.code.operator) {
        Some(t) => retargeted(c, follow_jumps(codes, t, 8)),
        None => c,
    }
}

/// Whether code `c` reads slot `a`, on its left or its right.
pub open spec fn reads_address(c: IntermediateCode, a: Address) -> bool {
    c.left == Operand::Address(a) || c.right == Some(Operand::Address(a))
}

/// Whether some code of `codes` reads slot `a`.
pub open spec fn address_read(codes: Seq<CodeWithSpan>, a: Address) -> bool {
    exists|k: int| 0 <= k < codes.len() && #[trigger] reads_address(codes[k].code, a)
}

/// Whether `c` writes a slot that no code of `codes` reads.
pub open spec fn store_unread(codes: Seq<CodeWithSpan>, c: CodeWithSpan) -> bool {
    match c.code.result {
        Some(r) => !address_read(codes, r),
        None => false,
    }
}

/// The codes of `s`, in order, but those that write a slot no code of `all` reads.
pub open spec fn read_stores(all: Seq<CodeWithSpan>, s: Seq<CodeWithSpan>) -> Seq<CodeWithSpan>
    decreases s.len(),
{
    if s.len() == 0 {
        s
    } else {
        let rest = read_stores(all, s.drop_last());
        if store_unread(all, s.last()) {
            rest
        } else {
            rest.push(s.last())
        }
    }
}

/// Whether `blocks` are consecutive runs that together make up codes `0..n`.
pub open spec fn covers(blocks: Seq<BasicBlock>, n: int) -> bool {
    &&& blocks.len() == 0 ==> n == 0
    &&& blocks.len() > 0 ==> blocks[0].start == 0 && blocks.last().end == n
    &&& forall|k: int| 0 <= k < blocks.len() - 1 ==> #[trigger] blocks[k].end == blocks[k + 1].start
    &&& forall|k: int| 0 <= k < blocks.len() ==> (#[trigger] blocks[k]).start <= blocks[k].end <= n
}

/// How many of the codes `0..i` are kept (not marked in `dead`).
pub open spec fn kept_count(dead: Seq<bool>, i: int) -> int
    decreases i,
{
    if i <= 0 {
        0
    } else {
        kept_count(dead, i - 1) + if dead[i - 1] {
            0int
        } else {
            1int
        }
    }
}

/// Code `c` with its jump target moved to where the kept code it names now
/// stands; a jump to a removed code or past the end keeps its target.
pub open spec fn backfilled(dead: Seq<bool>, c: CodeWithSpan) -> CodeWithSpan {
    match jump_target_of(c.code.operator) {
        Some(t) => if t < dead.len() && !dead[t as int] {
            retargeted(c, kept_count(dead, t as int) as usize)
        } else {
            c
        },
        None => c,
    }
}

/// The kept codes among `0..i`, in order, as they stand before their jumps are moved.
pub open spec fn kept_codes(codes: Seq<CodeWithSpan>, dead: Seq<bool>, i: int) -> Seq<CodeWithSpan>
    decreases i,
{
    if i <= 0 {
        Seq::empty()
    } else {
        let rest = kept_codes(codes, dead, i - 1);
        if dead[i - 1] {
            rest
        } else {
            rest.push(codes[i - 1])
        }
    }
}

/// The codes left when those marked in `dead` are removed, with every jump
/// moved to where its target now stands.
pub open spec fn rebuilt(codes: Seq<CodeWithSpan>, dead: Seq<bool>) -> Seq<CodeWithSpan> {
    kept_codes(codes, dead, codes.len() as int).map_values(|c: CodeWithSpan| backfilled(dead, c))
}

proof fn lemma_kept_count_bounds(dead: Seq<bool>, i: int)
    ensures
        0 <= kept_count(dead, i),
        i >= 0 ==> kept_count(dead, i) <= i,
    decreases i,
{
    if i > 0 {
        lemma_kept_count_bounds(dead, i - 1);
    }
}

proof fn lemma_kept_codes_len(codes: Seq<CodeWithSpan>, dead: Seq<bool>, i: int)
    ensures
        kept_codes(codes, dead, i).len() == kept_count(dead, i),
    decreases i,
{
    if i > 0 {
        lemma_kept_codes_len(codes, dead, i - 1);
    }
}

/// Whether `op` computes a value from its operands alone, so that two codes
/// with it and the same operands compute the same value.
pub open spec fn is_cse_binary(op: IntermediateOperator) -> bool {
    ||| op is IntAdd
    ||| op is IntSub
    ||| op is IntMul
    ||| op is IntDiv
    ||| op is IntMod
    ||| op is FloatAdd
    ||| op is FloatSub
    ||| op is FloatMul
    ||| op is FloatDiv
    ||| op is IntEqual
    ||| op is IntNotEqual
    ||| op is FloatEqual
    ||| op is FloatNotEqual
    ||| op is IntLess
    ||| op is IntLessEqual
    ||| op is IntGreater
    ||| op is IntGreaterEqual
    ||| op is FloatLess
    ||| op is FloatLessEqual
    ||| op is FloatGreater
    ||| op is FloatGreaterEqual
    ||| op is LogicalAnd
    ||| op is LogicalOr
    ||| op is StringAddition
}

/// Whether `op` loads a field, an injector field, the injector or a
/// parameter, which gives the same value again until something stores there.
pub open spec fn is_cse_load(op: IntermediateOperator) -> bool {
    ||| op is LoadIntField
    ||| op is LoadFloatField
    ||| op is LoadBoolField
    ||| op is LoadStringField
    ||| op is LoadObjectField
    ||| op is LoadIntInjectorField
    ||| op is LoadFloatInjectorField
    ||| op is LoadBoolInjectorField
    ||| op is LoadStringInjectorField
    ||| op is LoadObjectInjectorField
    ||| op is LoadInjector
    ||| op is LoadIntParameter
    ||| op is LoadFloatParameter
    ||| op is LoadBoolParameter
    ||| op is LoadStringParameter
    ||| op is LoadObjectParameter
}

/// Whether a code with operator `op` names an expression that can be reused.
pub open spec fn has_expression(op: IntermediateOperator) -> bool {
    is_cse_binary(op) || is_cse_load(op)
}

/// Whether two operands name the same value for reuse: slots by their
/// number, constants by their value.
pub open spec fn operand_key_eq(a: Operand, b: Operand) -> bool {
    match (a, b) {
        (Operand::Address(x), Operand::Address(y)) => x.index == y.index,
        (Operand::Immediate(ImmediateValue::Int(v)), Operand::Immediate(ImmediateValue::Int(w))) => v == w,
        (Operand::Immediate(ImmediateValue::Float(v)), Operand::Immediate(ImmediateValue::Float(w))) => v == w,
        (Operand::Immediate(ImmediateValue::Bool(v)), Operand::Immediate(ImmediateValue::Bool(w))) => v == w,
        (Operand::Immediate(ImmediateValue::String(v)), Operand::Immediate(ImmediateValue::String(w))) => v@ == w@,
        _ => false,
    }
}

/// The operand a missing right operand counts as: slot number zero.
pub open spec fn right_key(o: Option<Operand>) -> Operand {
    match o {
        Some(x) => x,
        None => Operand::Address(Address { value_type: ValueType::Int, index: 0 }),
    }
}

/// Whether codes `c` and `d` compute the same reusable expression.
pub open spec fn same_expression(c: IntermediateCode, d: IntermediateCode) -> bool {
    &&& has_expression(c.operator)
    &&& c.operator == d.operator
    &&& is_cse_binary(c.operator) ==> operand_key_eq(c.left, d.left) && operand_key_eq(
        right_key(c.right),
        right_key(d.right),
    )
}

/// Whether code `c` can change what the expression of code `e` gives: a
/// store to the field, injector field, injector or parameter it loads, or
/// a call or construction, which may change any load.
pub open spec fn kills(c: IntermediateCode, e: IntermediateCode) -> bool {
    match c.operator {
        IntermediateOperator::SetIntField(i) => e.operator == IntermediateOperator::LoadIntField(i),
        IntermediateOperator::SetFloatField(i) => e.operator == IntermediateOperator::LoadFloatField(i),
        IntermediateOperator::SetBoolField(i) => e.operator == IntermediateOperator::LoadBoolField(i),
        IntermediateOperator::SetStringField(i) => e.operator == IntermediateOperator::LoadStringField(i),
        IntermediateOperator::SetObjectField(i) => e.operator == IntermediateOperator::LoadObjectField(i),
        IntermediateOperator::SetIntInjectorField(i) => e.operator == IntermediateOperator::LoadIntInjectorField(i),
        IntermediateOperator::SetFloatInjectorField(i) => e.operator == IntermediateOperator::LoadFloatInjectorField(i),
        IntermediateOperator::SetBoolInjectorField(i) => e.operator == IntermediateOperator::LoadBoolInjectorField(i),
        IntermediateOperator::SetStringInjectorField(i) => e.operator == IntermediateOperator::LoadStringInjectorField(i),
        IntermediateOperator::SetObjectInjectorField(i) => e.operator == IntermediateOperator::LoadObjectInjectorField(i),
        IntermediateOperator::SetInjector => e.operator == IntermediateOperator::LoadInjector,
        IntermediateOperator::SetIntParameter => e.operator == IntermediateOperator::LoadIntParameter,
        IntermediateOperator::SetFloatParameter => e.operator == IntermediateOperator::LoadFloatParameter,
        IntermediateOperator::SetBoolParameter => e.operator == IntermediateOperator::LoadBoolParameter,
        IntermediateOperator::SetStringParameter => e.operator == IntermediateOperator::LoadStringParameter,
        IntermediateOperator::SetObjectParameter => e.operator == IntermediateOperator::LoadObjectParameter,
        IntermediateOperator::InvokeInstance(_) => is_cse_load(e.operator),
        IntermediateOperator::InvokeStatic(_) => is_cse_load(e.operator),
        IntermediateOperator::InvokeInterface(_) => is_cse_load(e.operator),
        IntermediateOperator::InvokeDelegate(_) => is_cse_load(e.operator),
        IntermediateOperator::InvokeConstructor(_) => is_cse_load(e.operator),
        IntermediateOperator::DoConstruct(_) => is_cse_load(e.operator),
        IntermediateOperator::InvokeSuperConstructor(_) => is_cse_load(e.operator),
        IntermediateOperator::ConstructDelegate(_) => is_cse_load(e.operator),
        _ => false,
    }
}

/// The entries of `avail` that code `c` does not kill, in order.
pub open spec fn not_killed(avail: Seq<(IntermediateCode, Address)>, c: IntermediateCode) -> Seq<(IntermediateCode, Address)>
    decreases avail.len(),
{
    if avail.len() == 0 {
        avail
    } else {
        let rest = not_killed(avail.drop_last(), c);
        if kills(c, avail.last().0) {
            rest
        } else {
            rest.push(avail.last())
        }
    }
}

/// The slot holding the expression of `c`, from the first entry of `avail` that computes it.
pub open spec fn lookup_expression(avail: Seq<(IntermediateCode, Address)>, c: IntermediateCode) -> Option<Address>
    decreases avail.len(),
{
    if avail.len() == 0 {
        None
    } else {
        match lookup_expression(avail.drop_last(), c) {
            Some(a) => Some(a),
            None => if same_expression(c, avail.last().0) {
                Some(avail.last().1)
            } else {
                None
            },
        }
    }
}

/// The expressions available, with the slots that hold them, after codes
/// `start..i` of a block have run.
pub open spec fn available_after(codes: Seq<CodeWithSpan>, start: int, i: int) -> Seq<(IntermediateCode, Address)>
    decreases i - start,
{
    if i <= start {
        Seq::empty()
    } else {
        let c = codes[i - 1].code;
        let kept = not_killed(available_after(codes, start, i - 1), c);
        if has_expression(c.operator) && lookup_expression(kept, c) is None && c.result is Some {
            kept.push((c, c.result->0))
        } else {
            kept
        }
    }
}

/// Code `i` of a block starting at `start`, after an expression computed
/// before it in the block (and not killed since) is reused: the code then
/// copies the slot holding it.
pub open spec fn cse_code(codes: Seq<CodeWithSpan>, start: int, i: int) -> CodeWithSpan {
    let c = codes[i].code;
    let kept = not_killed(available_after(codes, start, i), c);
    match (lookup_expression(kept, c), c.result) {
        (Some(a), Some(r)) => if has_expression(c.operator) {
            CodeWithSpan {
                code: IntermediateCode {
                    operator: assign_operator(r.value_type),
                    left: Operand::Address(a),
                    right: None,
                    result: Some(r),
                },
                span: codes[i].span,
            }
        } else {
            codes[i]
        },
        _ => codes[i],
    }
}

/// The field (its kind, whether it is an injector field, its number) that
/// an operator stores to, if it stores to one.
pub open spec fn field_stored(op: IntermediateOperator) -> Option<(ValueType, bool, usize)> {
    match op {
        IntermediateOperator::SetIntField(i) => Some((ValueType::Int, false, i)),
        IntermediateOperator::SetFloatField(i) => Some((ValueType::Float, false, i)),
        IntermediateOperator::SetBoolField(i) => Some((ValueType::Bool, false, i)),
        IntermediateOperator::SetStringField(i) => Some((ValueType::String, false, i)),
        IntermediateOperator::SetObjectField(i) => Some((ValueType::Object, false, i)),
        IntermediateOperator::SetIntInjectorField(i) => Some((ValueType::Int, true, i)),
        IntermediateOperator::SetFloatInjectorField(i) => Some((ValueType::Float, true, i)),
        IntermediateOperator::SetBoolInjectorField(i) => Some((ValueType::Bool, true, i)),
        IntermediateOperator::SetStringInjectorField(i) => Some((ValueType::String, true, i)),
        IntermediateOperator::SetObjectInjectorField(i) => Some((ValueType::Object, true, i)),
        _ => None,
    }
}

/// The field (its kind, whether it is an injector field, its number) that
/// an operator loads from, if it loads one.
pub open spec fn field_loaded(op: IntermediateOperator) -> Option<(ValueType, bool, usize)> {
    match op {
        IntermediateOperator::LoadIntField(i) => Some((ValueType::Int, false, i)),
        IntermediateOperator::LoadFloatField(i) => Some((ValueType::Float, false, i)),
        IntermediateOperator::LoadBoolField(i) => Some((ValueType::Bool, false, i)),
        IntermediateOperator::LoadStringField(i) => Some((ValueType::String, false, i)),
        IntermediateOperator::LoadObjectField(i) => Some((ValueType::Object, false, i)),
        IntermediateOperator::LoadIntInjectorField(i) => Some((ValueType::Int, true, i)),
        IntermediateOperator::LoadFloatInjectorField(i) => Some((ValueType::Float, true, i)),
        IntermediateOperator::LoadBoolInjectorField(i) => Some((ValueType::Bool, true, i)),
        IntermediateOperator::LoadStringInjectorField(i) => Some((ValueType::String, true, i)),
        IntermediateOperator::LoadObjectInjectorField(i) => Some((ValueType::Object, true, i)),
        _ => None,
    }
}

/// The kind of parameter an operator stores, if it stores one.
pub open spec fn parameter_stored(op: IntermediateOperator) -> Option<ValueType> {
    match op {
        IntermediateOperator::SetIntParameter => Some(ValueType::Int),
        IntermediateOperator::SetFloatParameter => Some(ValueType::Float),
        IntermediateOperator::SetBoolParameter => Some(ValueType::Bool),
        IntermediateOperator::SetStringParameter => Some(ValueType::String),
        IntermediateOperator::SetObjectParameter => Some(ValueType::Object),
        _ => None,
    }
}

/// The kind of parameter an operator loads, if it loads one.
pub open spec fn parameter_loaded(op: IntermediateOperator) -> Option<ValueType> {
    match op {
        IntermediateOperator::LoadIntParameter => Some(ValueType::Int),
        IntermediateOperator::LoadFloatParameter => Some(ValueType::Float),
        IntermediateOperator::LoadBoolParameter => Some(ValueType::Bool),
        IntermediateOperator::LoadStringParameter => Some(ValueType::String),
        IntermediateOperator::LoadObjectParameter => Some(ValueType::Object),
        _ => None,
    }
}

/// Whether `op` calls or constructs, which may change any stored value.
pub open spec fn is_call(op: IntermediateOperator) -> bool {
    ||| op is InvokeInstance
    ||| op is InvokeStatic
    ||| op is InvokeInterface
    ||| op is InvokeDelegate
    ||| op is InvokeConstructor
    ||| op is DoConstruct
    ||| op is InvokeSuperConstructor
    ||| op is ConstructDelegate
}

/// A store kills exactly the loads of what it stores: a field store kills
/// the loads of the same field (same kind, same number), a parameter store
/// the loads of that parameter kind, `SetInjector` the load of the
/// injector; a call kills every load; nothing else kills anything.
pub proof fn lemma_kills_what_is_stored(c: IntermediateCode, e: IntermediateCode)
    ensures
        kills(c, e) <==> {
            ||| (field_stored(c.operator) is Some && field_stored(c.operator) == field_loaded(e.operator))
            ||| (parameter_stored(c.operator) is Some && parameter_stored(c.operator) == parameter_loaded(e.operator))
            ||| (c.operator is SetInjector && e.operator is LoadInjector)
            ||| (is_call(c.operator) && is_cse_load(e.operator))
        },
{
}

proof fn lemma_lookup_prefix(avail: Seq<(IntermediateCode, Address)>, c: IntermediateCode, m: int)
    requires
        0 <= m <= avail.len(),
        lookup_expression(avail.take(m), c) is Some,
    ensures
        lookup_expression(avail, c) == lookup_expression(avail.take(m), c),
    decreases avail.len() - m,
{
    if m < avail.len() {
        assert(avail.take(m + 1).drop_last() =~= avail.take(m));
        lemma_lookup_prefix(avail, c, m + 1);
    } else {
        assert(avail.take(m) =~= avail);
    }
}

proof fn lemma_available_frame(a: Seq<CodeWithSpan>, b: Seq<CodeWithSpan>, start: int, i: int)
    requires
        forall|k: int| start <= k < i ==> a[k] == b[k],
    ensures
        available_after(a, start, i) == available_after(b, start, i),
    decreases i - start,
{
    if i > start {
        lemma_available_frame(a, b, start, i - 1);
    }
}

proof fn lemma_cse_code_frame(a: Seq<CodeWithSpan>, b: Seq<CodeWithSpan>, start: int, i: int)
    requires
        start <= i,
        forall|k: int| start <= k <= i ==> a[k] == b[k],
    ensures
        cse_code(a, start, i) == cse_code(b, start, i),
{
    assert(a[i] == b[i]);
    lemma_available_frame(a, b, start, i);
}

/// The blocks of a partition come in order: each ends before a later one starts.
pub proof fn lemma_blocks_ordered(codes: Seq<CodeWithSpan>, blocks: Seq<BasicBlock>, k: int, m: int)
    requires
        partitions(codes, blocks),
        0 <= k < m < blocks.len(),
    ensures
        blocks[k].end <= blocks[m].start,
    decreases m - k,
{
    if k + 1 < m {
        lemma_blocks_ordered(codes, blocks, k + 1, m);
        assert(blocks[k].end == blocks[k + 1].start);
        assert(blocks[k + 1].start < blocks[k + 1].end);
    } else {
        assert(blocks[k].end == blocks[k + 1].start);
    }
}

/// Whether `op` touches storage that the liveness of slots does not follow
/// (parameters, fields, the injector, calls, returns, jumps), so that a code
/// with it is never removed as dead.
pub open spec fn has_side_effect(op: IntermediateOperator) -> bool {
    !(is_cse_binary(op) || op is IntAssign || op is FloatAssign || op is BoolAssign || op is StringAssign
        || op is ObjectAssign || op is BoolEqual || op is BoolNotEqual || op is StringEqual
        || op is StringNotEqual || op is ObjectEqual || op is ObjectNotEqual || op is LogicalNot)
}

/// Whether code `c` may be removed as dead: it has no side effect and writes a slot.
pub open spec fn removable(c: IntermediateCode) -> bool {
    !has_side_effect(c.operator) && c.result is Some
}

/// Whether `dead` marks only removable codes of `codes`.
pub open spec fn marks_removable(codes: Seq<CodeWithSpan>, dead: Seq<bool>) -> bool {
    &&& dead.len() == codes.len()
    &&& forall|i: int| 0 <= i < codes.len() && #[trigger] dead[i] ==> removable(codes[i].code)
}

/// Whether `b` is `a` with some removable codes taken out and the jumps moved accordingly.
pub open spec fn dead_removed(a: Seq<CodeWithSpan>, b: Seq<CodeWithSpan>) -> bool {
    exists|dead: Seq<bool>| #[trigger] marks_removable(a, dead) && b == rebuilt(a, dead)
}

/// Whether `b` is `a` with the common subexpressions of each basic block reused.
pub open spec fn cse_applied(a: Seq<CodeWithSpan>, b: Seq<CodeWithSpan>) -> bool {
    &&& b.len() == a.len()
    &&& exists|blocks: Seq<BasicBlock>|
        #![trigger partitions(a, blocks)]
        partitions(a, blocks) && forall|k: int, i: int|
            #![trigger blocks[k], b[i]]
            0 <= k < blocks.len() && blocks[k].start <= i < blocks[k].end
                ==> b[i] == cse_code(a, blocks[k].start as int, i)
}

/// Whether `b` is `a` after one round of the optimizer: dead code removed,
/// then common subexpressions reused.
pub open spec fn optimized_once(a: Seq<CodeWithSpan>, b: Seq<CodeWithSpan>) -> bool {
    exists|m: Seq<CodeWithSpan>| #[trigger] dead_removed(a, m) && cse_applied(m, b)
}

/// Whether `b` is `a` with every jump shortened.
pub open spec fn jumps_shortened(a: Seq<CodeWithSpan>, b: Seq<CodeWithSpan>) -> bool {
    &&& b.len() == a.len()
    &&& forall|i: int| 0 <= i < a.len() ==> #[trigger] b[i] == jump_shortened(a, a[i])
}

proof fn lemma_rebuilt_len(codes: Seq<CodeWithSpan>, dead: Seq<bool>)
    ensures
        rebuilt(codes, dead).len() <= codes.len(),
{
    lemma_kept_codes_len(codes, dead, codes.len() as int);
    lemma_kept_count_bounds(dead, codes.len() as int);
}

proof fn lemma_dead_removed_len(a: Seq<CodeWithSpan>, b: Seq<CodeWithSpan>)
    requires
        dead_removed(a, b),
    ensures
        b.len() <= a.len(),
{
    let dead = choose|dead: Seq<bool>| #[trigger] marks_removable(a, dead) && b == rebuilt(a, dead);
    lemma_rebuilt_len(a, dead);
}

/// Whether control goes on to the next code after one with operator `op`:
/// all but an unconditional jump and a return.
pub open spec fn falls_through(op: IntermediateOperator) -> bool {
    !(op is Jump) && !is_return(op)
}

/// Whether control passes from block `i` to block `j`: to the block that
/// starts where the last code of `i` jumps, or on to the block right after
/// when that code falls through.
pub open spec fn cfg_edge(codes: Seq<CodeWithSpan>, blocks: Seq<BasicBlock>, i: int, j: int) -> bool {
    let last = codes[blocks[i].end - 1].code.operator;
    ||| (match jump_target_of(last) {
        Some(t) => blocks[j].start == t,
        None => false,
    })
    ||| (falls_through(last) && j == i + 1 && blocks[j].start == blocks[i].end)
}

/// Whether `blocks` are `orig` with their control flow edges filled in.
pub open spec fn cfg_built(codes: Seq<CodeWithSpan>, orig: Seq<BasicBlock>, blocks: Seq<BasicBlock>) -> bool {
    &&& blocks.len() == orig.len()
    &&& forall|i: int|
        0 <= i < blocks.len() ==> (#[trigger] blocks[i]).start == orig[i].start && blocks[i].end == orig[i].end
    &&& forall|i: int, j: int|
        0 <= i < blocks.len() && 0 <= j < blocks.len() ==> (#[trigger] blocks[i].successors@.contains(j as usize)
            <==> cfg_edge(codes, orig, i, j))
    &&& forall|i: int, j: int|
        0 <= i < blocks.len() && 0 <= j < blocks.len() ==> (#[trigger] blocks[j].predecessors@.contains(i as usize)
            <==> cfg_edge(codes, orig, i, j))
}

/// Whether `ent` records code `j` of a block starting at `start`, before
/// `i`: the expression of that code and the slot it wrote, with no code
/// between `j` and `i` that kills it.
pub open spec fn recorded_from(codes: Seq<CodeWithSpan>, i: int, j: int, ent: (IntermediateCode, Address)) -> bool {
    &&& codes[j].code == ent.0
    &&& ent.0.result == Some(ent.1)
    &&& forall|k: int| j < k < i ==> !kills(#[trigger] codes[k].code, ent.0)
}

proof fn lemma_not_killed_members(avail: Seq<(IntermediateCode, Address)>, c: IntermediateCode, m: int)
    requires
        0 <= m < not_killed(avail, c).len(),
    ensures
        exists|m2: int| 0 <= m2 < avail.len() && avail[m2] == not_killed(avail, c)[m] && !kills(c, avail[m2].0),
    decreases avail.len(),
{
    let rest = not_killed(avail.drop_last(), c);
    if m < rest.len() {
        lemma_not_killed_members(avail.drop_last(), c, m);
        let m2 = choose|m2: int| 0 <= m2 < avail.drop_last().len() && avail.drop_last()[m2] == rest[m] && !kills(c, avail.drop_last()[m2].0);
        assert(avail[m2] == avail.drop_last()[m2]);
    } else {
        assert(not_killed(avail, c)[m] == avail.last());
        assert(avail[avail.len() - 1] == avail.last());
    }
}

proof fn lemma_lookup_member(avail: Seq<(IntermediateCode, Address)>, c: IntermediateCode)
    requires
        lookup_expression(avail, c) is Some,
    ensures
        exists|m: int| 0 <= m < avail.len() && avail[m].1 == lookup_expression(avail, c)->0 && same_expression(c, avail[m].0),
    decreases avail.len(),
{
    if lookup_expression(avail.drop_last(), c) is Some {
        lemma_lookup_member(avail.drop_last(), c);
        let m = choose|m: int| 0 <= m < avail.drop_last().len() && avail.drop_last()[m].1 == lookup_expression(avail.drop_last(), c)->0
            && same_expression(c, avail.drop_last()[m].0);
        assert(avail[m] == avail.drop_last()[m]);
    } else {
        assert(avail[avail.len() - 1] == avail.last());
    }
}

/// Every expression available after codes `start..i` of a block was computed
/// by one of those codes, into the slot recorded, and nothing since killed it.
pub proof fn lemma_available_recorded(codes: Seq<CodeWithSpan>, start: int, i: int, m: int)
    requires
        start <= i <= codes.len(),
        0 <= start,
        0 <= m < available_after(codes, start, i).len(),
    ensures
        exists|j: int| start <= j < i && #[trigger] recorded_from(codes, i, j, available_after(codes, start, i)[m]),
    decreases i - start,
{
    let c = codes[i - 1].code;
    let prev = available_after(codes, start, i - 1);
    let kept = not_killed(prev, c);
    let ent = available_after(codes, start, i)[m];
    if m < kept.len() {
        assert(ent == kept[m]);
        lemma_not_killed_members(prev, c, m);
        let m2 = choose|m2: int| 0 <= m2 < prev.len() && prev[m2] == kept[m] && !kills(c, prev[m2].0);
        lemma_available_recorded(codes, start, i - 1, m2);
        let j = choose|j: int| start <= j < i - 1 && #[trigger] recorded_from(codes, i - 1, j, available_after(codes, start, i - 1)[m2]);
        assert forall|k: int| j < k < i implies !kills(#[trigger] codes[k].code, ent.0) by {
            if k < i - 1 {
                assert(recorded_from(codes, i - 1, j, prev[m2]));
            }
        }
        assert(recorded_from(codes, i, j, ent));
    } else {
        assert(ent == (c, c.result->0));
        assert(recorded_from(codes, i, i - 1, ent));
    }
}

/// Reuse of a common subexpression within a block is sound with respect to
/// stores: where CSE turns code `i` into a copy, it copies the slot written
/// by an earlier code `j` of the block that computes the same expression,
/// and no code between them kills that expression; in particular none
/// stores to the field or parameter kind that it loads, and none is a call
/// when it is a load.
pub proof fn lemma_cse_copies_unkilled(codes: Seq<CodeWithSpan>, start: int, i: int)
    requires
        0 <= start <= i < codes.len(),
        cse_code(codes, start, i) != codes[i],
    ensures
        exists|j: int|
            #![trigger codes[j]]
            start <= j < i && same_expression(codes[i].code, codes[j].code) && codes[j].code.result is Some
                && cse_code(codes, start, i).code.left == Operand::Address(codes[j].code.result->0)
                && cse_code(codes, start, i).code.result == codes[i].code.result
                && forall|k: int|
                j < k < i ==> {
                    &&& !(field_stored((#[trigger] codes[k].code).operator) is Some && field_stored(codes[k].code.operator)
                        == field_loaded(codes[j].code.operator))
                    &&& !(parameter_stored(codes[k].code.operator) is Some && parameter_stored(codes[k].code.operator)
                        == parameter_loaded(codes[j].code.operator))
                    &&& !(is_call(codes[k].code.operator) && is_cse_load(codes[j].code.operator))
                    &&& !kills(codes[k].code, codes[j].code)
                },
{
    let c = codes[i].code;
    let avail = available_after(codes, start, i);
    let kept = not_killed(avail, c);
    let a = lookup_expression(kept, c)->0;
    lemma_lookup_member(kept, c);
    let m = choose|m: int| 0 <= m < kept.len() && kept[m].1 == a && same_expression(c, kept[m].0);
    lemma_not_killed_members(avail, c, m);
    let m2 = choose|m2: int| 0 <= m2 < avail.len() && avail[m2] == kept[m] && !kills(c, avail[m2].0);
    lemma_available_recorded(codes, start, i, m2);
    let j = choose|j: int| start <= j < i && #[trigger] recorded_from(codes, i, j, available_after(codes, start, i)[m2]);
    assert forall|k: int| j < k < i implies {
        &&& !(field_stored((#[trigger] codes[k].code).operator) is Some && field_stored(codes[k].code.operator)
            == field_loaded(codes[j].code.operator))
        &&& !(parameter_stored(codes[k].code.operator) is Some && parameter_stored(codes[k].code.operator)
            == parameter_loaded(codes[j].code.operator))
        &&& !(is_call(codes[k].code.operator) && is_cse_load(codes[j].code.operator))
        &&& !kills(codes[k].code, codes[j].code)
    } by {
        assert(recorded_from(codes, i, j, avail[m2]));
        assert(!kills(codes[k].code, codes[j].code));
        lemma_kills_what_is_stored(codes[k].code, codes[j].code);
    }
    let _ = codes[j];
}

/// Dead code removal never removes a code that acts beyond the slots it
/// writes: a store to a field, a parameter or the injector, a call or
/// construction, a return, a jump, or a code that writes no slot.
pub proof fn lemma_removable_has_no_effect(c: IntermediateCode)
    requires
        removable(c),
    ensures
        field_stored(c.operator) is None,
        parameter_stored(c.operator) is None,
        !(c.operator is SetInjector),
        !is_call(c.operator),
        !is_return(c.operator),
        jump_target_of(c.operator) is None,
        c.result is Some,
{
}

/// The optimizer of the intermediate code of method bodies.
pub struct IntermediateCodeOptimizer;

impl IntermediateCodeOptimizer {
    /// The target of a jump code.
    pub fn jump_target(code: &IntermediateCode) -> (r: Option<usize>)
        ensures
            r == jump_target_of(code.operator),
    {
        match code.operator {
            IntermediateOperator::Jump(t) => Some(t),
            IntermediateOperator::JumpIfFalse(t) => Some(t),
            IntermediateOperator::JumpIfTrue(t) => Some(t),
            _ => None,
        }
    }

    fn is_return_op(op: IntermediateOperator) -> (r: bool)
        ensures
            r == is_return(op),
    {
        match op {
            IntermediateOperator::ReturnInt => true,
            IntermediateOperator::ReturnFloat => true,
            IntermediateOperator::ReturnBool => true,
            IntermediateOperator::ReturnString => true,
            IntermediateOperator::ReturnObject => true,
            IntermediateOperator::ReturnVoid => true,
            _ => false,
        }
    }

    /// Which codes start a basic block.
    fn leaders(codes: &Vec<CodeWithSpan>) -> (r: Vec<bool>)
        requires
            codes@.len() > 0,
        ensures
            r@.len() == codes@.len(),
            forall|i: int| 0 <= i < codes@.len() ==> r@[i] == #[trigger] is_leader(codes@, i),
    {
        let n = codes.len();
        let mut leader: Vec<bool> = Vec::new();
        let mut i: usize = 0;
        while i < n
            invariant
                n == codes@.len(),
                i <= n,
                leader@.len() == i,
                forall|k: int| 0 <= k < i ==> leader@[k] == (k == 0),
            decreases n - i,
        {
            leader.push(i == 0);
            i = i + 1;
        }
        let mut j: usize = 0;
        while j < n
            invariant
                n == codes@.len(),
                n > 0,
                j <= n,
                leader@.len() == n,
                forall|k: int| 0 <= k < n ==> leader@[k] == #[trigger] leader_upto(codes@, j as int, k),
            decreases n - j,
        {
            let op = codes[j].code.operator;
            let target = Self::jump_target(&codes[j].code);
            let ends = target.is_some() || Self::is_return_op(op);
            let ghost before = leader@;
            assert(ends == ends_block(codes@[j as int].code.operator));
            if let Some(t) = target {
                if t < n {
                    leader.set(t, true);
                }
            }
            if ends && j + 1 < n {
                leader.set(j + 1, true);
            }
            proof {
                assert forall|k: int| 0 <= k < n implies leader@[k] == #[trigger] leader_upto(codes@, j + 1, k) by {
                    assert(leader@[k] == (before[k] || marks_leader(codes@, j as int, k)));
                    assert(before[k] == leader_upto(codes@, j as int, k));
                    if marks_leader(codes@, j as int, k) {
                        assert(leader_upto(codes@, j + 1, k));
                    }
                    if leader_upto(codes@, j + 1, k) && k != 0 && !marks_leader(codes@, j as int, k) {
                        let w = choose|w: int| 0 <= w < j + 1 && #[trigger] marks_leader(codes@, w, k);
                        assert(w != j);
                        assert(leader_upto(codes@, j as int, k));
                    }
                }
            }
            j = j + 1;
        }
        proof {
            assert forall|k: int| 0 <= k < n implies leader@[k] == #[trigger] is_leader(codes@, k) by {
                assert(leader_upto(codes@, n as int, k) == is_leader(codes@, k));
            }
        }
        leader
    }

    /// Cuts `codes` into basic blocks, in order.
    pub fn partition_basic_blocks(codes: &Vec<CodeWithSpan>) -> (blocks: Vec<BasicBlock>)
        ensures
            partitions(codes@, blocks@),
    {
        if codes.len() == 0 {
            return Vec::new();
        }
        let n = codes.len();
        let leader = Self::leaders(codes);
        let mut blocks: Vec<BasicBlock> = Vec::new();
        let mut start: usize = 0;
        let mut i: usize = 1;
        while i < n
            invariant
                n == codes@.len(),
                n > 0,
                leader@.len() == n,
                forall|k: int| 0 <= k < n ==> leader@[k] == #[trigger] is_leader(codes@, k),
                start < i <= n,
                is_leader(codes@, start as int),
                forall|k: int| start < k < i ==> !is_leader(codes@, k),
                blocks@.len() == 0 <==> start == 0,
                blocks@.len() > 0 ==> blocks@[0].start == 0 && blocks@.last().end == start,
                forall|k: int| 0 <= k < blocks@.len() - 1 ==> #[trigger] blocks@[k].end == blocks@[k + 1].start,
                forall|k: int| 0 <= k < blocks@.len() ==> {
                    &&& (#[trigger] blocks@[k]).start < blocks@[k].end
                    &&& blocks@[k].end <= start
                    &&& is_leader(codes@, blocks@[k].start as int)
                    &&& forall|m: int| blocks@[k].start < m < blocks@[k].end ==> !is_leader(codes@, m)
                    &&& blocks@[k].successors@.len() == 0
                    &&& blocks@[k].predecessors@.len() == 0
                },
            decreases n - i,
        {
            if leader[i] {
                blocks.push(BasicBlock { start, end: i, successors: Vec::new(), predecessors: Vec::new() });
                start = i;
            }
            i = i + 1;
        }
        blocks.push(BasicBlock { start, end: n, successors: Vec::new(), predecessors: Vec::new() });
        blocks
    }

    fn operand_is(o: &Operand, a: Address) -> (r: bool)
        ensures
            r == (*o == Operand::Address(a)),
    {
        match o {
            Operand::Address(x) => *x == a,
            Operand::Immediate(_) => false,
        }
    }

    /// Whether code `c` reads slot `a`.
    pub fn code_reads(c: &IntermediateCode, a: Address) -> (r: bool)
        ensures
            r == reads_address(*c, a),
    {
        if Self::operand_is(&c.left, a) {
            return true;
        }
        match &c.right {
            Some(o) => Self::operand_is(o, a),
            None => false,
        }
    }

    /// Whether some code of `codes` reads slot `a`.
    pub fn is_address_read(codes: &Vec<CodeWithSpan>, a: Address) -> (r: bool)
        ensures
            r == address_read(codes@, a),
    {
        let mut k: usize = 0;
        while k < codes.len()
            invariant
                k <= codes@.len(),
                forall|j: int| 0 <= j < k ==> !#[trigger] reads_address(codes@[j].code, a),
            decreases codes.len() - k,
        {
            if Self::code_reads(&codes[k].code, a) {
                return true;
            }
            k = k + 1;
        }
        false
    }

    /// Removes the codes that write a slot no code reads; a list of fewer
    /// than two codes is kept as it is.
    pub fn eliminate_dead_stores(codes: &Vec<CodeWithSpan>) -> (r: Vec<CodeWithSpan>)
        ensures
            r@ == if codes@.len() < 2 {
                codes@
            } else {
                read_stores(codes@, codes@)
            },
    {
        let mut out: Vec<CodeWithSpan> = Vec::new();
        let mut i: usize = 0;
        if codes.len() < 2 {
            while i < codes.len()
                invariant
                    i <= codes@.len(),
                    out@ == codes@.take(i as int),
                decreases codes.len() - i,
            {
                out.push(codes[i].duplicate());
                proof {
                    assert(codes@.take(i + 1) =~= codes@.take(i as int).push(codes@[i as int]));
                }
                i = i + 1;
            }
            proof {
                assert(codes@.take(codes@.len() as int) =~= codes@);
            }
            return out;
        }
        while i < codes.len()
            invariant
                i <= codes@.len(),
                out@ == read_stores(codes@, codes@.take(i as int)),
            decreases codes.len() - i,
        {
            let dead = match codes[i].code.result {
                Some(r) => !Self::is_address_read(codes, r),
                None => false,
            };
            proof {
                assert(codes@.take(i + 1).drop_last() =~= codes@.take(i as int));
            }
            if !dead {
                out.push(codes[i].duplicate());
            }
            i = i + 1;
        }
        proof {
            assert(codes@.take(codes@.len() as int) =~= codes@);
        }
        out
    }

    /// Rebuilds the code list from `blocks`, in order, without the codes
    /// marked in `dead`, and moves every jump to where its target now stands.
    pub fn rebuild_code_list(blocks: &Vec<BasicBlock>, codes: &Vec<CodeWithSpan>, dead: &Vec<bool>) -> (r: Vec<CodeWithSpan>)
        requires
            covers(blocks@, codes@.len() as int),
            dead@.len() == codes@.len(),
        ensures
            r@ == rebuilt(codes@, dead@),
    {
        let n = codes.len();
        let mut old_to_new: Vec<Option<usize>> = Vec::new();
        let mut k: usize = 0;
        while k < n
            invariant
                k <= n,
                old_to_new@.len() == k,
                forall|j: int| 0 <= j < k ==> old_to_new@[j] is None,
            decreases n - k,
        {
            old_to_new.push(None);
            k = k + 1;
        }
        let mut raw: Vec<CodeWithSpan> = Vec::new();
        let mut pos: usize = 0;
        let mut b: usize = 0;
        while b < blocks.len()
            invariant
                n == codes@.len(),
                dead@.len() == n,
                covers(blocks@, n as int),
                b <= blocks@.len(),
                pos == if b == 0 {
                    0
                } else {
                    blocks@[b - 1].end as int
                },
                pos <= n,
                raw@ == kept_codes(codes@, dead@, pos as int),
                old_to_new@.len() == n,
                forall|j: int|
                    0 <= j < n ==> #[trigger] old_to_new@[j] == if j < pos && !dead@[j] {
                        Some(kept_count(dead@, j) as usize)
                    } else {
                        None
                    },
            decreases blocks.len() - b,
        {
            let end = blocks[b].end;
            proof {
                if b > 0 {
                    assert(blocks@[b - 1].end == blocks@[b as int].start);
                }
            }
            while pos < end
                invariant
                    n == codes@.len(),
                    dead@.len() == n,
                    end <= n,
                    pos <= end,
                    raw@ == kept_codes(codes@, dead@, pos as int),
                    old_to_new@.len() == n,
                    forall|j: int|
                        0 <= j < n ==> #[trigger] old_to_new@[j] == if j < pos && !dead@[j] {
                            Some(kept_count(dead@, j) as usize)
                        } else {
                            None
                        },
                decreases end - pos,
            {
                proof {
                    lemma_kept_codes_len(codes@, dead@, pos as int);
                    lemma_kept_count_bounds(dead@, pos as int);
                }
                if !dead[pos] {
                    old_to_new.set(pos, Some(raw.len()));
                    raw.push(codes[pos].duplicate());
                }
                pos = pos + 1;
            }
            b = b + 1;
        }
        proof {
            if blocks@.len() > 0 {
                assert(pos == n);
            }
        }
        let ghost raw_seq = raw@;
        let mut out: Vec<CodeWithSpan> = Vec::new();
        let mut i: usize = 0;
        while i < raw.len()
            invariant
                n == codes@.len(),
                dead@.len() == n,
                raw@ == raw_seq,
                i <= raw@.len(),
                out@.len() == i,
                forall|j: int| 0 <= j < i ==> #[trigger] out@[j] == backfilled(dead@, raw_seq[j]),
                old_to_new@.len() == n,
                forall|j: int|
                    0 <= j < n ==> #[trigger] old_to_new@[j] == if !dead@[j] {
                        Some(kept_count(dead@, j) as usize)
                    } else {
                        None
                    },
            decreases raw.len() - i,
        {
            let c = &raw[i];
            let mut nc = c.duplicate();
            match Self::jump_target(&c.code) {
                Some(t) => {
                    if t < n {
                        match old_to_new[t] {
                            Some(nt) => {
                                nc.code.operator = Self::set_target(nc.code.operator, nt);
                            },
                            None => {},
                        }
                    }
                },
                None => {},
            }
            out.push(nc);
            i = i + 1;
        }
        proof {
            assert(raw_seq == kept_codes(codes@, dead@, n as int));
            assert(out@ =~= rebuilt(codes@, dead@));
        }
        out
    }

    fn is_cse_binary_op(op: IntermediateOperator) -> (r: bool)
        ensures
            r == is_cse_binary(op),
    {
        match op {
            IntermediateOperator::IntAdd | IntermediateOperator::IntSub | IntermediateOperator::IntMul
            | IntermediateOperator::IntDiv | IntermediateOperator::IntMod | IntermediateOperator::FloatAdd
            | IntermediateOperator::FloatSub | IntermediateOperator::FloatMul | IntermediateOperator::FloatDiv
            | IntermediateOperator::IntEqual | IntermediateOperator::IntNotEqual
            | IntermediateOperator::FloatEqual | IntermediateOperator::FloatNotEqual
            | IntermediateOperator::IntLess | IntermediateOperator::IntLessEqual
            | IntermediateOperator::IntGreater | IntermediateOperator::IntGreaterEqual
            | IntermediateOperator::FloatLess | IntermediateOperator::FloatLessEqual
            | IntermediateOperator::FloatGreater | IntermediateOperator::FloatGreaterEqual
            | IntermediateOperator::LogicalAnd | IntermediateOperator::LogicalOr
            | IntermediateOperator::StringAddition => true,
            _ => false,
        }
    }

    fn is_cse_load_op(op: IntermediateOperator) -> (r: bool)
        ensures
            r == is_cse_load(op),
    {
        match op {
            IntermediateOperator::LoadIntField(_) | IntermediateOperator::LoadFloatField(_)
            | IntermediateOperator::LoadBoolField(_) | IntermediateOperator::LoadStringField(_)
            | IntermediateOperator::LoadObjectField(_) | IntermediateOperator::LoadIntInjectorField(_)
            | IntermediateOperator::LoadFloatInjectorField(_) | IntermediateOperator::LoadBoolInjectorField(_)
            | IntermediateOperator::LoadStringInjectorField(_) | IntermediateOperator::LoadObjectInjectorField(_)
            | IntermediateOperator::LoadInjector | IntermediateOperator::LoadIntParameter
            | IntermediateOperator::LoadFloatParameter | IntermediateOperator::LoadBoolParameter
            | IntermediateOperator::LoadStringParameter | IntermediateOperator::LoadObjectParameter => true,
            _ => false,
        }
    }

    fn operand_keys_equal(a: &Operand, b: &Operand) -> (r: bool)
        ensures
            r == operand_key_eq(*a, *b),
    {
        match (a, b) {
            (Operand::Address(x), Operand::Address(y)) => x.index == y.index,
            (Operand::Immediate(ImmediateValue::Int(v)), Operand::Immediate(ImmediateValue::Int(w))) => *v == *w,
            (Operand::Immediate(ImmediateValue::Float(v)), Operand::Immediate(ImmediateValue::Float(w))) => *v == *w,
            (Operand::Immediate(ImmediateValue::Bool(v)), Operand::Immediate(ImmediateValue::Bool(w))) => *v == *w,
            (Operand::Immediate(ImmediateValue::String(v)), Operand::Immediate(ImmediateValue::String(w))) => *v == *w,
            _ => false,
        }
    }

    fn right_operand_key(o: &Option<Operand>) -> (r: Operand)
        ensures
            r == right_key(*o),
    {
        match o {
            Some(x) => x.duplicate(),
            None => Operand::Address(Address { value_type: ValueType::Int, index: 0 }),
        }
    }

    /// Whether codes `c` and `d` compute the same reusable expression.
    fn same_expression_exec(c: &IntermediateCode, d: &IntermediateCode) -> (r: bool)
        ensures
            r == same_expression(*c, *d),
    {
        let binary = Self::is_cse_binary_op(c.operator);
        if !(binary || Self::is_cse_load_op(c.operator)) || c.operator != d.operator {
            return false;
        }
        if !binary {
            return true;
        }
        let rc = Self::right_operand_key(&c.right);
        let rd = Self::right_operand_key(&d.right);
        Self::operand_keys_equal(&c.left, &d.left) && Self::operand_keys_equal(&rc, &rd)
    }

    /// Whether code `c` can change what the expression of code `e` gives.
    fn kills_exec(c: &IntermediateCode, e: &IntermediateCode) -> (r: bool)
        ensures
            r == kills(*c, *e),
    {
        match c.operator {
            IntermediateOperator::SetIntField(i) => e.operator == IntermediateOperator::LoadIntField(i),
            IntermediateOperator::SetFloatField(i) => e.operator == IntermediateOperator::LoadFloatField(i),
            IntermediateOperator::SetBoolField(i) => e.operator == IntermediateOperator::LoadBoolField(i),
            IntermediateOperator::SetStringField(i) => e.operator == IntermediateOperator::LoadStringField(i),
            IntermediateOperator::SetObjectField(i) => e.operator == IntermediateOperator::LoadObjectField(i),
            IntermediateOperator::SetIntInjectorField(i) => e.operator == IntermediateOperator::LoadIntInjectorField(i),
            IntermediateOperator::SetFloatInjectorField(i) => e.operator == IntermediateOperator::LoadFloatInjectorField(i),
            IntermediateOperator::SetBoolInjectorField(i) => e.operator == IntermediateOperator::LoadBoolInjectorField(i),
            IntermediateOperator::SetStringInjectorField(i) => e.operator == IntermediateOperator::LoadStringInjectorField(i),
            IntermediateOperator::SetObjectInjectorField(i) => e.operator == IntermediateOperator::LoadObjectInjectorField(i),
            IntermediateOperator::SetInjector => e.operator == IntermediateOperator::LoadInjector,
            IntermediateOperator::SetIntParameter => e.operator == IntermediateOperator::LoadIntParameter,
            IntermediateOperator::SetFloatParameter => e.operator == IntermediateOperator::LoadFloatParameter,
            IntermediateOperator::SetBoolParameter => e.operator == IntermediateOperator::LoadBoolParameter,
            IntermediateOperator::SetStringParameter => e.operator == IntermediateOperator::LoadStringParameter,
            IntermediateOperator::SetObjectParameter => e.operator == IntermediateOperator::LoadObjectParameter,
            IntermediateOperator::InvokeInstance(_) | IntermediateOperator::InvokeStatic(_)
            | IntermediateOperator::InvokeInterface(_) | IntermediateOperator::InvokeDelegate(_)
            | IntermediateOperator::InvokeConstructor(_) | IntermediateOperator::DoConstruct(_)
            | IntermediateOperator::InvokeSuperConstructor(_) | IntermediateOperator::ConstructDelegate(_) => {
                Self::is_cse_load_op(e.operator)
            },
            _ => false,
        }
    }

    /// Reuses, within one block, each expression computed earlier in the
    /// block and not killed since: the later code copies the slot holding it.
    fn cse_in_block(codes: &mut Vec<CodeWithSpan>, block: &BasicBlock)
        requires
            block.start <= block.end <= old(codes)@.len(),
        ensures
            final(codes)@.len() == old(codes)@.len(),
            forall|i: int|
                0 <= i < old(codes)@.len() ==> #[trigger] final(codes)@[i] == if block.start <= i < block.end {
                    cse_code(old(codes)@, block.start as int, i)
                } else {
                    old(codes)@[i]
                },
    {
        let ghost orig = codes@;
        let start = block.start;
        let mut avail: Vec<(IntermediateCode, Address)> = Vec::new();
        let mut i = start;
        while i < block.end
            invariant
                start <= i <= block.end <= orig.len(),
                codes@.len() == orig.len(),
                avail@ == available_after(orig, start as int, i as int),
                forall|k: int|
                    0 <= k < orig.len() ==> #[trigger] codes@[k] == if start <= k < i {
                        cse_code(orig, start as int, k)
                    } else {
                        orig[k]
                    },
            decreases block.end - i,
        {
            let c = codes[i].code.duplicate();
            let span = codes[i].span;
            let mut kept: Vec<(IntermediateCode, Address)> = Vec::new();
            let mut j: usize = 0;
            while j < avail.len()
                invariant
                    j <= avail@.len(),
                    kept@ == not_killed(avail@.take(j as int), c),
                decreases avail.len() - j,
            {
                proof {
                    assert(avail@.take(j + 1).drop_last() =~= avail@.take(j as int));
                }
                if !Self::kills_exec(&c, &avail[j].0) {
                    kept.push((avail[j].0.duplicate(), avail[j].1));
                }
                j = j + 1;
            }
            proof {
                assert(avail@.take(avail@.len() as int) =~= avail@);
            }
            let mut found: Option<Address> = None;
            let mut j: usize = 0;
            while j < kept.len() && found.is_none()
                invariant
                    j <= kept@.len(),
                    found is None ==> lookup_expression(kept@.take(j as int), c) is None,
                    found is Some ==> found == lookup_expression(kept@, c),
                decreases kept.len() - j,
            {
                proof {
                    assert(kept@.take(j + 1).drop_last() =~= kept@.take(j as int));
                }
                if Self::same_expression_exec(&c, &kept[j].0) {
                    found = Some(kept[j].1);
                    proof {
                        lemma_lookup_prefix(kept@, c, j + 1);
                    }
                }
                j = j + 1;
            }
            proof {
                if found is None {
                    assert(kept@.take(kept@.len() as int) =~= kept@);
                }
                assert(found == lookup_expression(kept@, c));
            }
            let has_expr = Self::is_cse_binary_op(c.operator) || Self::is_cse_load_op(c.operator);
            if has_expr {
                match found {
                    Some(a) => {
                        if let Some(r) = c.result {
                            codes.set(i, CodeWithSpan::new(IntermediateCode::assign(r, Operand::Address(a)), span));
                        }
                    },
                    None => {
                        if let Some(r) = c.result {
                            kept.push((c, r));
                        }
                    },
                }
            }
            avail = kept;
            i = i + 1;
        }
    }

    /// Reuses common subexpressions within each basic block of `codes`.
    pub fn global_cse(codes: &Vec<CodeWithSpan>) -> (r: Vec<CodeWithSpan>)
        ensures
            r@.len() == codes@.len(),
            exists|blocks: Seq<BasicBlock>|
                #![trigger partitions(codes@, blocks)]
                partitions(codes@, blocks) && forall|k: int, i: int|
                    #![trigger blocks[k], r@[i]]
                    0 <= k < blocks.len() && blocks[k].start <= i < blocks[k].end
                        ==> r@[i] == cse_code(codes@, blocks[k].start as int, i),
    {
        let blocks = Self::partition_basic_blocks(codes);
        if codes.len() == 0 {
            return Vec::new();
        }
        let n = codes.len();
        let mut out: Vec<CodeWithSpan> = Vec::new();
        let mut i: usize = 0;
        while i < n
            invariant
                n == codes@.len(),
                i <= n,
                out@ == codes@.take(i as int),
            decreases n - i,
        {
            out.push(codes[i].duplicate());
            proof {
                assert(codes@.take(i + 1) =~= codes@.take(i as int).push(codes@[i as int]));
            }
            i = i + 1;
        }
        proof {
            assert(codes@.take(n as int) =~= codes@);
        }
        let mut b: usize = 0;
        while b < blocks.len()
            invariant
                n == codes@.len(),
                partitions(codes@, blocks@),
                b <= blocks@.len(),
                out@.len() == n,
                forall|k: int, i: int|
                    #![trigger blocks@[k], out@[i]]
                    0 <= k < b && blocks@[k].start <= i < blocks@[k].end
                        ==> out@[i] == cse_code(codes@, blocks@[k].start as int, i),
                forall|i: int|
                    0 <= i < n && b < blocks@.len() && blocks@[b as int].start <= i ==> #[trigger] out@[i] == codes@[i],
            decreases blocks.len() - b,
        {
            let ghost before = out@;
            Self::cse_in_block(&mut out, &blocks[b]);
            proof {
                let bs = blocks@[b as int].start as int;
                let be = blocks@[b as int].end as int;
                assert forall|k: int, i: int|
                    #![trigger blocks@[k], out@[i]]
                    0 <= k < b + 1 && blocks@[k].start <= i < blocks@[k].end
                        implies out@[i] == cse_code(codes@, blocks@[k].start as int, i) by {
                    if k < b {
                        lemma_blocks_ordered(codes@, blocks@, k, b as int);
                        assert(before[i] == cse_code(codes@, blocks@[k].start as int, i));
                    } else {
                        assert forall|j: int| bs <= j <= i implies before[j] == codes@[j] by {
                            assert(before[j] == codes@[j]);
                        }
                        lemma_cse_code_frame(before, codes@, bs, i);
                    }
                }
                assert forall|i: int|
                    0 <= i < n && b + 1 < blocks@.len() && blocks@[b + 1].start <= i implies #[trigger] out@[i] == codes@[i] by {
                    assert(blocks@[b as int].end == blocks@[b + 1].start);
                    assert(out@[i] == before[i]);
                }
            }
            b = b + 1;
        }
        out
    }

    /// Whether a code with operator `op` is kept whatever the liveness of its result.
    pub fn has_side_effect_op(op: IntermediateOperator) -> (r: bool)
        ensures
            r == has_side_effect(op),
    {
        match op {
            IntermediateOperator::IntAssign | IntermediateOperator::FloatAssign | IntermediateOperator::BoolAssign
            | IntermediateOperator::StringAssign | IntermediateOperator::ObjectAssign
            | IntermediateOperator::BoolEqual | IntermediateOperator::BoolNotEqual
            | IntermediateOperator::StringEqual | IntermediateOperator::StringNotEqual
            | IntermediateOperator::ObjectEqual | IntermediateOperator::ObjectNotEqual
            | IntermediateOperator::LogicalNot => false,
            _ => !Self::is_cse_binary_op(op),
        }
    }

    fn live_contains(live: &Vec<Address>, a: Address) -> (r: bool)
        ensures
            r == live@.contains(a),
    {
        let mut k: usize = 0;
        while k < live.len()
            invariant
                k <= live@.len(),
                forall|j: int| 0 <= j < k ==> live@[j] != a,
            decreases live.len() - k,
        {
            if live[k] == a {
                return true;
            }
            k = k + 1;
        }
        false
    }

    fn live_insert(live: &mut Vec<Address>, a: Address) {
        if !Self::live_contains(live, a) {
            live.push(a);
        }
    }

    fn live_remove(live: &mut Vec<Address>, a: Address) {
        let mut out: Vec<Address> = Vec::new();
        let mut k: usize = 0;
        while k < live.len()
            decreases live.len() - k,
        {
            if live[k] != a {
                out.push(live[k]);
            }
            k = k + 1;
        }
        *live = out;
    }

    fn live_union(live: &mut Vec<Address>, other: &Vec<Address>) {
        let mut k: usize = 0;
        while k < other.len()
            decreases other.len() - k,
        {
            Self::live_insert(live, other[k]);
            k = k + 1;
        }
    }

    fn copy_live(v: &Vec<Address>) -> (r: Vec<Address>) {
        let mut out: Vec<Address> = Vec::new();
        let mut k: usize = 0;
        while k < v.len()
            decreases v.len() - k,
        {
            out.push(v[k]);
            k = k + 1;
        }
        out
    }

    fn insert_operands(code: &IntermediateCode, live: &mut Vec<Address>) {
        if let Operand::Address(a) = &code.left {
            Self::live_insert(live, *a);
        }
        if let Some(Operand::Address(a)) = &code.right {
            Self::live_insert(live, *a);
        }
    }

    /// Decides whether code `i` is dead given the slots live after it, and
    /// updates `live` to the slots live before it.
    fn process_one_dead_code(code: &IntermediateCode, i: usize, live: &mut Vec<Address>, dead: &mut Vec<bool>)
        requires
            i < old(dead)@.len(),
        ensures
            final(dead)@.len() == old(dead)@.len(),
            forall|k: int| 0 <= k < old(dead)@.len() && k != i ==> #[trigger] final(dead)@[k] == old(dead)@[k],
            final(dead)@[i as int] ==> old(dead)@[i as int] || removable(*code),
    {
        if Self::has_side_effect_op(code.operator) {
            Self::insert_operands(code, live);
            return;
        }
        if let Some(r) = code.result {
            if !Self::live_contains(live, r) {
                dead.set(i, true);
                return;
            }
            Self::live_remove(live, r);
        }
        Self::insert_operands(code, live);
    }

    /// The slots that some code reads.
    fn collect_used_addresses(codes: &Vec<CodeWithSpan>) -> (r: Vec<Address>) {
        let mut used: Vec<Address> = Vec::new();
        let mut k: usize = 0;
        while k < codes.len()
            decreases codes.len() - k,
        {
            Self::insert_operands(&codes[k].code, &mut used);
            k = k + 1;
        }
        used
    }

    /// Marks the codes whose result is not live after them, by a backward
    /// liveness scan that carries what is live at each jump target into the
    /// jump, repeated until the marks settle (at most once per code).
    fn dead_code_elimination(codes: &Vec<CodeWithSpan>) -> (dead: Vec<bool>)
        ensures
            marks_removable(codes@, dead@),
    {
        let n = codes.len();
        let all_used = Self::collect_used_addresses(codes);
        let mut live_before: Vec<Vec<Address>> = Vec::new();
        let mut scratch: Vec<bool> = Vec::new();
        let mut dead: Vec<bool> = Vec::new();
        let mut k: usize = 0;
        while k < n
            invariant
                k <= n,
                live_before@.len() == k,
                scratch@.len() == k,
                dead@.len() == k,
                forall|j: int| 0 <= j < k ==> !#[trigger] dead@[j],
                forall|j: int| 0 <= j < k ==> !#[trigger] scratch@[j],
            decreases n - k,
        {
            live_before.push(Vec::new());
            scratch.push(false);
            dead.push(false);
            k = k + 1;
        }
        let mut live = Self::copy_live(&all_used);
        let mut i = n;
        while i > 0
            invariant
                i <= n,
                n == codes@.len(),
                live_before@.len() == n,
                scratch@.len() == n,
            decreases i,
        {
            i = i - 1;
            live_before.set(i, Self::copy_live(&live));
            Self::process_one_dead_code(&codes[i].code, i, &mut live, &mut scratch);
        }
        let mut rounds: usize = 0;
        while rounds < n
            invariant
                n == codes@.len(),
                live_before@.len() == n,
                marks_removable(codes@, dead@),
            decreases n - rounds,
        {
            let mut live = Self::copy_live(&all_used);
            let mut new_dead: Vec<bool> = Vec::new();
            let mut new_live_before: Vec<Vec<Address>> = Vec::new();
            let mut k: usize = 0;
            while k < n
                invariant
                    k <= n,
                    new_dead@.len() == k,
                    new_live_before@.len() == k,
                    forall|j: int| 0 <= j < k ==> !#[trigger] new_dead@[j],
                decreases n - k,
            {
                new_dead.push(false);
                new_live_before.push(Vec::new());
                k = k + 1;
            }
            let mut i = n;
            while i > 0
                invariant
                    i <= n,
                    n == codes@.len(),
                    live_before@.len() == n,
                    new_live_before@.len() == n,
                    marks_removable(codes@, new_dead@),
                decreases i,
            {
                i = i - 1;
                let code = &codes[i].code;
                if let Some(target) = Self::jump_target(code) {
                    if target < n && !new_dead[target] {
                        Self::live_union(&mut live, &live_before[target]);
                        Self::live_union(&mut live, &new_live_before[target]);
                    }
                }
                new_live_before.set(i, Self::copy_live(&live));
                Self::process_one_dead_code(code, i, &mut live, &mut new_dead);
            }
            let mut same = true;
            let mut k: usize = 0;
            while k < n
                invariant
                    k <= n,
                    new_dead@.len() == n,
                    dead@.len() == n,
                decreases n - k,
            {
                if new_dead[k] != dead[k] {
                    same = false;
                }
                k = k + 1;
            }
            if same {
                return dead;
            }
            dead = new_dead;
            live_before = new_live_before;
            rounds = rounds + 1;
        }
        dead
    }

    /// One round of dead code removal: the blocks of `codes`, the codes found
    /// dead, and the list rebuilt without them.
    pub fn optimize_once(codes: &Vec<CodeWithSpan>) -> (r: Vec<CodeWithSpan>)
        ensures
            dead_removed(codes@, r@),
    {
        let blocks = Self::partition_basic_blocks(codes);
        let dead = Self::dead_code_elimination(codes);
        proof {
            assert(covers(blocks@, codes@.len() as int)) by {
                if blocks@.len() > 0 {
                    assert(blocks@[0].start == 0);
                }
            }
        }
        let r = Self::rebuild_code_list(&blocks, codes, &dead);
        proof {
            assert(marks_removable(codes@, dead@));
        }
        r
    }

    /// Optimizes a method body: four rounds of dead code removal followed by
    /// reuse of common subexpressions, then chains of jumps shortened.
    pub fn optimize(codes: &Vec<CodeWithSpan>) -> (r: Vec<CodeWithSpan>)
        ensures
            r@.len() <= codes@.len(),
            exists|s1: Seq<CodeWithSpan>, s2: Seq<CodeWithSpan>, s3: Seq<CodeWithSpan>, s4: Seq<CodeWithSpan>|
                #![trigger optimized_once(codes@, s1), optimized_once(s1, s2), optimized_once(s2, s3), optimized_once(s3, s4)]
                optimized_once(codes@, s1) && optimized_once(s1, s2) && optimized_once(s2, s3) && optimized_once(s3, s4)
                    && jumps_shortened(s4, r@),
    {
        let a = Self::optimize_once(codes);
        let s1 = Self::global_cse(&a);
        let b = Self::optimize_once(&s1);
        let s2 = Self::global_cse(&b);
        let c = Self::optimize_once(&s2);
        let s3 = Self::global_cse(&c);
        let d = Self::optimize_once(&s3);
        let mut s4 = Self::global_cse(&d);
        let ghost before = s4@;
        Self::jump_to_jump_optimization(&mut s4);
        proof {
            lemma_dead_removed_len(codes@, a@);
            lemma_dead_removed_len(s1@, b@);
            lemma_dead_removed_len(s2@, c@);
            lemma_dead_removed_len(s3@, d@);
            assert(optimized_once(codes@, s1@));
            assert(optimized_once(s1@, s2@));
            assert(optimized_once(s2@, s3@));
            assert(optimized_once(s3@, before));
            assert(jumps_shortened(before, s4@));
        }
        s4
    }

    fn copy_indices(v: &Vec<usize>) -> (r: Vec<usize>)
        ensures
            r@ == v@,
    {
        let mut out: Vec<usize> = Vec::new();
        let mut k: usize = 0;
        while k < v.len()
            invariant
                k <= v@.len(),
                out@ == v@.take(k as int),
            decreases v.len() - k,
        {
            out.push(v[k]);
            proof {
                assert(v@.take(k + 1) =~= v@.take(k as int).push(v@[k as int]));
            }
            k = k + 1;
        }
        proof {
            assert(v@.take(v@.len() as int) =~= v@);
        }
        out
    }

    fn index_listed(v: &Vec<usize>, x: usize) -> (r: bool)
        ensures
            r == v@.contains(x),
    {
        let mut k: usize = 0;
        while k < v.len()
            invariant
                k <= v@.len(),
                forall|j: int| 0 <= j < k ==> v@[j] != x,
            decreases v.len() - k,
        {
            if v[k] == x {
                return true;
            }
            k = k + 1;
        }
        false
    }

    /// `v` with `x` added unless it is there already.
    fn with_index(v: &Vec<usize>, x: usize) -> (r: Vec<usize>)
        ensures
            forall|y: usize| r@.contains(y) <==> v@.contains(y) || y == x,
    {
        let mut out = Self::copy_indices(v);
        if !Self::index_listed(v, x) {
            out.push(x);
            proof {
                assert forall|y: usize| out@.contains(y) <==> v@.contains(y) || y == x by {
                    if out@.contains(y) && y != x {
                        let w = choose|w: int| 0 <= w < out@.len() && out@[w] == y;
                        assert(v@[w] == y);
                    }
                    if v@.contains(y) {
                        let w = choose|w: int| 0 <= w < v@.len() && v@[w] == y;
                        assert(out@[w] == y);
                    }
                    if y == x {
                        assert(out@[v@.len() as int] == y);
                    }
                }
            }
        }
        out
    }

    /// Adds the edge from block `from` to block `to`.
    fn add_edge(blocks: &mut Vec<BasicBlock>, from: usize, to: usize)
        requires
            from < old(blocks)@.len(),
            to < old(blocks)@.len(),
        ensures
            final(blocks)@.len() == old(blocks)@.len(),
            forall|k: int|
                0 <= k < old(blocks)@.len() ==> (#[trigger] final(blocks)@[k]).start == old(blocks)@[k].start
                    && final(blocks)@[k].end == old(blocks)@[k].end,
            forall|k: int, y: usize|
                0 <= k < old(blocks)@.len() ==> (#[trigger] final(blocks)@[k].successors@.contains(y) <==> old(
                    blocks,
                )@[k].successors@.contains(y) || (k == from && y == to)),
            forall|k: int, y: usize|
                0 <= k < old(blocks)@.len() ==> (#[trigger] final(blocks)@[k].predecessors@.contains(y) <==> old(
                    blocks,
                )@[k].predecessors@.contains(y) || (k == to && y == from)),
    {
        let b = BasicBlock {
            start: blocks[from].start,
            end: blocks[from].end,
            successors: Self::with_index(&blocks[from].successors, to),
            predecessors: Self::copy_indices(&blocks[from].predecessors),
        };
        blocks.set(from, b);
        let c = BasicBlock {
            start: blocks[to].start,
            end: blocks[to].end,
            successors: Self::copy_indices(&blocks[to].successors),
            predecessors: Self::with_index(&blocks[to].predecessors, from),
        };
        blocks.set(to, c);
    }

    /// Fills in the control flow edges between the blocks of `codes`.
    pub fn build_cfg(blocks: &mut Vec<BasicBlock>, codes: &Vec<CodeWithSpan>)
        requires
            partitions(codes@, old(blocks)@),
        ensures
            cfg_built(codes@, old(blocks)@, final(blocks)@),
    {
        let ghost orig = blocks@;
        let nb = blocks.len();
        let mut i: usize = 0;
        while i < nb
            invariant
                nb == orig.len(),
                partitions(codes@, orig),
                i <= nb,
                blocks@.len() == nb,
                forall|k: int|
                    0 <= k < nb ==> (#[trigger] blocks@[k]).start == orig[k].start && blocks@[k].end == orig[k].end,
                forall|k: int, j: int|
                    0 <= k < nb && 0 <= j < nb ==> (#[trigger] blocks@[k].successors@.contains(j as usize) <==> (k
                        < i && cfg_edge(codes@, orig, k, j))),
                forall|k: int, j: int|
                    0 <= k < nb && 0 <= j < nb ==> (#[trigger] blocks@[j].predecessors@.contains(k as usize) <==> (k
                        < i && cfg_edge(codes@, orig, k, j))),
            decreases nb - i,
        {
            let end = blocks[i].end;
            let last = codes[end - 1].code.operator;
            let mut target_block: Option<usize> = None;
            if let Some(t) = Self::jump_target(&codes[end - 1].code) {
                let mut j: usize = 0;
                while j < nb && target_block.is_none()
                    invariant
                        nb == blocks@.len(),
                        j <= nb,
                        forall|k: int| 0 <= k < nb ==> (#[trigger] blocks@[k]).start == orig[k].start,
                        match target_block {
                            Some(tb) => tb < nb && orig[tb as int].start == t,
                            None => forall|k: int| 0 <= k < j ==> orig[k].start != t,
                        },
                    decreases nb - j,
                {
                    if blocks[j].start == t {
                        target_block = Some(j);
                    }
                    j = j + 1;
                }
            }
            let ghost before = blocks@;
            if let Some(tb) = target_block {
                Self::add_edge(blocks, i, tb);
            }
            let ghost mid = blocks@;
            let fall = match last {
                IntermediateOperator::Jump(_) => false,
                _ => !Self::is_return_op(last),
            };
            let mut fall_edge = false;
            if fall && i + 1 < nb {
                if blocks[i + 1].start == end {
                    Self::add_edge(blocks, i, i + 1);
                    fall_edge = true;
                }
            }
            proof {
                assert forall|j: int| 0 <= j < nb implies cfg_edge(codes@, orig, i as int, j) == ((target_block
                    == Some(j as usize)) || (fall_edge && j == i + 1)) by {
                    match jump_target_of(last) {
                        Some(t) => {
                            if orig[j].start == t && target_block != Some(j as usize) {
                                let tb = target_block->0;
                                if tb < j {
                                    lemma_blocks_ordered(codes@, orig, tb as int, j);
                                } else if j < tb {
                                    lemma_blocks_ordered(codes@, orig, j, tb as int);
                                }
                                assert(orig[j].start < orig[j].end);
                                assert(orig[tb as int].start < orig[tb as int].end);
                            }
                        },
                        None => {},
                    }
                }
            }
            i = i + 1;
        }
    }

    fn set_target(op: IntermediateOperator, t: usize) -> (r: IntermediateOperator)
        ensures
            r == with_target(op, t),
    {
        match op {
            IntermediateOperator::Jump(_) => IntermediateOperator::Jump(t),
            IntermediateOperator::JumpIfFalse(_) => IntermediateOperator::JumpIfFalse(t),
            IntermediateOperator::JumpIfTrue(_) => IntermediateOperator::JumpIfTrue(t),
            _ => op,
        }
    }

    /// Where a jump to `t` ends after following up to eight jumps.
    fn follow(codes: &Vec<CodeWithSpan>, t: usize) -> (r: usize)
        ensures
            r == follow_jumps(codes@, t, 8),
    {
        let mut cur = t;
        let mut steps: usize = 8;
        while steps > 0
            invariant
                steps <= 8,
                follow_jumps(codes@, t, 8) == follow_jumps(codes@, cur, steps as nat),
            decreases steps,
        {
            if cur >= codes.len() {
                return cur;
            }
            match Self::jump_target(&codes[cur].code) {
                Some(next) => {
                    if next == cur {
                        return cur;
                    }
                    cur = next;
                    steps = steps - 1;
                },
                None => {
                    return cur;
                },
            }
        }
        cur
    }

    /// Shortens chains of jumps: a jump whose target is itself a jump goes
    /// straight to where the chain ends (following up to eight jumps).
    pub fn jump_to_jump_optimization(codes: &mut Vec<CodeWithSpan>)
        ensures
            final(codes)@.len() == old(codes)@.len(),
            forall|i: int|
                0 <= i < old(codes)@.len() ==> #[trigger] final(codes)@[i] == jump_shortened(
                    old(codes)@,
                    old(codes)@[i],
                ),
    {
        let ghost orig = codes@;
        let n = codes.len();
        let mut updates: Vec<Option<usize>> = Vec::new();
        let mut i: usize = 0;
        while i < n
            invariant
                n == codes@.len(),
                codes@ == orig,
                i <= n,
                updates@.len() == i,
                forall|k: int|
                    0 <= k < i ==> #[trigger] updates@[k] == match jump_target_of(orig[k].code.operator) {
                        Some(t) => Some(follow_jumps(orig, t, 8)),
                        None => None,
                    },
            decreases n - i,
        {
            let u = match Self::jump_target(&codes[i].code) {
                Some(t) => Some(Self::follow(codes, t)),
                None => None,
            };
            updates.push(u);
            i = i + 1;
        }
        let mut i: usize = 0;
        while i < n
            invariant
                n == codes@.len(),
                n == orig.len(),
                i <= n,
                updates@.len() == n,
                forall|k: int|
                    0 <= k < n ==> #[trigger] updates@[k] == match jump_target_of(orig[k].code.operator) {
                        Some(t) => Some(follow_jumps(orig, t, 8)),
                        None => None,
                    },
                forall|k: int| 0 <= k < i ==> #[trigger] codes@[k] == jump_shortened(orig, orig[k]),
                forall|k: int| i <= k < n ==> #[trigger] codes@[k] == orig[k],
            decreases n - i,
        {
            if let Some(nt) = updates[i] {
                let mut c = codes[i].duplicate();
                c.code.operator = Self::set_target(c.code.operator, nt);
                codes.set(i, c);
            }
            i = i + 1;
        }
    }
}

} // verus!
