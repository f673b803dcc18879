use gorge_compiler::ir::{Address, CodeWithSpan, IntermediateCode, IntermediateOperator, Operand, ValueType};
use gorge_compiler::optimizer::IntermediateCodeOptimizer;
use gorge_compiler::span::Span;

fn make_int_addr(index: usize) -> Address {
    Address::new(ValueType::Int, index)
}

fn make_code(op: IntermediateOperator, left: Operand, right: Option<Operand>, result: Option<Address>) -> CodeWithSpan {
    CodeWithSpan::new(IntermediateCode::new(op, left, right, result), Span::dummy())
}

fn make_assign(addr: Address, val: i64) -> CodeWithSpan {
    CodeWithSpan::new(IntermediateCode::assign(addr, Operand::integer(val)), Span::dummy())
}

fn make_add(r: Address, a: Address, b: Address) -> CodeWithSpan {
    CodeWithSpan::new(
        IntermediateCode::binary(IntermediateOperator::IntAdd, Operand::Address(a), Operand::Address(b), r),
        Span::dummy(),
    )
}

fn make_jump(target: usize) -> CodeWithSpan {
    CodeWithSpan::new(IntermediateCode::jump(target), Span::dummy())
}

fn make_return() -> CodeWithSpan {
    CodeWithSpan::new(IntermediateCode::return_void(), Span::dummy())
}

#[test]
fn test_partition_single_block() {
    let codes = vec![make_assign(make_int_addr(0), 1), make_assign(make_int_addr(1), 2), make_return()];
    let blocks = IntermediateCodeOptimizer::partition_basic_blocks(&codes);
    assert_eq!(blocks.len(), 1, "无分支代码应产生单个基本块");
    assert_eq!(blocks[0].start, 0);
    assert_eq!(blocks[0].end, 3);
}

#[test]
fn test_partition_with_jump() {
    let codes = vec![
        make_assign(make_int_addr(0), 1),
        make_jump(3),
        make_assign(make_int_addr(1), 2),
        make_return(),
    ];
    let blocks = IntermediateCodeOptimizer::partition_basic_blocks(&codes);
    assert!(blocks.len() >= 2, "跳转应产生多个基本块");
}

#[test]
fn test_partition_with_conditional_jump() {
    let cond = Address::new(ValueType::Bool, 0);
    let codes = vec![
        CodeWithSpan::new(IntermediateCode::jump_if_false(Operand::Address(cond), 3), Span::dummy()),
        make_assign(make_int_addr(0), 1),
        make_return(),
        make_return(),
    ];
    let blocks = IntermediateCodeOptimizer::partition_basic_blocks(&codes);
    assert!(blocks.len() >= 2);
}

#[test]
fn test_cfg_edges() {
    let codes = vec![make_assign(make_int_addr(0), 1), make_return()];
    let mut blocks = IntermediateCodeOptimizer::partition_basic_blocks(&codes);
    IntermediateCodeOptimizer::build_cfg(&mut blocks, &codes);
    assert_eq!(blocks.len(), 1);
    assert_eq!(blocks[0].successors.len(), 0);
}

#[test]
fn test_rebuild_preserves_order() {
    let codes = vec![make_assign(make_int_addr(0), 1), make_assign(make_int_addr(1), 2), make_return()];
    let blocks = IntermediateCodeOptimizer::partition_basic_blocks(&codes);
    let result = IntermediateCodeOptimizer::rebuild_code_list(&blocks, &codes, &vec![false; codes.len()]);
    assert_eq!(result.len(), 3);
}

#[test]
fn test_eliminate_dead_store() {
    let codes = vec![make_assign(make_int_addr(0), 1), make_assign(make_int_addr(0), 2), make_return()];
    let optimized = IntermediateCodeOptimizer::eliminate_dead_stores(&codes);
    assert!(optimized.len() <= codes.len(), "应消除至少一条死代码");
}

#[test]
fn test_dce_eliminates_unused_variable() {
    let x = make_int_addr(0);
    let y = make_int_addr(1);
    let codes = vec![make_assign(x, 5), make_assign(y, 3), make_return()];
    let optimized = IntermediateCodeOptimizer::optimize(&codes);
    assert_eq!(optimized.len(), 2);
    assert!(matches!(optimized[0].code.operator, IntermediateOperator::IntAssign));
}

#[test]
fn test_cse_integrated_in_optimize() {
    let a = make_int_addr(0);
    let b = make_int_addr(1);
    let t1 = make_int_addr(2);
    let t2 = make_int_addr(3);
    let t3 = make_int_addr(4);
    let codes = vec![
        make_add(t1, a, b),
        make_add(t2, a, b),
        make_assign(t3, 0),
        CodeWithSpan::new(
            IntermediateCode::new(IntermediateOperator::ReturnInt, Operand::Address(t3), None, None),
            Span::dummy(),
        ),
    ];
    let after_cse = IntermediateCodeOptimizer::global_cse(&codes);
    let add_count = after_cse.iter().filter(|c| matches!(c.code.operator, IntermediateOperator::IntAdd)).count();
    assert_eq!(add_count, 1, "重复的 a+b 应被 CSE 消除为一次 IntAdd");
}

#[test]
fn test_full_optimize_identity() {
    let x = make_int_addr(0);
    let y = make_int_addr(1);
    let r = make_int_addr(2);
    let codes = vec![make_assign(x, 3), make_assign(y, 4), make_add(r, x, y), make_return()];
    let optimized = IntermediateCodeOptimizer::optimize(&codes);
    assert!(!optimized.is_empty());
}

#[test]
fn test_global_cse_reduces_redundant_expression() {
    let a = make_int_addr(0);
    let b = make_int_addr(1);
    let r1 = make_int_addr(2);
    let r2 = make_int_addr(3);
    let codes = vec![
        make_code(IntermediateOperator::IntAdd, Operand::Address(a), Some(Operand::Address(b)), Some(r1)),
        make_code(IntermediateOperator::IntAdd, Operand::Address(a), Some(Operand::Address(b)), Some(r2)),
    ];
    let optimized = IntermediateCodeOptimizer::global_cse(&codes);
    assert_eq!(optimized.len(), 2);
    assert!(matches!(optimized[1].code.operator, IntermediateOperator::IntAssign));
}

#[test]
fn partition_cuts_at_targets_and_after_jumps() {
    let codes = vec![
        make_assign(make_int_addr(0), 1),
        make_jump(3),
        make_assign(make_int_addr(1), 2),
        make_return(),
    ];
    let blocks = IntermediateCodeOptimizer::partition_basic_blocks(&codes);
    let cuts: Vec<(usize, usize)> = blocks.iter().map(|b| (b.start, b.end)).collect();
    assert_eq!(cuts, vec![(0, 2), (2, 3), (3, 4)]);
}

#[test]
fn cfg_links_conditional_jump_to_target_and_next_block() {
    let cond = Address::new(ValueType::Bool, 0);
    let codes = vec![
        CodeWithSpan::new(IntermediateCode::jump_if_false(Operand::Address(cond), 3), Span::dummy()),
        make_assign(make_int_addr(0), 1),
        make_return(),
        make_return(),
    ];
    let mut blocks = IntermediateCodeOptimizer::partition_basic_blocks(&codes);
    IntermediateCodeOptimizer::build_cfg(&mut blocks, &codes);
    assert_eq!(blocks.len(), 3);
    let mut succ = blocks[0].successors.clone();
    succ.sort();
    assert_eq!(succ, vec![1, 2]);
    assert_eq!(blocks[2].predecessors, vec![0]);
    assert!(blocks[1].successors.is_empty());
}

#[test]
fn jump_chain_is_shortened() {
    let mut codes = vec![make_jump(1), make_jump(2), make_jump(3), make_return()];
    IntermediateCodeOptimizer::jump_to_jump_optimization(&mut codes);
    for k in 0..3 {
        assert!(matches!(codes[k].code.operator, IntermediateOperator::Jump(3)));
    }
    assert!(matches!(codes[3].code.operator, IntermediateOperator::ReturnVoid));
}

#[test]
fn jump_to_itself_is_kept() {
    let mut codes = vec![make_jump(0)];
    IntermediateCodeOptimizer::jump_to_jump_optimization(&mut codes);
    assert!(matches!(codes[0].code.operator, IntermediateOperator::Jump(0)));
}

#[test]
fn unread_store_is_removed_and_read_one_kept() {
    let x = make_int_addr(5);
    let y = make_int_addr(6);
    let r = make_int_addr(7);
    let codes = vec![
        make_assign(x, 1),
        make_assign(y, 2),
        make_code(IntermediateOperator::ReturnInt, Operand::Address(x), None, None),
        make_assign(r, 3),
    ];
    let kept = IntermediateCodeOptimizer::eliminate_dead_stores(&codes);
    assert_eq!(kept.len(), 2);
    assert_eq!(kept[0].code.result, Some(x));
    assert!(matches!(kept[1].code.operator, IntermediateOperator::ReturnInt));
}

#[test]
fn rebuild_moves_jumps_past_removed_codes() {
    let codes = vec![
        make_assign(make_int_addr(5), 1),
        make_jump(3),
        make_assign(make_int_addr(6), 2),
        make_return(),
    ];
    let blocks = IntermediateCodeOptimizer::partition_basic_blocks(&codes);
    let out = IntermediateCodeOptimizer::rebuild_code_list(&blocks, &codes, &vec![true, false, true, false]);
    assert_eq!(out.len(), 2);
    assert!(matches!(out[0].code.operator, IntermediateOperator::Jump(1)));
}

#[test]
fn field_store_stops_reuse_of_the_load() {
    let t1 = make_int_addr(1);
    let t2 = make_int_addr(2);
    let codes = vec![
        make_code(IntermediateOperator::LoadIntField(4), Operand::integer(0), None, Some(t1)),
        make_code(IntermediateOperator::SetIntField(4), Operand::Address(t1), None, None),
        make_code(IntermediateOperator::LoadIntField(4), Operand::integer(0), None, Some(t2)),
    ];
    let out = IntermediateCodeOptimizer::global_cse(&codes);
    assert!(matches!(out[2].code.operator, IntermediateOperator::LoadIntField(4)));
    let codes = vec![
        make_code(IntermediateOperator::LoadIntField(4), Operand::integer(0), None, Some(t1)),
        make_code(IntermediateOperator::LoadIntField(4), Operand::integer(0), None, Some(t2)),
    ];
    let out = IntermediateCodeOptimizer::global_cse(&codes);
    assert!(matches!(out[1].code.operator, IntermediateOperator::IntAssign));
    assert!(matches!(out[1].code.left, Operand::Address(a) if a == t1));
}

#[test]
fn call_stops_reuse_of_loads() {
    let t1 = make_int_addr(1);
    let t2 = make_int_addr(2);
    let codes = vec![
        make_code(IntermediateOperator::LoadIntParameter, Operand::integer(0), None, Some(t1)),
        make_code(IntermediateOperator::InvokeStatic(0), Operand::integer(0), None, None),
        make_code(IntermediateOperator::LoadIntParameter, Operand::integer(0), None, Some(t2)),
    ];
    let out = IntermediateCodeOptimizer::global_cse(&codes);
    assert!(matches!(out[2].code.operator, IntermediateOperator::LoadIntParameter));
}
