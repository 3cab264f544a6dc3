use native::vm::interpreter::CachedCall;
use native::vm::semantics::extern_info;
use native::vm::analysis::{
    analyze_block_stack, BlockAnalysis, ExternArgs, ExternInfo, ReturnCode, StackOps,
};

const NOP: u32 = 0;
const PUSH: u32 = 1;
const POP: u32 = 2;
const JUMP_IF_FALSE: u32 = 4;
const JUMP: u32 = 5;
const EXTERN: u32 = 6;
const ANNOTATION: u32 = 7;
const JUMP_INDIRECT: u32 = 8;
const COPY: u32 = 9;
const CACHED_EXTERN: u32 = 10;

fn block(ops: Vec<StackOps>, next_pc: usize) -> BlockAnalysis {
    BlockAnalysis::Block { ops, next_pc }
}

#[test]
fn copy_of_pushed_slots_is_complete() {
    let code = [PUSH, 5, PUSH, 6, COPY, JUMP, 0x20];
    assert_eq!(
        analyze_block_stack(&code, 0, &[]),
        block(vec![StackOps::CopyComplete { src: 5, dst: 6 }, StackOps::Jump(0x20)], 28)
    );
}

#[test]
fn copy_without_pushes_is_incomplete() {
    let code = [PUSH, 5, COPY, JUMP_INDIRECT, 9];
    assert_eq!(
        analyze_block_stack(&code, 0, &[]),
        block(
            vec![StackOps::Push(vec![5]), StackOps::CopyIncomplete, StackOps::JumpIndirect(9)],
            20
        )
    );
}

#[test]
fn pops_of_earlier_items_merge() {
    let code = [POP, POP, NOP, ANNOTATION, 77];
    assert_eq!(
        analyze_block_stack(&code, 0, &[]),
        block(vec![StackOps::Pop(2), StackOps::Return(ReturnCode::Continue(20))], 20)
    );
}

#[test]
fn pop_of_pushed_item_cancels() {
    let code = [PUSH, 3, POP, JUMP, 0];
    assert_eq!(analyze_block_stack(&code, 0, &[]), block(vec![StackOps::Jump(0)], 20));
}

#[test]
fn jump_if_false_flushes_the_stack() {
    let code = [PUSH, 7, JUMP_IF_FALSE, 0x40];
    assert_eq!(
        analyze_block_stack(&code, 0, &[]),
        block(
            vec![
                StackOps::Push(vec![7]),
                StackOps::JumpIfFalse { destination: 0x40, arg: None },
                StackOps::Return(ReturnCode::Continue(16)),
            ],
            16
        )
    );
}

#[test]
fn jump_to_the_end_returns() {
    assert_eq!(
        analyze_block_stack(&[JUMP, 0xFFFF_FFFF], 0, &[]),
        block(vec![StackOps::Return(ReturnCode::Continue(0xFFFF_FFFF))], 8)
    );
    assert_eq!(
        analyze_block_stack(&[JUMP, 0xFFFF_FFFC], 0, &[]),
        block(vec![StackOps::Return(ReturnCode::Continue(0xFFFF_FFFC))], 8)
    );
}

#[test]
fn malformed_bytecode_ends_the_block() {
    assert_eq!(
        analyze_block_stack(&[PUSH], 0, &[]),
        block(vec![StackOps::Return(ReturnCode::MissingArgument)], 0)
    );
    assert_eq!(
        analyze_block_stack(&[PUSH, 1, 3], 0, &[]),
        block(vec![StackOps::Push(vec![1]), StackOps::Return(ReturnCode::UnknownOpCode(3))], 8)
    );
    assert_eq!(
        analyze_block_stack(&[NOP], 8, &[]),
        block(vec![StackOps::Return(ReturnCode::Continue(8))], 8)
    );
}

#[test]
fn cached_extern_is_unsupported() {
    assert_eq!(
        analyze_block_stack(&[NOP, CACHED_EXTERN, 5], 0, &[]),
        BlockAnalysis::Unsupported { pc: 4 }
    );
}

#[test]
fn extern_answers_are_asked_for_in_order() {
    let code = [PUSH, 3, PUSH, 4, EXTERN, 99, EXTERN, 98, JUMP, 0];
    assert_eq!(analyze_block_stack(&code, 0, &[]), BlockAnalysis::NeedExtern { heap_slot: 99 });
    let first = ExternInfo { callback: 0x10, target: 0x20, parameter_count: 1 };
    assert_eq!(analyze_block_stack(&code, 0, &[first]), BlockAnalysis::NeedExtern { heap_slot: 98 });
    let second = ExternInfo { callback: 0x30, target: 0x40, parameter_count: 2 };
    let expected = block(
        vec![
            StackOps::Extern {
                callback: 0x10,
                target: 0x20,
                heap_slot: 99,
                args: ExternArgs::Complete(vec![4]),
            },
            StackOps::Push(vec![3]),
            StackOps::Extern {
                callback: 0x30,
                target: 0x40,
                heap_slot: 98,
                args: ExternArgs::Incomplete(2),
            },
            StackOps::Jump(0),
        ],
        40,
    );
    assert_eq!(analyze_block_stack(&code, 0, &[first, second]), expected);
    // Answers beyond those the block uses are never read.
    assert_eq!(analyze_block_stack(&code, 0, &[first, second, first]), expected);
}

#[test]
fn complete_extern_takes_the_top_items() {
    let code = [PUSH, 1, PUSH, 2, PUSH, 3, EXTERN, 50, JUMP, 0];
    let info = ExternInfo { callback: 1, target: 2, parameter_count: 2 };
    assert_eq!(
        analyze_block_stack(&code, 0, &[info]),
        block(
            vec![
                StackOps::Extern {
                    callback: 1,
                    target: 2,
                    heap_slot: 50,
                    args: ExternArgs::Complete(vec![2, 3]),
                },
                StackOps::Push(vec![1]),
                StackOps::Jump(0),
            ],
            40
        )
    );
}

#[test]
fn analysis_starts_at_the_given_pc() {
    let code = [JUMP, 12, PUSH, 9, JUMP, 0];
    assert_eq!(
        analyze_block_stack(&code, 8, &[]),
        block(vec![StackOps::Push(vec![9]), StackOps::Jump(0)], 24)
    );
}

#[test]
fn every_block_ends_with_one_jump_or_return() {
    let programs: [&[u32]; 4] = [
        &[PUSH, 5, PUSH, 6, COPY, JUMP, 0x20],
        &[POP, POP, NOP],
        &[PUSH, 7, JUMP_IF_FALSE, 0x40, JUMP_INDIRECT, 3],
        &[PUSH, 1, PUSH],
    ];
    for code in programs {
        match analyze_block_stack(code, 0, &[]) {
            BlockAnalysis::Block { ops, .. } => {
                let (last, body) = ops.split_last().unwrap();
                assert!(matches!(
                    last,
                    StackOps::Jump(_) | StackOps::JumpIndirect(_) | StackOps::Return(_)
                ));
                for op in body {
                    assert!(!matches!(
                        op,
                        StackOps::Jump(_) | StackOps::JumpIndirect(_) | StackOps::Return(_)
                    ));
                    if let StackOps::Push(items) = op {
                        assert!(!items.is_empty());
                    }
                    if let StackOps::Pop(count) = op {
                        assert!(*count > 0);
                    }
                }
            }
            other => panic!("unexpected analysis {:?}", other),
        }
    }
}

#[test]
fn extern_info_keeps_the_resolution() {
    let info = extern_info(CachedCall { callback: 0x10, target: 0x20, parameter_count: 3 });
    assert_eq!(info, ExternInfo { callback: 0x10, target: 0x20, parameter_count: 3 });
}
