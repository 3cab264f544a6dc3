use native::vm::analysis::{ExternArgs, ReturnCode, StackOps};
use native::vm::emit::{emit, stack_bounds, Instr, VmStack};

fn sample_ops() -> Vec<StackOps> {
    vec![
        StackOps::Push(vec![10, 11]),
        StackOps::Pop(2),
        StackOps::Extern {
            callback: 0xDEAD_BEEF_0000_0000,
            target: 0xCAFE_BABE_0000_0000,
            heap_slot: 12,
            args: ExternArgs::Complete(vec![4, 8, 15, 16, 23, 42]),
        },
        StackOps::Extern {
            callback: 0xDEAD_BEEF_0000_0001,
            target: 0xCAFE_BABE_0000_0001,
            heap_slot: 13,
            args: ExternArgs::Incomplete(2),
        },
        StackOps::JumpIfFalse { destination: 0xDEAD_0001, arg: Some(14) },
        StackOps::JumpIfFalse { destination: 0xDEAD_0002, arg: None },
        StackOps::CopyComplete { src: 15, dst: 16 },
        StackOps::CopyIncomplete,
        StackOps::Jump(0xDEAD_0003),
    ]
}

#[test]
fn sample_block_bounds() {
    assert_eq!(stack_bounds(&sample_ops()), Some((-5, 6)));
    assert_eq!(stack_bounds(&[]), Some((0, 0)));
    assert_eq!(stack_bounds(&[StackOps::Pop(3), StackOps::Push(vec![1, 2, 3, 4])]), Some((-3, 1)));
}

#[test]
fn sample_block_plan() {
    let mut expected = vec![
        Instr::GuardStack { needed: 5, code: 0x8000_0000_0000_0000 },
        Instr::ReserveStack { extra: 6 },
        Instr::StoreArg { offset: 0, value: 10 },
        Instr::StoreArg { offset: 1, value: 11 },
        Instr::AddStackCount(2),
        Instr::SubStackCount(2),
    ];
    for (offset, value) in [4u32, 8, 15, 16, 23, 42].iter().enumerate() {
        expected.push(Instr::StoreArg { offset, value: *value });
    }
    expected.extend([
        Instr::AddStackCount(6),
        Instr::CallExtern {
            count: 6,
            target: 0xCAFE_BABE_0000_0000,
            callback: 0xDEAD_BEEF_0000_0000,
        },
        Instr::CallExtern {
            count: 2,
            target: 0xCAFE_BABE_0000_0001,
            callback: 0xDEAD_BEEF_0000_0001,
        },
        Instr::LoadConditionSlot(14),
        Instr::BranchIfFalse(0xDEAD_0001),
        Instr::PopCondition,
        Instr::BranchIfFalse(0xDEAD_0002),
        Instr::CopyVariables { src: 15, dst: 16 },
        Instr::CopyFromStack,
        Instr::JumpTo(0xDEAD_0003),
    ]);
    assert_eq!(emit(&sample_ops()), Some(expected));
}

#[test]
fn plain_block_has_no_guard_or_reservation() {
    let ops = [StackOps::CopyComplete { src: 1, dst: 2 }, StackOps::JumpIndirect(0xBEEF)];
    assert_eq!(
        emit(&ops),
        Some(vec![Instr::CopyVariables { src: 1, dst: 2 }, Instr::JumpIndirect(0xBEEF)])
    );
    let ret = [StackOps::Return(ReturnCode::RequestInterpreter(0xDEAD_0004))];
    assert_eq!(emit(&ret), Some(vec![Instr::ReturnWith(0x8000_0000_DEAD_0004)]));
}

#[test]
fn overflowing_accounting_is_refused() {
    let ops = [StackOps::Pop(isize::MAX as usize), StackOps::Pop(isize::MAX as usize)];
    assert_eq!(stack_bounds(&ops), None);
    assert_eq!(emit(&ops), None);
    // A count past isize::MAX reads as negative, as the accounting casts it.
    let wrapped = [StackOps::Extern {
        callback: 0,
        target: 0,
        heap_slot: 0,
        args: ExternArgs::Incomplete(usize::MAX),
    }];
    assert_eq!(stack_bounds(&wrapped), Some((0, 0)));
}

#[test]
fn vm_stack_grows_only() {
    let mut stack = VmStack::new();
    assert_eq!(stack.stack.len(), 0);
    stack.reserve_stack(4);
    assert_eq!(stack.stack, vec![0, 0, 0, 0]);
    stack.stack[1] = 7;
    stack.reserve_stack(2);
    assert_eq!(stack.stack, vec![0, 7, 0, 0]);
    stack.reserve_stack(5);
    assert_eq!(stack.stack, vec![0, 7, 0, 0, 0]);
    stack.set_stack_count(3);
    assert_eq!(stack.get_stack_count(), 3);
}

#[test]
fn sample_block_stays_in_reserved_stack() {
    let instrs = emit(&sample_ops()).unwrap();
    // The guard asks for 5 items and the reservation adds room for 6 more.
    for start in 5i64..9 {
        let cap = start + 6;
        let mut count = start;
        for instr in &instrs {
            match *instr {
                Instr::StoreArg { offset, .. } => assert!(count + (offset as i64) < cap),
                Instr::AddStackCount(k) => count += k as i64,
                Instr::SubStackCount(k) => count -= k as i64,
                Instr::CallExtern { count: k, .. } => count -= k as i64,
                Instr::PopCondition => count -= 1,
                Instr::CopyFromStack => count -= 2,
                _ => {}
            }
            assert!(0 <= count && count <= cap);
        }
        assert_eq!(count, start - 5);
    }
}
