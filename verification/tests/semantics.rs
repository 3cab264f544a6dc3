use native::vm::analysis::{
    analyze_block_stack, BlockAnalysis, ExternArgs, ExternInfo, ReturnCode, StackOps,
};
use native::vm::emit::{emit, Instr};
use native::vm::interpreter::{CachedCall, InterpreterState, Request};
use native::vm::semantics::extern_info;

#[derive(Debug, Clone, PartialEq, Eq)]
enum Effect {
    ReadCondition(u32),
    Copy(u32, u32),
    Call(usize, usize, Vec<u32>),
}

fn bytes(words: &[u32]) -> Vec<u8> {
    words.iter().flat_map(|w| w.to_be_bytes()).collect()
}

/// Runs a block's ops on a stack, as `run_ops` states it.
fn run_ops(ops: &[StackOps], mut stack: Vec<u32>) -> (Vec<u32>, Vec<Effect>) {
    let mut effects = Vec::new();
    for op in ops {
        match op {
            StackOps::Push(items) => stack.extend_from_slice(items),
            StackOps::Pop(count) => stack.truncate(stack.len() - count),
            StackOps::Extern { callback, target, args, .. } => match args {
                ExternArgs::Complete(items) => {
                    effects.push(Effect::Call(*callback, *target, items.clone()))
                }
                ExternArgs::Incomplete(count) => {
                    let at = stack.len() - count;
                    effects.push(Effect::Call(*callback, *target, stack[at..].to_vec()));
                    stack.truncate(at);
                }
            },
            StackOps::JumpIfFalse { arg, .. } => match arg {
                Some(slot) => effects.push(Effect::ReadCondition(*slot)),
                None => effects.push(Effect::ReadCondition(stack.pop().unwrap())),
            },
            StackOps::CopyComplete { src, dst } => effects.push(Effect::Copy(*src, *dst)),
            StackOps::CopyIncomplete => {
                let dst = stack.pop().unwrap();
                let src = stack.pop().unwrap();
                effects.push(Effect::Copy(src, dst));
            }
            _ => {}
        }
    }
    (stack, effects)
}

/// Runs laid-out machine code straight through, as `run_instr` states it.
fn run_instrs(instrs: &[Instr], stack: &[u32]) -> (Vec<u32>, Vec<Effect>) {
    let mut cells: Vec<u32> = stack.to_vec();
    cells.resize(64, 0);
    let mut count = stack.len();
    let mut cond = 0u32;
    let mut effects = Vec::new();
    for instr in instrs {
        match *instr {
            Instr::StoreArg { offset, value } => cells[count + offset] = value,
            Instr::AddStackCount(k) => count += k,
            Instr::SubStackCount(k) => count -= k,
            Instr::CallExtern { count: k, target, callback } => {
                count -= k;
                effects.push(Effect::Call(callback, target, cells[count..count + k].to_vec()));
            }
            Instr::LoadConditionSlot(slot) => cond = slot,
            Instr::PopCondition => {
                count -= 1;
                cond = cells[count];
            }
            Instr::BranchIfFalse(_) => effects.push(Effect::ReadCondition(cond)),
            Instr::CopyVariables { src, dst } => effects.push(Effect::Copy(src, dst)),
            Instr::CopyFromStack => {
                count -= 2;
                effects.push(Effect::Copy(cells[count], cells[count + 1]));
            }
            _ => {}
        }
    }
    (cells[..count].to_vec(), effects)
}

// Push 100; Push 101; then the block at 16: Push 5; Push 6; Copy; Pop;
// Extern 20; Push 7; Push 8; Extern 21; Push 9; JumpIfFalse 0x58;
// Jump 0xFFFF_FFFF.
const CODE: [u32; 22] = [
    1, 100, 1, 101, 1, 5, 1, 6, 9, 2, 6, 20, 1, 7, 1, 8, 6, 21, 1, 9, 4, 0x58,
];

fn code() -> Vec<u32> {
    let mut code = CODE.to_vec();
    code.extend_from_slice(&[5, 0xFFFF_FFFF]);
    code
}

fn calls() -> [CachedCall; 2] {
    [
        CachedCall { callback: 0x1000, target: 0x2000, parameter_count: 1 },
        CachedCall { callback: 0x3000, target: 0x4000, parameter_count: 2 },
    ]
}

fn block_ops() -> Vec<StackOps> {
    let answers: Vec<ExternInfo> = calls().iter().map(|c| extern_info(*c)).collect();
    match analyze_block_stack(&code(), 16, &answers) {
        BlockAnalysis::Block { ops, next_pc } => {
            assert_eq!(next_pc, 96);
            ops
        }
        other => panic!("unexpected analysis {:?}", other),
    }
}

#[test]
fn block_ops_do_what_the_interpreter_does() {
    let ops = block_ops();
    assert_eq!(ops.last(), Some(&StackOps::Return(ReturnCode::Continue(0xFFFF_FFFF))));
    let (ops_stack, ops_effects) = run_ops(&ops[..ops.len() - 1], vec![100, 101]);

    let mut st = InterpreterState::new(&bytes(&code())).unwrap();
    assert_eq!(st.step(), Request::Continue);
    assert_eq!(st.step(), Request::Continue);
    assert_eq!(st.pc(), 16);
    let mut effects = Vec::new();
    let mut used = 0;
    while st.pc() < 88 {
        match st.step() {
            Request::Continue => {}
            Request::ReadBool { slot } => {
                effects.push(Effect::ReadCondition(slot));
                st.resume_condition(true);
            }
            Request::CopyVariables { src, dst } => {
                effects.push(Effect::Copy(src, dst));
                st.resume_copy();
            }
            Request::ResolveExtern { .. } => {
                let call = calls()[used];
                used += 1;
                match st.resume_extern(call) {
                    Request::Invoke { callback, target, start } => {
                        effects.push(Effect::Call(callback, target, st.stack()[start..].to_vec()));
                        st.resume_invoke();
                    }
                    other => panic!("unexpected request {:?}", other),
                }
            }
            other => panic!("unexpected request {:?}", other),
        }
    }
    assert_eq!(st.pc(), 88);
    assert_eq!(&ops_stack, st.stack());
    assert_eq!(ops_effects, effects);
    assert_eq!(
        effects,
        vec![
            Effect::Copy(5, 6),
            Effect::Call(0x1000, 0x2000, vec![100]),
            Effect::Call(0x3000, 0x4000, vec![7, 8]),
            Effect::ReadCondition(9),
        ]
    );
    assert_eq!(ops_stack, Vec::<u32>::new());
}

#[test]
fn emitted_code_does_what_the_ops_do() {
    let ops = block_ops();
    let instrs = emit(&ops).unwrap();
    for stack in [vec![100, 101], vec![1, 2, 3]] {
        assert_eq!(run_instrs(&instrs, &stack), run_ops(&ops, stack.clone()));
    }
    assert_eq!(run_instrs(&instrs, &[100, 101]).0, Vec::<u32>::new());
}

#[test]
fn emitted_guard_asks_for_what_the_ops_take() {
    let ops = block_ops();
    let instrs = emit(&ops).unwrap();
    // the ops take two items from the stack they start on: the Pop and
    // the extern's argument
    assert_eq!(instrs[0], Instr::GuardStack { needed: 2, code: 0x8000_0000_0000_0000 });
}
