use native::vm::analysis::{analyze_block_stack, BlockAnalysis, ReturnCode, StackOps};
use native::vm::dynarec::{BlockDiscovery, Dispatch, DiscoveryRequest, Dynarec};

fn discover(code: &[u32]) -> Result<Vec<(u32, Vec<StackOps>)>, ReturnCode> {
    let mut discovery = BlockDiscovery::new(code.len());
    loop {
        match discovery.next() {
            DiscoveryRequest::Analyze { pc } => match analyze_block_stack(code, pc, &[]) {
                BlockAnalysis::Block { ops, next_pc } => discovery.supply(ops, next_pc),
                other => panic!("unexpected analysis {:?}", other),
            },
            DiscoveryRequest::Finished => break,
            DiscoveryRequest::Failed(reason) => return Err(reason),
        }
    }
    let mut blocks: Vec<(u32, Vec<StackOps>)> = discovery.into_blocks().into_iter().collect();
    blocks.sort_by_key(|b| b.0);
    Ok(blocks)
}

#[test]
fn discovery_follows_jumps() {
    let code = [1, 1, 4, 0x28, 5, 0x30, 0, 0, 0, 0, 0, 0, 5, 0xFFFF_FFFF];
    let blocks = discover(&code).unwrap();
    let starts: Vec<u32> = blocks.iter().map(|b| b.0).collect();
    assert_eq!(starts, vec![0, 24, 40, 48]);
    assert_eq!(
        blocks[0].1,
        vec![
            StackOps::Push(vec![1]),
            StackOps::JumpIfFalse { destination: 0x28, arg: None },
            StackOps::Jump(0x30),
        ]
    );
    assert_eq!(blocks[3].1, vec![StackOps::Return(ReturnCode::Continue(0xFFFF_FFFF))]);
    for (_, ops) in &blocks {
        for op in ops {
            let dest = match op {
                StackOps::Jump(d) => Some(*d as u32),
                StackOps::JumpIfFalse { destination, .. } => Some(*destination),
                _ => None,
            };
            if let Some(d) = dest {
                assert!(starts.contains(&d));
            }
        }
    }
}

#[test]
fn discovery_stops_on_a_bad_first_pass_block() {
    assert_eq!(discover(&[0, 3]), Err(ReturnCode::UnknownOpCode(3)));
    assert_eq!(discover(&[1]), Err(ReturnCode::MissingArgument));
}

#[test]
fn discovery_of_a_jump_backwards() {
    let code = [0, 5, 0];
    let blocks = discover(&code).unwrap();
    let starts: Vec<u32> = blocks.iter().map(|b| b.0).collect();
    assert_eq!(starts, vec![0]);
}

#[test]
fn dispatch_moves_the_program_counter() {
    let mut d = Dynarec::new(vec![0, 0, 0, 0]);
    d.mark_compiled(0);
    d.mark_compiled(8);
    assert_eq!(d.get_program_counter(), 0);
    assert_eq!(d.next_block(), Dispatch::RunBlock);
    assert_eq!(d.dispatch(ReturnCode::Continue(8)), Dispatch::RunBlock);
    assert_eq!(d.get_program_counter(), 8);
    assert_eq!(d.dispatch(ReturnCode::Continue(16)), Dispatch::Finished);
    assert_eq!(d.get_program_counter(), 16);
    assert_eq!(
        d.dispatch(ReturnCode::RequestInterpreter(4)),
        Dispatch::RequestInterpreter { old_pc: 16, new_pc: 4 }
    );
    assert_eq!(d.get_program_counter(), 16);
    assert_eq!(d.dispatch(ReturnCode::MissingArgument), Dispatch::Failed);
    assert_eq!(d.dispatch(ReturnCode::UnknownOpCode(3)), Dispatch::Failed);
    assert_eq!(d.dispatch(ReturnCode::StackUnderflow), Dispatch::Failed);
    assert_eq!(d.dispatch(ReturnCode::UnknownReturn(0x5_0000_0000)), Dispatch::Failed);
}

#[test]
fn dispatch_asks_to_compile_an_unknown_block() {
    let mut d = Dynarec::new(vec![0, 0, 0, 0]);
    assert!(!d.is_compiled(0));
    assert_eq!(d.next_block(), Dispatch::CompileBlock { pc: 0 });
    d.mark_compiled(0);
    assert!(d.is_compiled(0));
    assert!(!d.is_compiled(4));
    assert_eq!(d.next_block(), Dispatch::RunBlock);
    assert_eq!(d.dispatch(ReturnCode::Continue(4)), Dispatch::CompileBlock { pc: 4 });
    assert_eq!(d.get_program_counter(), 4);
    d.mark_compiled(4);
    assert_eq!(d.next_block(), Dispatch::RunBlock);
    assert_eq!(d.dispatch(ReturnCode::Continue(0)), Dispatch::RunBlock);
}

#[test]
fn discovery_from_an_entry_keeps_it() {
    // an indirect jump lands on the word at 8, which the first pass from 0
    // would have seen as part of a push's argument
    let code = [1, 1, 1, 0xFFFF_FFFF];
    let mut discovery = BlockDiscovery::from_entry(code.len(), 8);
    loop {
        match discovery.next() {
            DiscoveryRequest::Analyze { pc } => match analyze_block_stack(&code, pc, &[]) {
                BlockAnalysis::Block { ops, next_pc } => discovery.supply(ops, next_pc),
                other => panic!("unexpected analysis {:?}", other),
            },
            DiscoveryRequest::Finished => break,
            DiscoveryRequest::Failed(reason) => panic!("unexpected failure {:?}", reason),
        }
    }
    let blocks = discovery.into_blocks();
    assert!(blocks.contains_key(&8));
    assert!(!blocks.contains_key(&0));
    assert_eq!(
        blocks[&8],
        vec![StackOps::Push(vec![0xFFFF_FFFF]), StackOps::Return(ReturnCode::Continue(16))]
    );
}

#[test]
fn set_program_counter_checks_alignment_and_range() {
    let mut d = Dynarec::new(vec![0, 0, 0, 0]);
    assert!(!d.set_program_counter(3));
    assert!(!d.set_program_counter(16));
    assert_eq!(d.get_program_counter(), 0);
    assert!(d.set_program_counter(12));
    assert_eq!(d.get_program_counter(), 12);
    assert_eq!(d.bytecode_len(), 4);
}

#[test]
fn discovery_of_a_loop_comes_to_an_end() {
    // Push 1; JumpIfFalse 0; Jump 8: every block jumps back into the program
    let code = [1, 1, 4, 0, 5, 8];
    let mut discovery = BlockDiscovery::from_entry(code.len(), 8);
    let mut rounds = 0;
    loop {
        match discovery.next() {
            DiscoveryRequest::Analyze { pc } => match analyze_block_stack(&code, pc, &[]) {
                BlockAnalysis::Block { ops, next_pc } => {
                    rounds += 1;
                    discovery.supply(ops, next_pc);
                }
                other => panic!("unexpected analysis {:?}", other),
            },
            DiscoveryRequest::Finished => break,
            DiscoveryRequest::Failed(reason) => panic!("unexpected failure {:?}", reason),
        }
    }
    let blocks = discovery.into_blocks();
    assert_eq!(rounds, 2);
    assert!(blocks.contains_key(&8));
    assert!(blocks.contains_key(&0));
    assert_eq!(blocks.len(), 2);
}
