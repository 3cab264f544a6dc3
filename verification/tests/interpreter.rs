use native::vm::interpreter::{CachedCall, InterpreterState, Request};

fn bytes(words: &[u32]) -> Vec<u8> {
    words.iter().flat_map(|w| w.to_be_bytes()).collect()
}

#[test]
fn load_refuses_partial_words() {
    assert!(InterpreterState::new(&[0, 0, 0]).is_none());
    assert!(InterpreterState::new(&[0, 0, 0, 0, 1]).is_none());
    assert!(InterpreterState::new(&[]).is_some());
}

#[test]
fn runs_pushes_externs_and_branches() {
    // Push 10; Extern 20; Push 30; JumpIfFalse 0
    let code = bytes(&[1, 10, 6, 20, 1, 30, 4, 0]);
    let mut st = InterpreterState::new(&code).unwrap();
    assert_eq!(st.step(), Request::Continue);
    assert_eq!(st.pc(), 8);
    assert_eq!(st.stack(), &vec![10]);
    assert_eq!(st.step(), Request::ResolveExtern { slot: 20 });
    let call = CachedCall { callback: 0x100, target: 0x200, parameter_count: 1 };
    assert_eq!(st.resume_extern(call), Request::Invoke { callback: 0x100, target: 0x200, start: 0 });
    st.resume_invoke();
    assert_eq!(st.pc(), 16);
    assert_eq!(st.stack(), &Vec::<u32>::new());
    assert_eq!(st.step(), Request::Continue);
    assert_eq!(st.step(), Request::ReadBool { slot: 30 });
    st.resume_condition(true);
    assert_eq!(st.pc(), 32);
    assert_eq!(st.step(), Request::Finished);

    // Back at the extern: the cached answer is called without asking.
    assert_eq!(st.set_pc(0), Some(()));
    assert_eq!(st.step(), Request::Continue);
    assert_eq!(st.step(), Request::Invoke { callback: 0x100, target: 0x200, start: 0 });
    st.resume_invoke();
    assert_eq!(st.pc(), 16);
}

#[test]
fn false_condition_jumps() {
    let code = bytes(&[1, 5, 4, 0x18, 0, 0, 5, 0xFFFF_FFFF]);
    let mut st = InterpreterState::new(&code).unwrap();
    assert_eq!(st.step(), Request::Continue);
    assert_eq!(st.step(), Request::ReadBool { slot: 5 });
    st.resume_condition(false);
    assert_eq!(st.pc(), 0x18);
    assert_eq!(st.step(), Request::Continue);
    assert_eq!(st.pc(), 0xFFFF_FFFF);
    assert_eq!(st.step(), Request::Finished);
}

#[test]
fn copies_and_indirect_jumps() {
    let code = bytes(&[1, 3, 1, 4, 9, 8, 77]);
    let mut st = InterpreterState::new(&code).unwrap();
    st.step();
    st.step();
    assert_eq!(st.step(), Request::CopyVariables { src: 3, dst: 4 });
    st.resume_copy();
    assert_eq!(st.pc(), 20);
    assert_eq!(st.step(), Request::ReadU32 { slot: 77 });
    st.resume_jump(4);
    assert_eq!(st.pc(), 4);
}

#[test]
fn malformed_programs_fail() {
    let mut missing = InterpreterState::new(&bytes(&[1])).unwrap();
    assert_eq!(missing.step(), Request::Failed);
    let mut unknown = InterpreterState::new(&bytes(&[3])).unwrap();
    assert_eq!(unknown.step(), Request::UnknownOpcode(3));
    let mut empty_copy = InterpreterState::new(&bytes(&[1, 3, 9])).unwrap();
    empty_copy.step();
    assert_eq!(empty_copy.step(), Request::Failed);
    // The destination was popped before the source was found missing.
    assert_eq!(empty_copy.stack(), &Vec::<u32>::new());
    let mut no_cond = InterpreterState::new(&bytes(&[4, 0])).unwrap();
    assert_eq!(no_cond.step(), Request::Failed);
    let mut uncached = InterpreterState::new(&bytes(&[10, 5])).unwrap();
    assert_eq!(uncached.step(), Request::Failed);
}

#[test]
fn extern_with_too_few_arguments_underflows() {
    let mut st = InterpreterState::new(&bytes(&[6, 20])).unwrap();
    assert_eq!(st.step(), Request::ResolveExtern { slot: 20 });
    let call = CachedCall { callback: 1, target: 2, parameter_count: 1 };
    assert_eq!(st.resume_extern(call), Request::ArgumentUnderflow);
    let mut neg = InterpreterState::new(&bytes(&[1, 1, 6, 20])).unwrap();
    neg.step();
    neg.step();
    let call = CachedCall { callback: 1, target: 2, parameter_count: -1 };
    assert_eq!(neg.resume_extern(call), Request::ArgumentUnderflow);
}

#[test]
fn set_pc_checks_alignment_and_range() {
    let mut st = InterpreterState::new(&bytes(&[0, 0, 0])).unwrap();
    assert_eq!(st.set_pc(2), None);
    assert_eq!(st.set_pc(12), None);
    assert_eq!(st.pc(), 0);
    assert_eq!(st.set_pc(8), Some(()));
    assert_eq!(st.pc(), 8);
    assert_eq!(st.step(), Request::Continue);
    assert_eq!(st.step(), Request::Finished);
}

#[test]
fn resolving_an_extern_rewrites_only_its_opcode() {
    // Push 10; Extern 6 (its operand names heap slot 6); Nop
    let code = bytes(&[1, 10, 6, 6, 0]);
    let mut st = InterpreterState::new(&code).unwrap();
    assert_eq!(st.step(), Request::Continue);
    assert_eq!(st.step(), Request::ResolveExtern { slot: 6 });
    assert_eq!(st.bytecode(), &vec![1, 10, 6, 6, 0]);
    let call = CachedCall { callback: 0x10, target: 0x20, parameter_count: 1 };
    assert_eq!(st.resume_extern(call), Request::Invoke { callback: 0x10, target: 0x20, start: 0 });
    assert_eq!(st.bytecode(), &vec![1, 10, 10, 6, 0]);
    st.resume_invoke();
    assert_eq!(st.step(), Request::Continue);
    assert_eq!(st.step(), Request::Finished);
    assert_eq!(st.bytecode(), &vec![1, 10, 10, 6, 0]);
}

#[test]
fn cached_extern_asks_for_the_same_call() {
    let call = CachedCall { callback: 0x10, target: 0x20, parameter_count: 2 };
    // first run: Push 1; Push 2; Extern 9
    let code = bytes(&[1, 1, 1, 2, 6, 9]);
    let mut first = InterpreterState::new(&code).unwrap();
    first.step();
    first.step();
    assert_eq!(first.step(), Request::ResolveExtern { slot: 9 });
    let asked = first.resume_extern(call);
    first.resume_invoke();
    // second run over the rewritten program, from the same stack
    assert_eq!(first.set_pc(0), Some(()));
    first.step();
    first.step();
    assert_eq!(first.step(), asked);
    assert_eq!(asked, Request::Invoke { callback: 0x10, target: 0x20, start: 0 });
    first.resume_invoke();
    assert_eq!(first.pc(), 24);
    assert_eq!(first.stack(), &Vec::<u32>::new());
}
