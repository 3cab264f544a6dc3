use vstd::prelude::*;

use super::analysis::{
    analysis_step, analyze_block, analyze_from, AnalysisModel, AnalysisState, ExternArgsModel,
    ExternInfo, StackOpModel, Step,
};
use super::emit::{block_plan, counts_fit, holds, run_instrs, stack_walk, Machine};
use super::interpreter::{
    after_condition, after_copy, after_extern, after_invoke, interp_step, CachedCall, InterpModel,
    Pending, Request,
};

verus! {

/// What a block does outside the VM stack, in the order it does it.
pub enum Effect {
    /// Read the boolean in a heap slot, for a `JumpIfFalse`.
    ReadCondition { slot: u32 },
    /// Copy heap slot `src` into heap slot `dst`.
    Copy { src: u32, dst: u32 },
    /// Call the extern at `callback` bound to `target` with these heap slots
    /// as its arguments.
    Call { callback: usize, target: usize, args: Seq<u32> },
}

/// Runs one op of a block on a VM stack, after the effects so far: the
/// stack and the effects after it, or `None` once an op takes more items
/// than the stack holds. An op that ends a block (a jump or a return) only
/// says where to go, and changes nothing here.
pub open spec fn run_op(state: Option<(Seq<u32>, Seq<Effect>)>, op: StackOpModel) -> Option<
    (Seq<u32>, Seq<Effect>),
> {
    match state {
        None => None,
        Some((stack, effects)) => {
            let n = stack.len();
            match op {
                StackOpModel::Push(items) => Some((stack + items, effects)),
                StackOpModel::Pop(count) => if count <= n {
                    Some((stack.subrange(0, n - count), effects))
                } else {
                    None
                },
                StackOpModel::Extern { callback, target, args, .. } => match args {
                    ExternArgsModel::Complete(items) => Some(
                        (stack, effects.push(Effect::Call { callback, target, args: items })),
                    ),
                    ExternArgsModel::Incomplete(count) => if count <= n {
                        let at = n - count;
                        Some(
                            (
                                stack.subrange(0, at),
                                effects.push(
                                    Effect::Call { callback, target, args: stack.subrange(at, n as int) },
                                ),
                            ),
                        )
                    } else {
                        None
                    },
                },
                StackOpModel::JumpIfFalse { arg, .. } => match arg {
                    Some(slot) => Some((stack, effects.push(Effect::ReadCondition { slot }))),
                    None => if n > 0 {
                        Some((stack.drop_last(), effects.push(Effect::ReadCondition { slot: stack.last() })))
                    } else {
                        None
                    },
                },
                StackOpModel::CopyComplete { src, dst } => Some(
                    (stack, effects.push(Effect::Copy { src, dst })),
                ),
                StackOpModel::CopyIncomplete => if n >= 2 {
                    Some(
                        (
                            stack.subrange(0, n - 2),
                            effects.push(Effect::Copy { src: stack[n - 2], dst: stack[n - 1] }),
                        ),
                    )
                } else {
                    None
                },
                _ => Some((stack, effects)),
            }
        },
    }
}

/// Runs a sequence of ops from a VM stack: the stack it leaves and the
/// effects it has, or `None` if some op takes more items than the stack
/// holds.
pub open spec fn run_ops(ops: Seq<StackOpModel>, stack: Seq<u32>) -> Option<(Seq<u32>, Seq<Effect>)>
    decreases ops.len(),
{
    if ops.len() == 0 {
        Some((stack, Seq::empty()))
    } else {
        run_op(run_ops(ops.drop_last(), stack), ops.last())
    }
}

/// What the analysis learns of an extern from the host's resolution of it.
pub open spec fn answer_of(call: CachedCall) -> ExternInfo {
    ExternInfo {
        callback: call.callback,
        target: call.target,
        parameter_count: call.parameter_count as usize,
    }
}

/// The host's resolutions of a block's externs, as the analysis takes them.
pub open spec fn answers_of(calls: Seq<CachedCall>) -> Seq<ExternInfo> {
    calls.map_values(|call: CachedCall| answer_of(call))
}

/// What the analysis learns of an extern from the host's resolution of it.
pub fn extern_info(call: CachedCall) -> (r: ExternInfo)
    ensures
        r == answer_of(call),
{
    ExternInfo {
        callback: call.callback,
        target: call.target,
        parameter_count: call.parameter_count as usize,
    }
}

/// The effects of a step, as a sequence.
pub open spec fn effect_seq(e: Option<Effect>) -> Seq<Effect> {
    match e {
        Some(x) => seq![x],
        None => Seq::empty(),
    }
}

/// One instruction of the interpreter with the host answering: a
/// `JumpIfFalse` reads `true` and falls through, copies and calls are
/// recorded as effects, and the next extern to resolve is resolved as
/// `calls[used]`. `None` where the interpreter stops, waits for a jump
/// target, or no resolution is left.
pub open spec fn host_step(m: InterpModel, calls: Seq<CachedCall>, used: nat) -> Option<
    (InterpModel, Option<Effect>, nat),
> {
    let m1 = interp_step(m).0;
    match interp_step(m).1 {
        Request::Continue => Some((m1, None, used)),
        Request::ReadBool { slot } => Some(
            (after_condition(m1, true), Some(Effect::ReadCondition { slot }), used),
        ),
        Request::CopyVariables { src, dst } => Some(
            (after_copy(m1), Some(Effect::Copy { src, dst }), used),
        ),
        Request::ResolveExtern { .. } => if used < calls.len() {
            let m2 = after_extern(m1, calls[used as int]).0;
            match after_extern(m1, calls[used as int]).1 {
                Request::Invoke { callback, target, start } => Some(
                    (
                        after_invoke(m2),
                        Some(
                            Effect::Call {
                                callback,
                                target,
                                args: m2.stack.subrange(start as int, m2.stack.len() as int),
                            },
                        ),
                        used + 1,
                    ),
                ),
                _ => None,
            }
        } else {
            None
        },
        Request::Invoke { callback, target, start } => Some(
            (
                after_invoke(m1),
                Some(
                    Effect::Call {
                        callback,
                        target,
                        args: m1.stack.subrange(start as int, m1.stack.len() as int),
                    },
                ),
                used,
            ),
        ),
        _ => None,
    }
}

/// `n` instructions of the interpreter with the host answering as in
/// `host_step`: the state reached, the effects in order, and how many
/// resolutions were used.
pub open spec fn host_run(m: InterpModel, calls: Seq<CachedCall>, used: nat, n: nat) -> Option<
    (InterpModel, Seq<Effect>, nat),
>
    decreases n,
{
    if n == 0 {
        Some((m, Seq::empty(), used))
    } else {
        match host_step(m, calls, used) {
            None => None,
            Some((m1, e, u1)) => match host_run(m1, calls, u1, (n - 1) as nat) {
                None => None,
                Some((m2, rest, u2)) => Some((m2, effect_seq(e) + rest, u2)),
            },
        }
    }
}

/// The program counter of the instruction that ends the block analysed
/// from `s`.
pub open spec fn block_end(bytecode: Seq<u32>, externs: Seq<ExternInfo>, s: AnalysisState) -> nat
    decreases bytecode.len() + 2 - s.pc / 4,
{
    proof {
        super::analysis::lemma_step_advances(bytecode, externs, s);
    }
    match analysis_step(bytecode, externs, s) {
        Step::Next(t) => block_end(bytecode, externs, t),
        _ => s.pc,
    }
}

proof fn lemma_run_push(ops: Seq<StackOpModel>, op: StackOpModel, stack: Seq<u32>)
    ensures
        run_ops(ops.push(op), stack) == run_op(run_ops(ops, stack), op),
{
    assert(ops.push(op).drop_last() =~= ops);
}

proof fn lemma_run_update_last(ops: Seq<StackOpModel>, op: StackOpModel, stack: Seq<u32>)
    requires
        ops.len() > 0,
    ensures
        run_ops(ops.update(ops.len() - 1, op), stack) == run_op(run_ops(ops.drop_last(), stack), op),
{
    assert(ops.update(ops.len() - 1, op).drop_last() =~= ops.drop_last());
}

proof fn lemma_run_flushed(s: AnalysisState, stack: Seq<u32>)
    ensures
        run_ops(s.flushed().ops, stack) == run_op(run_ops(s.ops, stack), StackOpModel::Push(s.stack)),
{
    lemma_run_push(s.ops, StackOpModel::Push(s.stack), stack);
    if let Some((st, ef)) = run_ops(s.ops, stack) {
        if s.stack.len() == 0 {
            assert(st + s.stack =~= st);
        }
    }
}

/// Where the ops of a whole block run without running short, so do the
/// ops laid out up to any point of its analysis.
proof fn lemma_prefix_runs(bytecode: Seq<u32>, externs: Seq<ExternInfo>, s: AnalysisState, stack: Seq<u32>)
    requires
        analyze_from(bytecode, externs, s) matches AnalysisModel::Block(ops, _) && run_ops(
            ops.drop_last(),
            stack,
        ) is Some,
    ensures
        run_ops(s.ops, stack) is Some,
    decreases bytecode.len() + 2 - s.pc / 4,
{
    super::analysis::lemma_step_advances(bytecode, externs, s);
    lemma_run_flushed(s, stack);
    match analysis_step(bytecode, externs, s) {
        Step::Next(t) => {
            lemma_prefix_runs(bytecode, externs, t, stack);
            let f = s.flushed();
            if s.ops.len() > 0 {
                lemma_run_update_last(s.ops, t.ops.last(), stack);
                lemma_run_push(s.ops.drop_last(), s.ops.last(), stack);
                assert(s.ops.drop_last().push(s.ops.last()) =~= s.ops);
            }
            if t.ops.len() > 0 {
                lemma_run_push(s.ops, t.ops.last(), stack);
                lemma_run_push(f.ops, t.ops.last(), stack);
            }
        },
        Step::Stop(t, op) => {
            lemma_run_push(t.flushed().ops, op, stack);
            assert(t.flushed().ops.push(op).drop_last() =~= t.flushed().ops);
        },
        _ => {},
    }
}

/// The interpreter state `m` stands where the analysis state `s` stands,
/// from the VM stack `stack` the block started on: same program counter,
/// nothing pending, the same words from here on, and its stack is what the
/// ops laid out so far leave, with the slots pushed since on top.
spec fn in_step(bytecode: Seq<u32>, s: AnalysisState, m: InterpModel, stack: Seq<u32>) -> bool {
    &&& m.pending == Pending::Idle
    &&& m.pc == s.pc
    &&& m.bytecode.len() == bytecode.len()
    &&& forall|k: int| s.pc / 4 <= k < bytecode.len() ==> #[trigger] m.bytecode[k] == bytecode[k]
    &&& run_ops(s.ops, stack) matches Some((base, _)) && m.stack == base + s.stack
    &&& m.stack.len() + bytecode.len() <= usize::MAX + s.pc / 4
}

/// The host step of the interpreter from `m` goes where the analysis goes
/// from `s`, with the effect of the op laid out for the instruction.
spec fn step_agrees(
    bytecode: Seq<u32>,
    calls: Seq<CachedCall>,
    s: AnalysisState,
    m: InterpModel,
    stack: Seq<u32>,
) -> bool {
    let t = analysis_step(bytecode, answers_of(calls), s)->Next_0;
    host_step(m, calls, s.used) matches Some((m1, e, u1)) && {
        &&& u1 == t.used
        &&& in_step(bytecode, t, m1, stack)
        &&& run_ops(t.ops, stack).unwrap().1 == run_ops(s.ops, stack).unwrap().1 + effect_seq(e)
    }
}

/// One instruction that the analysis goes past is one host step of the
/// interpreter, with the effect of the op the analysis laid out for it.
#[verifier::rlimit(60)]
proof fn lemma_step_agrees(
    bytecode: Seq<u32>,
    calls: Seq<CachedCall>,
    s: AnalysisState,
    m: InterpModel,
    stack: Seq<u32>,
)
    requires
        analysis_step(bytecode, answers_of(calls), s) matches Step::Next(t) && run_ops(t.ops, stack)
            is Some,
        in_step(bytecode, s, m, stack),
    ensures
        step_agrees(bytecode, calls, s, m, stack),
{
    let externs = answers_of(calls);
    let t = analysis_step(bytecode, externs, s)->Next_0;
    let i = (s.pc / 4) as int;
    let base = run_ops(s.ops, stack).unwrap().0;
    let done = run_ops(s.ops, stack).unwrap().1;
    let n = m.stack.len();
    super::analysis::lemma_step_advances(bytecode, externs, s);
    lemma_run_flushed(s, stack);
    assert(m.bytecode[i] == bytecode[i]);
    if i + 1 < bytecode.len() {
        assert(m.bytecode[i + 1] == bytecode[i + 1]);
    }
    assert(super::analysis::word(m.bytecode, i + 1) == super::analysis::word(bytecode, i + 1));
    let opcode = bytecode[i];
    assert(done + Seq::<Effect>::empty() =~= done);
    if opcode == super::OpCode::Push.spec_code() {
        assert(m.stack.push(bytecode[i + 1]) =~= base + s.stack.push(bytecode[i + 1]));
        assert(step_agrees(bytecode, calls, s, m, stack));
    } else if opcode == super::OpCode::Pop.spec_code() {
        if s.stack.len() > 0 {
            assert(m.stack.drop_last() =~= base + s.stack.drop_last());
            assert(step_agrees(bytecode, calls, s, m, stack));
        } else if s.ops.len() > 0 && s.ops.last() is Pop {
            let count = s.ops.last()->Pop_0;
            lemma_run_update_last(s.ops, StackOpModel::Pop(count + 1), stack);
            lemma_run_push(s.ops.drop_last(), s.ops.last(), stack);
            assert(s.ops.drop_last().push(s.ops.last()) =~= s.ops);
            let before = run_ops(s.ops.drop_last(), stack).unwrap().0;
            assert(before.subrange(0, before.len() - count - 1) =~= base.drop_last());
            assert(m.stack =~= base);
            assert(step_agrees(bytecode, calls, s, m, stack));
        } else {
            lemma_run_push(s.ops, StackOpModel::Pop(1), stack);
            assert(m.stack =~= base);
            assert(step_agrees(bytecode, calls, s, m, stack));
        }
    } else if opcode == super::OpCode::JumpIfFalse.spec_code() {
        let f = s.flushed();
        lemma_run_push(f.ops, t.ops.last(), stack);
        assert(f.ops.push(t.ops.last()) =~= t.ops);
        assert(m.stack.drop_last() + Seq::<u32>::empty() =~= m.stack.drop_last());
        assert(step_agrees(bytecode, calls, s, m, stack));
    } else if opcode == super::OpCode::Extern.spec_code() {
        let call = calls[s.used as int];
        let count = call.parameter_count as usize;
        assert(externs[s.used as int] == answer_of(call));
        let slot = bytecode[i + 1];
        if s.stack.len() < count {
            let f = s.flushed();
            lemma_run_push(f.ops, t.ops.last(), stack);
            assert(run_ops(f.ops, stack) == Some((m.stack, done)));
        }
        let m1 = interp_step(m).0;
        assert(interp_step(m).1 == Request::ResolveExtern { slot });
        assert(m1 == InterpModel { pending: Pending::Extern { slot }, ..m });
        let m2 = after_extern(m1, call).0;
        assert(count <= n);
        assert(after_extern(m1, call).1 == Request::Invoke {
            callback: call.callback,
            target: call.target,
            start: (n - count) as usize,
        });
        assert(m2.stack == m.stack);
        assert(m2.bytecode == m.bytecode.update(i, super::OpCode::CachedExtern.spec_code()));
        let m3 = after_invoke(m2);
        assert(m3.pc == t.pc);
        assert(m3.stack == m.stack.subrange(0, n - count));
        assert forall|k: int| t.pc / 4 <= k < bytecode.len() implies #[trigger] m3.bytecode[k]
            == bytecode[k] by {
            assert(m.bytecode[k] == bytecode[k]);
        }
        if s.stack.len() >= count {
            let at = s.stack.len() - count;
            lemma_run_push(s.ops, t.ops.last(), stack);
            assert(m.stack.subrange(n - count, n as int) =~= s.stack.subrange(at, s.stack.len() as int));
            assert(m.stack.subrange(0, n - count) =~= base + s.stack.subrange(0, at));
            assert(step_agrees(bytecode, calls, s, m, stack));
        } else {
            let f = s.flushed();
            lemma_run_push(f.ops, t.ops.last(), stack);
            assert(m.stack.subrange(0, n - count) + Seq::<u32>::empty() =~= m.stack.subrange(0, n - count));
            assert(step_agrees(bytecode, calls, s, m, stack));
        }
    } else if opcode == super::OpCode::Copy.spec_code() {
        if s.stack.len() >= 2 {
            let k = s.stack.len();
            lemma_run_push(s.ops, t.ops.last(), stack);
            assert(m.stack[n - 2] == s.stack[k - 2]);
            assert(m.stack[n - 1] == s.stack[k - 1]);
            assert(m.stack.subrange(0, n - 2) =~= base + s.stack.subrange(0, k - 2));
            assert(step_agrees(bytecode, calls, s, m, stack));
        } else {
            let f = s.flushed();
            lemma_run_push(f.ops, t.ops.last(), stack);
            assert(m.stack.subrange(0, n - 2) + Seq::<u32>::empty() =~= m.stack.subrange(0, n - 2));
            assert(step_agrees(bytecode, calls, s, m, stack));
        }
    } else {
        assert(step_agrees(bytecode, calls, s, m, stack));
    }
}

/// From where the analysis stands to the end of the block, the host steps
/// of the interpreter have the effects of the ops laid out from here and
/// leave the stack that the whole body of the block leaves; they stop on
/// the instruction that ends the block. Returns how many steps that takes.
proof fn lemma_run_from(
    bytecode: Seq<u32>,
    calls: Seq<CachedCall>,
    s: AnalysisState,
    m: InterpModel,
    stack: Seq<u32>,
) -> (n: nat)
    requires
        analyze_from(bytecode, answers_of(calls), s) matches AnalysisModel::Block(ops, _) && run_ops(
            ops.drop_last(),
            stack,
        ) is Some,
        in_step(bytecode, s, m, stack),
    ensures
        analyze_from(bytecode, answers_of(calls), s) matches AnalysisModel::Block(ops, _)
            && host_run(m, calls, s.used, n) matches Some((end, effects, _)) && {
            &&& run_ops(ops.drop_last(), stack) == Some(
                (end.stack, run_ops(s.ops, stack).unwrap().1 + effects),
            )
            &&& end.pc == block_end(bytecode, answers_of(calls), s)
        },
    decreases bytecode.len() + 2 - s.pc / 4,
{
    let externs = answers_of(calls);
    super::analysis::lemma_step_advances(bytecode, externs, s);
    lemma_run_flushed(s, stack);
    let done = run_ops(s.ops, stack).unwrap().1;
    match analysis_step(bytecode, externs, s) {
        Step::Next(t) => {
            lemma_prefix_runs(bytecode, externs, t, stack);
            lemma_step_agrees(bytecode, calls, s, m, stack);
            let (m1, e, u1) = host_step(m, calls, s.used).unwrap();
            let n1 = lemma_run_from(bytecode, calls, t, m1, stack);
            let (end, rest, u2) = host_run(m1, calls, u1, n1).unwrap();
            assert(host_run(m, calls, s.used, n1 + 1) == Some((end, effect_seq(e) + rest, u2)));
            assert(done + effect_seq(e) + rest =~= done + (effect_seq(e) + rest));
            n1 + 1
        },
        Step::Stop(t, op) => {
            assert(t.flushed().ops.push(op).drop_last() =~= t.flushed().ops);
            assert(done + Seq::<Effect>::empty() =~= done);
            0
        },
        _ => 0,
    }
}

/// Running a block's ops on a VM stack does what the interpreter does on
/// the block's instructions: for the block that the analysis lays out from
/// `pc`, with the host resolving the block's externs as `calls` in order,
/// and the ops of its body (all but the last, which only says where to go)
/// never taking more items than the stack holds, the interpreter started
/// at `pc` on the same stack, every condition read as `true` (no branch
/// taken) and each extern resolved as the analysis was told, makes the same
/// copies, condition reads and extern calls with the same arguments, in the
/// same order, leaves the same stack, and stops on the instruction that
/// ends the block. Returns how many instructions the interpreter runs.
pub proof fn lemma_block_ops_match_interpreter(
    bytecode: Seq<u32>,
    calls: Seq<CachedCall>,
    pc: nat,
    stack: Seq<u32>,
    cache: Map<u32, CachedCall>,
) -> (n: nat)
    requires
        analyze_block(bytecode, answers_of(calls), pc) matches AnalysisModel::Block(ops, _)
            && run_ops(ops.drop_last(), stack) is Some,
        stack.len() + bytecode.len() <= usize::MAX,
    ensures
        analyze_block(bytecode, answers_of(calls), pc) matches AnalysisModel::Block(ops, _)
            && host_run(
            InterpModel { pc, stack, bytecode, cache, pending: Pending::Idle },
            calls,
            0,
            n,
        ) matches Some((end, effects, _)) && {
            &&& run_ops(ops.drop_last(), stack) == Some((end.stack, effects))
            &&& end.pc == block_end(bytecode, answers_of(calls), AnalysisState::start(pc))
        },
{
    let s = AnalysisState::start(pc);
    let m = InterpModel { pc, stack, bytecode, cache, pending: Pending::Idle };
    assert(stack + s.stack =~= stack);
    assert(Seq::<Effect>::empty() + Seq::<Effect>::empty() =~= Seq::<Effect>::empty());
    let n = lemma_run_from(bytecode, calls, s, m, stack);
    let (end, effects, u) = host_run(m, calls, 0, n).unwrap();
    assert(Seq::<Effect>::empty() + effects =~= effects);
    n
}

/// The machine code recompiled for a block does what the interpreter does
/// on the block's instructions: for the block that the analysis lays out
/// from `pc` with the host resolving its externs as `calls`, on a stack that
/// holds enough items for its ops (so that its guard lets it run), the code
/// run straight through leaves the stack that the interpreter leaves and
/// has the interpreter's copies, condition reads and extern calls, in the
/// same order, the interpreter reading every condition as `true` and
/// stopping on the instruction that ends the block. Returns how many
/// instructions the interpreter runs.
pub proof fn lemma_recompiled_block_matches_interpreter(
    bytecode: Seq<u32>,
    calls: Seq<CachedCall>,
    pc: nat,
    stack: Seq<u32>,
    cache: Map<u32, CachedCall>,
    machine: Machine,
) -> (n: nat)
    requires
        analyze_block(bytecode, answers_of(calls), pc) matches AnalysisModel::Block(ops, _)
            && counts_fit(ops) && stack.len() + stack_walk(ops).min >= 0,
        stack.len() + bytecode.len() <= usize::MAX,
        holds(machine, stack, Seq::empty()),
    ensures
        analyze_block(bytecode, answers_of(calls), pc) matches AnalysisModel::Block(ops, _)
            && host_run(
            InterpModel { pc, stack, bytecode, cache, pending: Pending::Idle },
            calls,
            0,
            n,
        ) matches Some((end, effects, _)) && {
            &&& holds(run_instrs(block_plan(ops), machine), end.stack, effects)
            &&& end.pc == block_end(bytecode, answers_of(calls), AnalysisState::start(pc))
        },
{
    let ops = analyze_block(bytecode, answers_of(calls), pc)->Block_0;
    super::analysis::lemma_block_wf(bytecode, answers_of(calls), pc);
    super::emit::lemma_block_plan_does_the_ops(ops, machine, stack);
    lemma_run_push(ops.drop_last(), ops.last(), stack);
    assert(ops.drop_last().push(ops.last()) =~= ops);
    let n = lemma_block_ops_match_interpreter(bytecode, calls, pc, stack, cache);
    let (st, ef) = run_ops(ops, stack).unwrap();
    assert(Seq::<Effect>::empty() + ef =~= ef);
    n
}

} // verus!
