use vstd::prelude::*;

use super::OpCode;

verus! {

/// What a block of recompiled code hands back to its caller, packed into
/// a `u64`: the upper half says why the block stopped, the lower half
/// carries the bytecode program counter or the offending opcode.
#[derive(Debug, Clone, Copy, PartialEq, Eq, Structural)]
pub enum ReturnCode {
    /// Run on from the given program counter.
    Continue(u32),
    /// The block cannot go on without the interpreter (the stack ran short).
    RequestInterpreter(u32),
    /// The bytecode ended in the middle of an instruction.
    MissingArgument,
    /// The bytecode held an opcode that is not known.
    UnknownOpCode(u32),
    /// An item was popped from an empty stack.
    StackUnderflow,
    /// A value that none of the other variants encodes to.
    UnknownReturn(u64),
}

impl ReturnCode {
    /// The `u64` that stands for this return code.
    pub open spec fn spec_encode(self) -> u64 {
        match self {
            ReturnCode::Continue(pc) => pc as u64,
            ReturnCode::RequestInterpreter(pc) => (0x8000_0000_0000_0000u64 + pc) as u64,
            ReturnCode::MissingArgument => 0x1_0000_0000u64,
            ReturnCode::UnknownOpCode(op) => (0x2_0000_0000u64 + op) as u64,
            ReturnCode::StackUnderflow => 0x3_0000_0000u64,
            ReturnCode::UnknownReturn(unk) => unk,
        }
    }

    /// The return code that a `u64` stands for, read off its upper half.
    pub open spec fn spec_decode(val: u64) -> ReturnCode {
        let high = val / 0x1_0000_0000u64;
        let low = (val % 0x1_0000_0000u64) as u32;
        if high == 0 {
            ReturnCode::Continue(low)
        } else if high == 0x8000_0000 {
            ReturnCode::RequestInterpreter(low)
        } else if high == 1 {
            ReturnCode::MissingArgument
        } else if high == 2 {
            ReturnCode::UnknownOpCode(low)
        } else if high == 3 {
            ReturnCode::StackUnderflow
        } else {
            ReturnCode::UnknownReturn(val)
        }
    }

    /// Whether decoding the encoding of this return code gives it back:
    /// all but an `UnknownReturn` whose value one of the other variants
    /// claims.
    pub open spec fn is_canonical(self) -> bool {
        match self {
            ReturnCode::UnknownReturn(unk) => {
                let high = unk / 0x1_0000_0000u64;
                high != 0 && high != 1 && high != 2 && high != 3 && high != 0x8000_0000
            },
            _ => true,
        }
    }

    pub fn encode(&self) -> (r: u64)
        ensures
            r == self.spec_encode(),
    {
        match self {
            ReturnCode::Continue(pc) => *pc as u64,
            ReturnCode::RequestInterpreter(pc) => {
                let p = *pc as u64;
                assert(p | (1u64 << 63u64) == 0x8000_0000_0000_0000u64 + p) by (bit_vector)
                    requires
                        p < 0x1_0000_0000u64,
                ;
                p | (1u64 << 63u64)
            },
            ReturnCode::MissingArgument => {
                assert(0x00000001u64 << 32u64 == 0x1_0000_0000u64) by (bit_vector);
                0x00000001u64 << 32u64
            },
            ReturnCode::UnknownOpCode(op) => {
                let o = *op as u64;
                assert((0x00000002u64 << 32u64) | o == 0x2_0000_0000u64 + o) by (bit_vector)
                    requires
                        o < 0x1_0000_0000u64,
                ;
                (0x00000002u64 << 32u64) | o
            },
            ReturnCode::StackUnderflow => {
                assert(0x00000003u64 << 32u64 == 0x3_0000_0000u64) by (bit_vector);
                0x00000003u64 << 32u64
            },
            ReturnCode::UnknownReturn(unk) => *unk,
        }
    }

    pub fn decode(val: u64) -> (r: ReturnCode)
        ensures
            r == ReturnCode::spec_decode(val),
    {
        assert(val >> 32u64 == val / 0x1_0000_0000u64) by (bit_vector);
        assert(val as u32 == val % 0x1_0000_0000u64) by (bit_vector);
        let high = val >> 32u64;
        if high == 0x00000000 {
            ReturnCode::Continue(val as u32)
        } else if high == 0x80000000 {
            ReturnCode::RequestInterpreter(val as u32)
        } else if high == 0x00000001 {
            ReturnCode::MissingArgument
        } else if high == 0x00000002 {
            ReturnCode::UnknownOpCode(val as u32)
        } else if high == 0x00000003 {
            ReturnCode::StackUnderflow
        } else {
            ReturnCode::UnknownReturn(val)
        }
    }
}

/// Decoding an encoded return code gives it back, for every return code
/// but an `UnknownReturn` whose value another variant claims.
pub proof fn lemma_decode_encode(rc: ReturnCode)
    requires
        rc.is_canonical(),
    ensures
        ReturnCode::spec_decode(rc.spec_encode()) == rc,
{
}

/// Encoding a decoded value gives the value back, unless its upper half
/// names `MissingArgument` or `StackUnderflow` while its lower half is not
/// zero (those two variants carry no lower half).
pub proof fn lemma_encode_decode(val: u64)
    requires
        !((val / 0x1_0000_0000u64 == 1 || val / 0x1_0000_0000u64 == 3) && val % 0x1_0000_0000u64
            != 0),
    ensures
        ReturnCode::spec_decode(val).spec_encode() == val,
{
}


/// The arguments of an extern call as the analysis sees them: either the
/// heap slots that the block pushed itself, or only how many the callee
/// takes when some of them were pushed before the block began.
#[derive(Debug, Clone, PartialEq, Eq)]
pub enum ExternArgs {
    Complete(Vec<u32>),
    Incomplete(usize),
}

/// The mathematical value of an `ExternArgs`.
pub enum ExternArgsModel {
    Complete(Seq<u32>),
    Incomplete(usize),
}

impl ExternArgsModel {
    /// How many arguments the call takes.
    pub open spec fn len(self) -> nat {
        match self {
            ExternArgsModel::Complete(args) => args.len(),
            ExternArgsModel::Incomplete(count) => count as nat,
        }
    }
}

impl View for ExternArgs {
    type V = ExternArgsModel;

    open spec fn view(&self) -> ExternArgsModel {
        match self {
            ExternArgs::Complete(args) => ExternArgsModel::Complete(args@),
            ExternArgs::Incomplete(count) => ExternArgsModel::Incomplete(*count),
        }
    }
}

impl ExternArgs {
    pub fn len(&self) -> (r: usize)
        ensures
            r == self@.len(),
    {
        match self {
            ExternArgs::Complete(args) => args.len(),
            ExternArgs::Incomplete(count) => *count,
        }
    }
}

/// One step of a block as the recompiler lays it out: the effect that the
/// bytecode of the block has on the VM stack and the heap.
///
/// An extern's callee and the object it is bound to are carried as the
/// addresses that the host handed out for them.
#[derive(Debug, Clone, PartialEq, Eq)]
pub enum StackOps {
    /// Push these heap slots onto the VM stack.
    Push(Vec<u32>),
    /// Drop this many items that were on the stack before the block began.
    Pop(usize),
    /// Call an extern function.
    Extern { callback: usize, target: usize, heap_slot: u32, args: ExternArgs },
    /// Jump to `destination` unless the boolean in the heap slot (given, or
    /// on top of the stack) is true.
    JumpIfFalse { destination: u32, arg: Option<u32> },
    /// Copy one heap slot into another, both known to the block.
    CopyComplete { src: u32, dst: u32 },
    /// Copy with both slots taken from the stack.
    CopyIncomplete,
    /// Jump to a fixed program counter.
    Jump(usize),
    /// Jump to the program counter stored in a heap slot.
    JumpIndirect(u32),
    /// Leave the recompiled code with this return code.
    Return(ReturnCode),
}

/// The mathematical value of a `StackOps`.
pub enum StackOpModel {
    Push(Seq<u32>),
    Pop(nat),
    Extern { callback: usize, target: usize, heap_slot: u32, args: ExternArgsModel },
    JumpIfFalse { destination: u32, arg: Option<u32> },
    CopyComplete { src: u32, dst: u32 },
    CopyIncomplete,
    Jump(usize),
    JumpIndirect(u32),
    Return(ReturnCode),
}

impl View for StackOps {
    type V = StackOpModel;

    open spec fn view(&self) -> StackOpModel {
        match self {
            StackOps::Push(items) => StackOpModel::Push(items@),
            StackOps::Pop(count) => StackOpModel::Pop(*count as nat),
            StackOps::Extern { callback, target, heap_slot, args } => StackOpModel::Extern {
                callback: *callback,
                target: *target,
                heap_slot: *heap_slot,
                args: args@,
            },
            StackOps::JumpIfFalse { destination, arg } => StackOpModel::JumpIfFalse {
                destination: *destination,
                arg: *arg,
            },
            StackOps::CopyComplete { src, dst } => StackOpModel::CopyComplete {
                src: *src,
                dst: *dst,
            },
            StackOps::CopyIncomplete => StackOpModel::CopyIncomplete,
            StackOps::Jump(destination) => StackOpModel::Jump(*destination),
            StackOps::JumpIndirect(slot) => StackOpModel::JumpIndirect(*slot),
            StackOps::Return(reason) => StackOpModel::Return(*reason),
        }
    }
}

/// The values of a sequence of ops.
pub open spec fn ops_model(ops: Seq<StackOps>) -> Seq<StackOpModel> {
    ops.map_values(|op: StackOps| op@)
}

/// What the host answered for one extern: the address of the function to
/// call, the address of the object it is bound to, and how many arguments
/// it takes.
#[derive(Debug, Clone, Copy, PartialEq, Eq, Structural)]
pub struct ExternInfo {
    pub callback: usize,
    pub target: usize,
    pub parameter_count: usize,
}

/// Where the analysis of a block stands: the program counter, the heap
/// slots pushed and not yet consumed, the ops laid out so far, and how many
/// of the host's extern answers were used.
#[verifier::ext_equal]
pub struct AnalysisState {
    pub pc: nat,
    pub stack: Seq<u32>,
    pub ops: Seq<StackOpModel>,
    pub used: nat,
}

impl AnalysisState {
    pub open spec fn start(pc: nat) -> AnalysisState {
        AnalysisState { pc, stack: Seq::empty(), ops: Seq::empty(), used: 0 }
    }

    /// Lays out the pushed slots as one `Push`, if there are any.
    pub open spec fn flushed(self) -> AnalysisState {
        if self.stack.len() != 0 {
            AnalysisState {
                stack: Seq::empty(),
                ops: self.ops.push(StackOpModel::Push(self.stack)),
                ..self
            }
        } else {
            self
        }
    }

    pub open spec fn at(self, pc: nat) -> AnalysisState {
        AnalysisState { pc, ..self }
    }
}

/// The word at index `i` of the bytecode, if there is one.
pub open spec fn word(bytecode: Seq<u32>, i: int) -> Option<u32> {
    if 0 <= i < bytecode.len() {
        Some(bytecode[i])
    } else {
        None
    }
}

/// The outcome of analysing one instruction.
pub enum Step {
    /// The block goes on from this state.
    Next(AnalysisState),
    /// The block ends in this state with this op.
    Stop(AnalysisState, StackOpModel),
    /// The host has to be asked about the extern in this heap slot.
    NeedExtern(u32),
    /// A `CachedExtern` at this program counter: the analysis cannot handle it.
    Unsupported(nat),
}

/// Analyses the instruction at `s.pc`.
pub open spec fn analysis_step(bytecode: Seq<u32>, externs: Seq<ExternInfo>, s: AnalysisState) -> Step {
    let i: int = (s.pc / 4) as int;
    if i >= bytecode.len() {
        Step::Stop(s, StackOpModel::Return(ReturnCode::Continue(s.pc as u32)))
    } else {
        let opcode = bytecode[i as int];
        let missing = StackOpModel::Return(ReturnCode::MissingArgument);
        match OpCode::spec_from_u32(opcode) {
            Some(OpCode::Nop) => Step::Next(s.at(s.pc + 4)),
            Some(OpCode::Annotation) => Step::Next(s.at(s.pc + 8)),
            Some(OpCode::Push) => match word(bytecode, i + 1) {
                None => Step::Stop(s, missing),
                Some(slot) => Step::Next(
                    AnalysisState { pc: s.pc + 8, stack: s.stack.push(slot), ..s },
                ),
            },
            Some(OpCode::Pop) => if s.stack.len() > 0 {
                Step::Next(
                    AnalysisState { pc: s.pc + 4, stack: s.stack.drop_last(), ..s },
                )
            } else if s.ops.len() > 0 && s.ops.last() is Pop {
                let count = s.ops.last()->Pop_0;
                Step::Next(
                    AnalysisState {
                        pc: s.pc + 4,
                        ops: s.ops.update(s.ops.len() - 1, StackOpModel::Pop(count + 1)),
                        ..s
                    },
                )
            } else {
                Step::Next(
                    AnalysisState { pc: s.pc + 4, ops: s.ops.push(StackOpModel::Pop(1)), ..s },
                )
            },
            Some(OpCode::JumpIfFalse) => {
                let f = s.flushed();
                match word(bytecode, i + 1) {
                    None => Step::Stop(f, missing),
                    Some(destination) => Step::Next(
                        AnalysisState {
                            pc: s.pc + 8,
                            ops: f.ops.push(StackOpModel::JumpIfFalse { destination, arg: None }),
                            ..f
                        },
                    ),
                }
            },
            Some(OpCode::Jump) => match word(bytecode, i + 1) {
                None => Step::Stop(s, missing),
                Some(destination) => Step::Stop(
                    s.at(s.pc + 8),
                    if destination == 0xFFFF_FFFF || destination == 0xFFFF_FFFC {
                        StackOpModel::Return(ReturnCode::Continue(destination))
                    } else {
                        StackOpModel::Jump(destination as usize)
                    },
                ),
            },
            Some(OpCode::Extern) => match word(bytecode, i + 1) {
                None => Step::Stop(s, missing),
                Some(heap_slot) => if s.used < externs.len() {
                    let info = externs[s.used as int];
                    let count = info.parameter_count;
                    if s.stack.len() >= count {
                        let at = s.stack.len() - count;
                        Step::Next(
                            AnalysisState {
                                pc: s.pc + 8,
                                stack: s.stack.subrange(0, at),
                                ops: s.ops.push(
                                    StackOpModel::Extern {
                                        callback: info.callback,
                                        target: info.target,
                                        heap_slot,
                                        args: ExternArgsModel::Complete(
                                            s.stack.subrange(at, s.stack.len() as int),
                                        ),
                                    },
                                ),
                                used: s.used + 1,
                            },
                        )
                    } else {
                        let f = s.flushed();
                        Step::Next(
                            AnalysisState {
                                pc: s.pc + 8,
                                ops: f.ops.push(
                                    StackOpModel::Extern {
                                        callback: info.callback,
                                        target: info.target,
                                        heap_slot,
                                        args: ExternArgsModel::Incomplete(count),
                                    },
                                ),
                                used: s.used + 1,
                                ..f
                            },
                        )
                    }
                } else {
                    Step::NeedExtern(heap_slot)
                },
            },
            Some(OpCode::JumpIndirect) => match word(bytecode, i + 1) {
                None => Step::Stop(s, missing),
                Some(slot) => Step::Stop(s.at(s.pc + 8), StackOpModel::JumpIndirect(slot)),
            },
            Some(OpCode::Copy) => if s.stack.len() >= 2 {
                let n = s.stack.len();
                Step::Next(
                    AnalysisState {
                        pc: s.pc + 4,
                        stack: s.stack.subrange(0, n - 2),
                        ops: s.ops.push(
                            StackOpModel::CopyComplete { src: s.stack[n - 2], dst: s.stack[n - 1] },
                        ),
                        ..s
                    },
                )
            } else {
                let f = s.flushed();
                Step::Next(
                    AnalysisState { pc: s.pc + 4, ops: f.ops.push(StackOpModel::CopyIncomplete), ..f },
                )
            },
            Some(OpCode::CachedExtern) => match word(bytecode, i + 1) {
                None => Step::Stop(s, missing),
                Some(_) => Step::Unsupported(s.pc),
            },
            None => Step::Stop(s, StackOpModel::Return(ReturnCode::UnknownOpCode(opcode))),
        }
    }
}

/// Every step that goes on reads an instruction inside the bytecode and
/// moves the program counter forward by at least one word.
pub proof fn lemma_step_advances(bytecode: Seq<u32>, externs: Seq<ExternInfo>, s: AnalysisState)
    ensures
        analysis_step(bytecode, externs, s) matches Step::Next(t) ==> s.pc / 4 < bytecode.len()
            && t.pc >= s.pc + 4 && t.pc <= s.pc + 8,
{
}

/// The outcome of analysing a block.
pub enum AnalysisModel {
    /// The block's ops, ending with the op that ends it, and the program
    /// counter after it.
    Block(Seq<StackOpModel>, nat),
    /// The host has to be asked about the extern in this heap slot: the
    /// answers given so far are used up.
    NeedExtern(u32),
    /// The block reaches a `CachedExtern` at this program counter.
    Unsupported(nat),
}

/// Runs the analysis from state `s` to the end of its block.
pub open spec fn analyze_from(bytecode: Seq<u32>, externs: Seq<ExternInfo>, s: AnalysisState) -> AnalysisModel
    decreases bytecode.len() + 2 - s.pc / 4,
{
    proof {
        lemma_step_advances(bytecode, externs, s);
    }
    match analysis_step(bytecode, externs, s) {
        Step::Next(t) => analyze_from(bytecode, externs, t),
        Step::Stop(t, op) => AnalysisModel::Block(t.flushed().ops.push(op), t.pc),
        Step::NeedExtern(slot) => AnalysisModel::NeedExtern(slot),
        Step::Unsupported(pc) => AnalysisModel::Unsupported(pc),
    }
}

/// The analysis of the block that starts at `pc`, with the host's answers
/// about the block's externs, in the order in which the block calls them.
pub open spec fn analyze_block(bytecode: Seq<u32>, externs: Seq<ExternInfo>, pc: nat) -> AnalysisModel {
    analyze_from(bytecode, externs, AnalysisState::start(pc))
}


/// The state that the executable analysis holds in its variables.
pub open spec fn state_of(pc: usize, stack: Seq<u32>, ops: Seq<StackOps>, used: usize) -> AnalysisState {
    AnalysisState { pc: pc as nat, stack, ops: ops_model(ops), used: used as nat }
}

/// No `Pop` op drops more items than `bound`.
pub open spec fn pops_bounded(ops: Seq<StackOpModel>, bound: nat) -> bool {
    forall|i: int| 0 <= i < ops.len() && #[trigger] ops[i] is Pop ==> ops[i]->Pop_0 <= bound
}

proof fn lemma_ops_model_push(ops: Seq<StackOps>, op: StackOps)
    ensures
        ops_model(ops.push(op)) == ops_model(ops).push(op@),
{
    assert(ops_model(ops.push(op)) =~= ops_model(ops).push(op@));
}

/// Lays the pushed slots out as one `Push` op, if there are any.
fn flush_stack(stack: &mut Vec<u32>, ops: &mut Vec<StackOps>)
    ensures
        ({
            let f = state_of(0, old(stack)@, old(ops)@, 0).flushed();
            &&& final(stack)@ == f.stack
            &&& ops_model(final(ops)@) == f.ops
        }),
        old(stack)@.len() == 0 ==> final(ops)@ == old(ops)@,
{
    if stack.len() != 0 {
        let mut items = Vec::new();
        std::mem::swap(stack, &mut items);
        proof {
            lemma_ops_model_push(ops@, StackOps::Push(items));
        }
        ops.push(StackOps::Push(items));
    }
}

/// What one executed step of the analysis reports.
enum StepExit {
    Next,
    Stop(StackOps),
    NeedExtern(u32),
    Unsupported(usize),
}

/// Analyses the instruction at `pc`, updating the analysis variables.
#[verifier::rlimit(40)]
fn analysis_step_exec(
    bytecode: &[u32],
    externs: &[ExternInfo],
    pc: &mut usize,
    stack: &mut Vec<u32>,
    ops: &mut Vec<StackOps>,
    used: &mut usize,
) -> (r: StepExit)
    requires
        bytecode@.len() * 4 + 8 <= usize::MAX,
        *old(used) <= externs@.len(),
        pops_bounded(ops_model(old(ops)@), *old(pc) as nat),
    ensures
        *final(used) <= externs@.len(),
        pops_bounded(ops_model(final(ops)@), *final(pc) as nat),
        ({
            let s = state_of(*old(pc), old(stack)@, old(ops)@, *old(used));
            let t = state_of(*final(pc), final(stack)@, final(ops)@, *final(used));
            match analysis_step(bytecode@, externs@, s) {
                Step::Next(n) => r is Next && t == n,
                Step::Stop(n, op) => r matches StepExit::Stop(o) && o@ == op && t == n,
                Step::NeedExtern(slot) => r matches StepExit::NeedExtern(q) && q == slot,
                Step::Unsupported(p) => r matches StepExit::Unsupported(q) && q == p,
            }
        }),
{
    let ghost s = state_of(*pc, stack@, ops@, *used);
    let i = *pc / 4;
    if i >= bytecode.len() {
        return StepExit::Stop(StackOps::Return(ReturnCode::Continue(*pc as u32)));
    }
    let opcode = bytecode[i];
    let has_arg = i + 1 < bytecode.len();
    match OpCode::from_u32(opcode) {
        Some(OpCode::Nop) => {
            *pc = *pc + 4;
            assert(state_of(*pc, stack@, ops@, *used) =~= s.at(s.pc + 4));
            StepExit::Next
        },
        Some(OpCode::Annotation) => {
            *pc = *pc + 8;
            assert(state_of(*pc, stack@, ops@, *used) =~= s.at(s.pc + 8));
            StepExit::Next
        },
        Some(OpCode::Push) => {
            if !has_arg {
                return StepExit::Stop(StackOps::Return(ReturnCode::MissingArgument));
            }
            let heap_slot = bytecode[i + 1];
            stack.push(heap_slot);
            *pc = *pc + 8;
            StepExit::Next
        },
        Some(OpCode::Pop) => {
            if stack.len() > 0 {
                stack.pop();
            } else {
                let n = ops.len();
                let mut merged = false;
                if n > 0 {
                    if let StackOps::Pop(count) = &ops[n - 1] {
                        let next = *count + 1;
                        proof {
                            assert(ops_model(ops@)[n - 1] == ops@[n - 1]@);
                            assert(ops_model(ops@.update(n - 1, StackOps::Pop(next))) =~= ops_model(
                                ops@,
                            ).update(n - 1, StackOpModel::Pop(next as nat)));
                        }
                        ops.set(n - 1, StackOps::Pop(next));
                        merged = true;
                    }
                }
                if !merged {
                    proof {
                        lemma_ops_model_push(ops@, StackOps::Pop(1));
                    }
                    ops.push(StackOps::Pop(1));
                }
            }
            *pc = *pc + 4;
            StepExit::Next
        },
        Some(OpCode::JumpIfFalse) => {
            flush_stack(stack, ops);
            if !has_arg {
                return StepExit::Stop(StackOps::Return(ReturnCode::MissingArgument));
            }
            let destination = bytecode[i + 1];
            let arg = stack.pop();
            let op = StackOps::JumpIfFalse { destination, arg };
            proof {
                lemma_ops_model_push(ops@, op);
            }
            ops.push(op);
            *pc = *pc + 8;
            StepExit::Next
        },
        Some(OpCode::Jump) => {
            if !has_arg {
                return StepExit::Stop(StackOps::Return(ReturnCode::MissingArgument));
            }
            let dest = bytecode[i + 1] as usize;
            *pc = *pc + 8;
            if dest == 0xFFFF_FFFF || dest == 0xFFFF_FFFC {
                StepExit::Stop(StackOps::Return(ReturnCode::Continue(dest as u32)))
            } else {
                StepExit::Stop(StackOps::Jump(dest))
            }
        },
        Some(OpCode::Extern) => {
            if !has_arg {
                return StepExit::Stop(StackOps::Return(ReturnCode::MissingArgument));
            }
            let heap_slot = bytecode[i + 1];
            if *used >= externs.len() {
                return StepExit::NeedExtern(heap_slot);
            }
            let info = externs[*used];
            *used = *used + 1;
            let count = info.parameter_count;
            let args = if stack.len() >= count {
                let at = stack.len() - count;
                ExternArgs::Complete(stack.split_off(at))
            } else {
                flush_stack(stack, ops);
                ExternArgs::Incomplete(count)
            };
            let op = StackOps::Extern {
                callback: info.callback,
                target: info.target,
                heap_slot,
                args,
            };
            proof {
                lemma_ops_model_push(ops@, op);
            }
            ops.push(op);
            *pc = *pc + 8;
            StepExit::Next
        },
        Some(OpCode::JumpIndirect) => {
            if !has_arg {
                return StepExit::Stop(StackOps::Return(ReturnCode::MissingArgument));
            }
            let heap_slot = bytecode[i + 1];
            *pc = *pc + 8;
            StepExit::Stop(StackOps::JumpIndirect(heap_slot))
        },
        Some(OpCode::Copy) => {
            if stack.len() >= 2 {
                let dst = stack.pop().unwrap();
                let src = stack.pop().unwrap();
                let op = StackOps::CopyComplete { src, dst };
                proof {
                    lemma_ops_model_push(ops@, op);
                }
                ops.push(op);
            } else {
                flush_stack(stack, ops);
                proof {
                    lemma_ops_model_push(ops@, StackOps::CopyIncomplete);
                }
                ops.push(StackOps::CopyIncomplete);
            }
            *pc = *pc + 4;
            StepExit::Next
        },
        Some(OpCode::CachedExtern) => {
            if !has_arg {
                return StepExit::Stop(StackOps::Return(ReturnCode::MissingArgument));
            }
            StepExit::Unsupported(*pc)
        },
        None => StepExit::Stop(StackOps::Return(ReturnCode::UnknownOpCode(opcode))),
    }
}


/// The outcome of `analyze_block_stack`.
#[derive(Debug, Clone, PartialEq, Eq)]
pub enum BlockAnalysis {
    /// The block's ops, ending with the op that ends it, and the program
    /// counter after the block.
    Block { ops: Vec<StackOps>, next_pc: usize },
    /// The block calls the extern in this heap slot and the answers handed
    /// in are used up: ask the host about it, add the answer, analyse again.
    NeedExtern { heap_slot: u32 },
    /// The block reaches a `CachedExtern` (with its operand) at this program
    /// counter. The analysis has no parameter count for an extern that was
    /// resolved elsewhere, so it cannot lay the block out: this is an error
    /// value, and the caller is to abort the recompilation here. A block
    /// is analysed with no other error of this kind.
    Unsupported { pc: usize },
}

impl View for BlockAnalysis {
    type V = AnalysisModel;

    open spec fn view(&self) -> AnalysisModel {
        match self {
            BlockAnalysis::Block { ops, next_pc } => AnalysisModel::Block(
                ops_model(ops@),
                *next_pc as nat,
            ),
            BlockAnalysis::NeedExtern { heap_slot } => AnalysisModel::NeedExtern(*heap_slot),
            BlockAnalysis::Unsupported { pc } => AnalysisModel::Unsupported(*pc as nat),
        }
    }
}

/// Lays out the block of bytecode that starts at `pc` as a list of stack
/// ops: pushes are gathered and handed straight to the externs and copies
/// that consume them, and only what the block leaves on the stack or takes
/// from what was there before it is kept as `Push` and `Pop` ops. The block
/// ends at the first jump, at the end of the bytecode, or at an error,
/// which the last op reports.
///
/// `externs` holds the host's answers for the block's extern calls, in the
/// order in which the block makes them; when they run out the result asks
/// for the next one.
pub fn analyze_block_stack(bytecode: &[u32], pc: usize, externs: &[ExternInfo]) -> (r: BlockAnalysis)
    requires
        bytecode@.len() * 4 + 8 <= usize::MAX,
    ensures
        r@ == analyze_block(bytecode@, externs@, pc as nat),
{
    let ghost start = AnalysisState::start(pc as nat);
    let mut cur = pc;
    let mut stack: Vec<u32> = Vec::new();
    let mut ops: Vec<StackOps> = Vec::new();
    let mut used: usize = 0;
    assert(state_of(cur, stack@, ops@, used) =~= start);
    loop
        invariant
            bytecode@.len() * 4 + 8 <= usize::MAX,
            start == AnalysisState::start(pc as nat),
            used <= externs@.len(),
            pops_bounded(ops_model(ops@), cur as nat),
            analyze_from(bytecode@, externs@, state_of(cur, stack@, ops@, used)) == analyze_from(
                bytecode@,
                externs@,
                start,
            ),
        decreases usize::MAX - cur,
    {
        let ghost s = state_of(cur, stack@, ops@, used);
        proof {
            lemma_step_advances(bytecode@, externs@, s);
        }
        match analysis_step_exec(bytecode, externs, &mut cur, &mut stack, &mut ops, &mut used) {
            StepExit::Next => {},
            StepExit::Stop(op) => {
                let ghost t = state_of(cur, stack@, ops@, used);
                flush_stack(&mut stack, &mut ops);
                proof {
                    lemma_ops_model_push(ops@, op);
                }
                ops.push(op);
                assert(ops_model(ops@) == t.flushed().ops.push(op@));
                return BlockAnalysis::Block { ops, next_pc: cur };
            },
            StepExit::NeedExtern(heap_slot) => {
                return BlockAnalysis::NeedExtern { heap_slot };
            },
            StepExit::Unsupported(at) => {
                return BlockAnalysis::Unsupported { pc: at };
            },
        }
    }
}


proof fn lemma_analyze_from_extra_answers(
    bytecode: Seq<u32>,
    externs: Seq<ExternInfo>,
    more: Seq<ExternInfo>,
    s: AnalysisState,
)
    requires
        s.used <= externs.len(),
        !(analyze_from(bytecode, externs, s) is NeedExtern),
    ensures
        analyze_from(bytecode, externs + more, s) == analyze_from(bytecode, externs, s),
    decreases bytecode.len() + 2 - s.pc / 4,
{
    lemma_step_advances(bytecode, externs, s);
    lemma_step_advances(bytecode, externs + more, s);
    if s.used < externs.len() {
        assert((externs + more)[s.used as int] == externs[s.used as int]);
    }
    assert(analysis_step(bytecode, externs + more, s) == analysis_step(bytecode, externs, s));
    if let Step::Next(t) = analysis_step(bytecode, externs, s) {
        lemma_analyze_from_extra_answers(bytecode, externs, more, t);
    }
}

/// Handing in more extern answers than a block uses does not change its
/// analysis: once the analysis no longer asks for an answer, the answers
/// after those it used are never read.
pub proof fn lemma_extra_answers_unused(
    bytecode: Seq<u32>,
    externs: Seq<ExternInfo>,
    more: Seq<ExternInfo>,
    pc: nat,
)
    requires
        !(analyze_block(bytecode, externs, pc) is NeedExtern),
    ensures
        analyze_block(bytecode, externs + more, pc) == analyze_block(bytecode, externs, pc),
{
    lemma_analyze_from_extra_answers(bytecode, externs, more, AnalysisState::start(pc));
}

proof fn lemma_analyze_from_asks_boundedly(
    bytecode: Seq<u32>,
    externs: Seq<ExternInfo>,
    s: AnalysisState,
    pc0: nat,
)
    requires
        s.used <= externs.len(),
        pc0 <= s.pc,
        s.used * 8 <= s.pc - pc0,
        analyze_from(bytecode, externs, s) is NeedExtern,
    ensures
        externs.len() * 8 + pc0 < bytecode.len() * 4,
    decreases bytecode.len() + 2 - s.pc / 4,
{
    lemma_step_advances(bytecode, externs, s);
    if let Step::Next(t) = analysis_step(bytecode, externs, s) {
        lemma_analyze_from_asks_boundedly(bytecode, externs, t, pc0);
    }
}

/// The analysis asks for another extern answer only while fewer answers
/// have been handed in than an eighth of the bytecode's size in bytes from
/// the block's start on: each extern call takes two words, so asking and
/// analysing again ends after at most that many rounds.
pub proof fn lemma_asks_boundedly(bytecode: Seq<u32>, externs: Seq<ExternInfo>, pc: nat)
    requires
        analyze_block(bytecode, externs, pc) is NeedExtern,
    ensures
        externs.len() * 8 + pc < bytecode.len() * 4,
{
    lemma_analyze_from_asks_boundedly(bytecode, externs, AnalysisState::start(pc), pc);
}

/// Whether an op ends a block.
pub open spec fn is_terminator(op: StackOpModel) -> bool {
    op is Jump || op is JumpIndirect || op is Return
}

/// The ops laid out inside a block, before the one that ends it: none ends
/// a block, every `Push` pushes something and every `Pop` drops something.
pub open spec fn body_ops_wf(ops: Seq<StackOpModel>) -> bool {
    forall|i: int|
        0 <= i < ops.len() ==> {
            &&& !is_terminator(#[trigger] ops[i])
            &&& (ops[i] matches StackOpModel::Push(items) ==> items.len() > 0)
            &&& (ops[i] matches StackOpModel::Pop(count) ==> count > 0)
        }
}

/// The shape of an analysed block: ops that do not end it, then exactly one
/// op that does.
pub open spec fn block_wf(ops: Seq<StackOpModel>) -> bool {
    &&& ops.len() > 0
    &&& is_terminator(ops.last())
    &&& body_ops_wf(ops.drop_last())
}

proof fn lemma_wf_push(ops: Seq<StackOpModel>, op: StackOpModel)
    requires
        body_ops_wf(ops),
        !is_terminator(op),
        op matches StackOpModel::Push(items) ==> items.len() > 0,
        op matches StackOpModel::Pop(count) ==> count > 0,
    ensures
        body_ops_wf(ops.push(op)),
{
    assert forall|i: int| 0 <= i < ops.push(op).len() implies {
        &&& !is_terminator(#[trigger] ops.push(op)[i])
        &&& (ops.push(op)[i] matches StackOpModel::Push(items) ==> items.len() > 0)
        &&& (ops.push(op)[i] matches StackOpModel::Pop(count) ==> count > 0)
    } by {
        if i < ops.len() {
            assert(ops.push(op)[i] == ops[i]);
        }
    }
}

proof fn lemma_step_keeps_wf(bytecode: Seq<u32>, externs: Seq<ExternInfo>, s: AnalysisState)
    requires
        body_ops_wf(s.ops),
    ensures
        analysis_step(bytecode, externs, s) matches Step::Next(t) ==> body_ops_wf(t.ops),
        analysis_step(bytecode, externs, s) matches Step::Stop(t, op) ==> body_ops_wf(
            t.flushed().ops,
        ) && is_terminator(op),
{
    let f = s.flushed();
    if s.stack.len() != 0 {
        lemma_wf_push(s.ops, StackOpModel::Push(s.stack));
    }
    assert(body_ops_wf(f.ops));
    let i: int = (s.pc / 4) as int;
    if i < bytecode.len() {
        let opcode = bytecode[i];
        match OpCode::spec_from_u32(opcode) {
            Some(OpCode::Pop) => {
                if s.stack.len() == 0 {
                    if s.ops.len() > 0 && s.ops.last() is Pop {
                        let n = s.ops.len() - 1;
                        let count = s.ops.last()->Pop_0;
                        let u = s.ops.update(n, StackOpModel::Pop(count + 1));
                        assert forall|j: int| 0 <= j < u.len() implies {
                            &&& !is_terminator(#[trigger] u[j])
                            &&& (u[j] matches StackOpModel::Push(items) ==> items.len() > 0)
                            &&& (u[j] matches StackOpModel::Pop(c) ==> c > 0)
                        } by {
                            if j != n {
                                assert(u[j] == s.ops[j]);
                            }
                        }
                    } else {
                        lemma_wf_push(s.ops, StackOpModel::Pop(1));
                    }
                }
            },
            Some(OpCode::JumpIfFalse) => {
                if let Some(destination) = word(bytecode, i + 1) {
                    lemma_wf_push(f.ops, StackOpModel::JumpIfFalse { destination, arg: None });
                }
            },
            Some(OpCode::Extern) => {
                if let Some(heap_slot) = word(bytecode, i + 1) {
                    if s.used < externs.len() {
                        let info = externs[s.used as int];
                        let count = info.parameter_count;
                        if s.stack.len() >= count {
                            let at = s.stack.len() - count;
                            lemma_wf_push(
                                s.ops,
                                StackOpModel::Extern {
                                    callback: info.callback,
                                    target: info.target,
                                    heap_slot,
                                    args: ExternArgsModel::Complete(
                                        s.stack.subrange(at, s.stack.len() as int),
                                    ),
                                },
                            );
                        } else {
                            lemma_wf_push(
                                f.ops,
                                StackOpModel::Extern {
                                    callback: info.callback,
                                    target: info.target,
                                    heap_slot,
                                    args: ExternArgsModel::Incomplete(count),
                                },
                            );
                        }
                    }
                }
            },
            Some(OpCode::Copy) => {
                if s.stack.len() >= 2 {
                    let n = s.stack.len();
                    lemma_wf_push(
                        s.ops,
                        StackOpModel::CopyComplete { src: s.stack[n - 2], dst: s.stack[n - 1] },
                    );
                } else {
                    lemma_wf_push(f.ops, StackOpModel::CopyIncomplete);
                }
            },
            _ => {},
        }
    }
    if let Step::Stop(t, op) = analysis_step(bytecode, externs, s) {
        if t.stack.len() != 0 {
            lemma_wf_push(t.ops, StackOpModel::Push(t.stack));
        }
    }
}

proof fn lemma_analyze_from_wf(bytecode: Seq<u32>, externs: Seq<ExternInfo>, s: AnalysisState)
    requires
        body_ops_wf(s.ops),
    ensures
        analyze_from(bytecode, externs, s) matches AnalysisModel::Block(ops, _) ==> block_wf(ops),
    decreases bytecode.len() + 2 - s.pc / 4,
{
    lemma_step_advances(bytecode, externs, s);
    lemma_step_keeps_wf(bytecode, externs, s);
    match analysis_step(bytecode, externs, s) {
        Step::Next(t) => {
            lemma_analyze_from_wf(bytecode, externs, t);
        },
        Step::Stop(t, op) => {
            let g = t.flushed();
            assert(g.ops.push(op).drop_last() =~= g.ops);
        },
        _ => {},
    }
}

/// Every analysed block ends with exactly one jump, indirect jump or
/// return, as its last op, and lays out no empty `Push` and no `Pop` of
/// nothing.
pub proof fn lemma_block_wf(bytecode: Seq<u32>, externs: Seq<ExternInfo>, pc: nat)
    ensures
        analyze_block(bytecode, externs, pc) matches AnalysisModel::Block(ops, _) ==> block_wf(ops),
{
    lemma_analyze_from_wf(bytecode, externs, AnalysisState::start(pc));
}

} // verus!
