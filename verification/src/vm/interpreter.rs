use rustc_hash::FxHashMap;
use vstd::prelude::*;

use super::analysis::word;
use super::{OpCode, decode_bytecode, decode_words};
use crate::fx_map::{fx_map_get, fx_map_insert, fx_map_new};

verus! {

/// An extern that the host resolved once: the address of the function, the
/// address of the object it is bound to and its parameter count as the host
/// reported it. Later calls of the same heap slot use it without asking.
#[derive(Debug, Clone, Copy, PartialEq, Eq, Structural)]
pub struct CachedCall {
    pub callback: usize,
    pub target: usize,
    pub parameter_count: i32,
}

/// What the interpreter waits for from the host before it can finish the
/// current instruction.
#[derive(Debug, Clone, Copy, PartialEq, Eq, Structural)]
pub enum Pending {
    /// Nothing: the next call is `step`.
    Idle,
    /// The boolean of a `JumpIfFalse`, which jumps to `target` when false.
    Condition { target: u32 },
    /// The program counter of a `JumpIndirect`.
    JumpTarget,
    /// The end of a `Copy`.
    Copy,
    /// The host's resolution of the extern named in heap slot `slot`.
    Extern { slot: u32 },
    /// The end of an extern call whose arguments start at `start` on the
    /// stack.
    Invoke { start: usize },
}

/// What a step of the interpreter asks of the host.
#[derive(Debug, Clone, Copy, PartialEq, Eq, Structural)]
pub enum Request {
    /// Nothing: step again.
    Continue,
    /// The program counter left the bytecode: the program ran to its end.
    Finished,
    /// The bytecode is malformed here (a missing argument, an empty stack,
    /// an extern that was never resolved): the run fails.
    Failed,
    /// The bytecode holds a word that is no instruction: the run fails.
    UnknownOpcode(u32),
    /// Read the boolean in this heap slot and hand it to `resume_condition`.
    ReadBool { slot: u32 },
    /// Read the `u32` in this heap slot and hand it to `resume_jump`.
    ReadU32 { slot: u32 },
    /// Copy heap slot `src` into heap slot `dst`, then call `resume_copy`.
    CopyVariables { src: u32, dst: u32 },
    /// Resolve the extern whose signature is in this heap slot and hand the
    /// answer to `resume_extern`.
    ResolveExtern { slot: u32 },
    /// Call the extern at `callback` bound to `target` with the stack items
    /// from `start` on as its arguments, then call `resume_invoke`.
    Invoke { callback: usize, target: usize, start: usize },
    /// The extern takes more arguments than the stack holds (a negative count
    /// counts as more): the subtraction that finds its first argument
    /// underflows. This is an error value: the host is to abort the run
    /// here, as nothing sensible can be passed to the callee. No other step
    /// reports it.
    ArgumentUnderflow,
}

/// The state of the interpreter: program counter (in bytes), VM stack of
/// heap slots, bytecode (rewritten as externs get resolved), resolved
/// externs by heap slot, and what the host is waited for.
#[verifier::ext_equal]
pub struct InterpModel {
    pub pc: nat,
    pub stack: Seq<u32>,
    pub bytecode: Seq<u32>,
    pub cache: Map<u32, CachedCall>,
    pub pending: Pending,
}

/// A bytecode interpreter for an Udon program, run one instruction at a
/// time; the host performs the heap reads, copies and extern calls that
/// the steps ask for.
pub struct InterpreterState {
    pc: usize,
    stack: Vec<u32>,
    bytecode: Vec<u32>,
    extern_cache: FxHashMap<u32, CachedCall>,
    pending: Pending,
}

impl View for InterpreterState {
    type V = InterpModel;

    closed spec fn view(&self) -> InterpModel {
        InterpModel {
            pc: self.pc as nat,
            stack: self.stack@,
            bytecode: self.bytecode@,
            cache: self.extern_cache@,
            pending: self.pending,
        }
    }
}

/// The effect of calling a resolved extern: its arguments are the top
/// `parameter_count` items of the stack.
pub open spec fn invoke(m: InterpModel, call: CachedCall) -> (InterpModel, Request) {
    let count = call.parameter_count as usize;
    if count > m.stack.len() {
        (InterpModel { pending: Pending::Idle, ..m }, Request::ArgumentUnderflow)
    } else {
        let start = (m.stack.len() - count) as usize;
        (
            InterpModel { pending: Pending::Invoke { start }, ..m },
            Request::Invoke { callback: call.callback, target: call.target, start },
        )
    }
}

/// Runs the instruction at the program counter as far as it goes without
/// the host.
pub open spec fn interp_step(m: InterpModel) -> (InterpModel, Request) {
    let i: int = (m.pc / 4) as int;
    if i >= m.bytecode.len() {
        (m, Request::Finished)
    } else {
        let opcode = m.bytecode[i];
        let arg = word(m.bytecode, i + 1);
        match OpCode::spec_from_u32(opcode) {
            Some(OpCode::Nop) => (InterpModel { pc: m.pc + 4, ..m }, Request::Continue),
            Some(OpCode::Annotation) => (InterpModel { pc: m.pc + 8, ..m }, Request::Continue),
            Some(OpCode::Push) => match arg {
                None => (m, Request::Failed),
                Some(slot) => (
                    InterpModel { pc: m.pc + 8, stack: m.stack.push(slot), ..m },
                    Request::Continue,
                ),
            },
            Some(OpCode::Pop) => (
                InterpModel {
                    pc: m.pc + 4,
                    stack: if m.stack.len() > 0 {
                        m.stack.drop_last()
                    } else {
                        m.stack
                    },
                    ..m
                },
                Request::Continue,
            ),
            Some(OpCode::JumpIfFalse) => match arg {
                None => (m, Request::Failed),
                Some(target) => if m.stack.len() == 0 {
                    (m, Request::Failed)
                } else {
                    (
                        InterpModel {
                            stack: m.stack.drop_last(),
                            pending: Pending::Condition { target },
                            ..m
                        },
                        Request::ReadBool { slot: m.stack.last() },
                    )
                },
            },
            Some(OpCode::Jump) => match arg {
                None => (m, Request::Failed),
                Some(target) => (InterpModel { pc: target as nat, ..m }, Request::Continue),
            },
            Some(OpCode::Extern) => match arg {
                None => (m, Request::Failed),
                Some(slot) => (
                    InterpModel { pending: Pending::Extern { slot }, ..m },
                    Request::ResolveExtern { slot },
                ),
            },
            Some(OpCode::JumpIndirect) => match arg {
                None => (m, Request::Failed),
                Some(slot) => (
                    InterpModel { pending: Pending::JumpTarget, ..m },
                    Request::ReadU32 { slot },
                ),
            },
            Some(OpCode::Copy) => {
                let n = m.stack.len();
                if n >= 2 {
                    (
                        InterpModel {
                            stack: m.stack.subrange(0, n - 2),
                            pending: Pending::Copy,
                            ..m
                        },
                        Request::CopyVariables { src: m.stack[n - 2], dst: m.stack[n - 1] },
                    )
                } else if n == 1 {
                    (InterpModel { stack: m.stack.drop_last(), ..m }, Request::Failed)
                } else {
                    (m, Request::Failed)
                }
            },
            Some(OpCode::CachedExtern) => match arg {
                None => (m, Request::Failed),
                Some(slot) => if m.cache.contains_key(slot) {
                    invoke(m, m.cache[slot])
                } else {
                    (m, Request::Failed)
                },
            },
            None => (m, Request::UnknownOpcode(opcode)),
        }
    }
}

/// Finishes a `JumpIfFalse` with the boolean read from the heap.
pub open spec fn after_condition(m: InterpModel, value: bool) -> InterpModel {
    let target = m.pending->Condition_target;
    InterpModel {
        pc: if value {
            m.pc + 8
        } else {
            target as nat
        },
        pending: Pending::Idle,
        ..m
    }
}

/// Finishes a `JumpIndirect` with the program counter read from the heap.
pub open spec fn after_jump(m: InterpModel, target: u32) -> InterpModel {
    InterpModel { pc: target as nat, pending: Pending::Idle, ..m }
}

/// Finishes a `Copy`.
pub open spec fn after_copy(m: InterpModel) -> InterpModel {
    InterpModel { pc: m.pc + 4, pending: Pending::Idle, ..m }
}

/// Records the host's resolution of an extern, rewrites the instruction as
/// a `CachedExtern`, and calls it.
pub open spec fn after_extern(m: InterpModel, call: CachedCall) -> (InterpModel, Request) {
    let slot = m.pending->Extern_slot;
    invoke(
        InterpModel {
            cache: m.cache.insert(slot, call),
            bytecode: m.bytecode.update((m.pc / 4) as int, OpCode::CachedExtern.spec_code()),
            ..m
        },
        call,
    )
}

/// Finishes an extern call: its arguments leave the stack.
pub open spec fn after_invoke(m: InterpModel) -> InterpModel {
    let start = m.pending->Invoke_start;
    InterpModel {
        pc: m.pc + 8,
        stack: m.stack.subrange(0, start as int),
        pending: Pending::Idle,
        ..m
    }
}

/// A pending extern belongs to the `Extern` instruction at the program
/// counter, whose operand word names its heap slot.
pub open spec fn extern_pending_ok(m: InterpModel) -> bool {
    m.pending matches Pending::Extern { slot } ==> {
        let i = (m.pc / 4) as int;
        &&& i + 1 < m.bytecode.len()
        &&& m.bytecode[i] == OpCode::Extern.spec_code()
        &&& m.bytecode[i + 1] == slot
    }
}

/// How the program in `after` may differ from that in `before`: it has as
/// many words; each word that changed was an `Extern` and is now a
/// `CachedExtern`, with its operand word after it, and the heap slot that
/// operand names is resolved (unless the operand word was itself rewritten);
/// no resolved extern is forgotten.
pub open spec fn rewrites_only_externs(before: InterpModel, after: InterpModel) -> bool {
    &&& after.bytecode.len() == before.bytecode.len()
    &&& forall|k: u32| before.cache.contains_key(k) ==> #[trigger] after.cache.contains_key(k)
    &&& forall|i: int|
        0 <= i < before.bytecode.len() && #[trigger] after.bytecode[i] != before.bytecode[i] ==> {
            &&& before.bytecode[i] == OpCode::Extern.spec_code()
            &&& after.bytecode[i] == OpCode::CachedExtern.spec_code()
            &&& i + 1 < before.bytecode.len()
            &&& (after.bytecode[i + 1] == before.bytecode[i + 1] ==> after.cache.contains_key(
                before.bytecode[i + 1],
            ))
        }
}

/// The program is only ever rewritten from `Extern` to `CachedExtern`: this
/// holds between any two states of a run, as it holds of each step (below)
/// and composes.
pub proof fn lemma_rewrites_compose(a: InterpModel, b: InterpModel, c: InterpModel)
    requires
        rewrites_only_externs(a, b),
        rewrites_only_externs(b, c),
    ensures
        rewrites_only_externs(a, c),
{
    assert forall|i: int|
        0 <= i < a.bytecode.len() && #[trigger] c.bytecode[i] != a.bytecode[i] implies {
            &&& a.bytecode[i] == OpCode::Extern.spec_code()
            &&& c.bytecode[i] == OpCode::CachedExtern.spec_code()
            &&& i + 1 < a.bytecode.len()
            &&& (c.bytecode[i + 1] == a.bytecode[i + 1] ==> c.cache.contains_key(a.bytecode[i + 1]))
        } by {
        if b.bytecode[i] != a.bytecode[i] {
            if c.bytecode[i + 1] == a.bytecode[i + 1] {
                if b.bytecode[i + 1] != a.bytecode[i + 1] {
                    assert(c.bytecode[i + 1] != b.bytecode[i + 1]);
                }
                assert(b.cache.contains_key(a.bytecode[i + 1]));
            }
        } else {
            assert(c.bytecode[i] != b.bytecode[i]);
            if c.bytecode[i + 1] == a.bytecode[i + 1] {
                if b.bytecode[i + 1] != a.bytecode[i + 1] {
                    assert(c.bytecode[i + 1] != b.bytecode[i + 1]);
                }
            }
        }
    }
}

/// Each step of the interpreter rewrites at most an `Extern` into a
/// `CachedExtern`: the step itself and the ends of the host's answers
/// change no word, and taking the resolution of a pending extern rewrites
/// only its instruction, after caching the heap slot its operand names.
pub proof fn lemma_steps_rewrite_only_externs(m: InterpModel, value: bool, target: u32, call: CachedCall)
    requires
        extern_pending_ok(m),
    ensures
        rewrites_only_externs(m, interp_step(m).0),
        rewrites_only_externs(m, after_condition(m, value)),
        rewrites_only_externs(m, after_jump(m, target)),
        rewrites_only_externs(m, after_copy(m)),
        rewrites_only_externs(m, after_invoke(m)),
        m.pending is Extern ==> rewrites_only_externs(m, after_extern(m, call).0),
{
    if m.pending is Extern {
        let i = (m.pc / 4) as int;
        let b = after_extern(m, call).0;
        assert(b.bytecode == m.bytecode.update(i, OpCode::CachedExtern.spec_code()));
        assert(b.cache == m.cache.insert(m.pending->Extern_slot, call));
        assert forall|j: int|
            0 <= j < m.bytecode.len() && #[trigger] b.bytecode[j] != m.bytecode[j] implies j == i by {}
    }
}

impl InterpreterState {
    /// The bytecode is small enough that stepping past any word stays in
    /// range, and a pending request belongs to an instruction inside it.
    pub closed spec fn wf(&self) -> bool {
        &&& self.bytecode@.len() * 4 + 8 <= usize::MAX
        &&& self.pending !is Idle ==> self.pc / 4 < self.bytecode@.len()
        &&& self.pending matches Pending::Invoke { start } ==> start <= self.stack@.len()
        &&& extern_pending_ok(self@)
    }

    /// Loads a program from its bytecode: four bytes big-endian per word.
    /// `None` when the byte count is not a multiple of four.
    pub fn new(bytes: &[u8]) -> (r: Option<Self>)
        requires
            bytes@.len() + 8 <= usize::MAX,
        ensures
            r is None <==> bytes@.len() % 4 != 0,
            r matches Some(state) ==> state.wf(),
            r matches Some(state) ==> state@ == (InterpModel {
                pc: 0,
                stack: Seq::empty(),
                bytecode: decode_words(bytes@),
                cache: Map::empty(),
                pending: Pending::Idle,
            }),
    {
        if bytes.len() % 4 != 0 {
            return None;
        }
        let bytecode = decode_bytecode(bytes);
        let state = InterpreterState {
            pc: 0,
            stack: Vec::with_capacity(1024),
            bytecode,
            extern_cache: fx_map_new(),
            pending: Pending::Idle,
        };
        assert(state@ =~= InterpModel {
            pc: 0,
            stack: Seq::empty(),
            bytecode: decode_words(bytes@),
            cache: Map::empty(),
            pending: Pending::Idle,
        });
        Some(state)
    }

    /// The program counter, in bytes.
    pub fn pc(&self) -> (r: usize)
        ensures
            r == self@.pc,
    {
        self.pc
    }

    /// The program, with each resolved `Extern` rewritten as a
    /// `CachedExtern`.
    pub fn bytecode(&self) -> (r: &Vec<u32>)
        ensures
            r@ == self@.bytecode,
    {
        &self.bytecode
    }

    /// The VM stack of heap slots.
    pub fn stack(&self) -> (r: &Vec<u32>)
        ensures
            r@ == self@.stack,
    {
        &self.stack
    }

    /// Sets the program counter, if it is word-aligned and inside the
    /// bytecode; the run then starts over from there, so whatever the host
    /// was waited for is dropped.
    pub fn set_pc(&mut self, pc: usize) -> (r: Option<()>)
        requires
            old(self).wf(),
        ensures
            final(self).wf(),
            r is Some <==> pc % 4 == 0 && pc / 4 < old(self)@.bytecode.len(),
            r is Some ==> final(self)@ == (InterpModel { pc: pc as nat, pending: Pending::Idle, ..old(self)@ }),
            r is None ==> final(self)@ == old(self)@,
            rewrites_only_externs(old(self)@, final(self)@),
    {
        if pc % 4 != 0 || pc / 4 >= self.bytecode.len() {
            return None;
        }
        self.pending = Pending::Idle;
        self.pc = pc;
        assert(self@ =~= InterpModel { pc: pc as nat, pending: Pending::Idle, ..old(self)@ });
        Some(())
    }

    /// Starts a call of a resolved extern, or reports that the stack holds
    /// fewer items than it takes.
    fn start_invoke(&mut self, call: CachedCall) -> (r: Request)
        requires
            old(self).wf(),
            old(self).pc / 4 < old(self).bytecode@.len(),
        ensures
            final(self).wf(),
            (final(self)@, r) == invoke(old(self)@, call),
    {
        let count = call.parameter_count as usize;
        if count > self.stack.len() {
            self.pending = Pending::Idle;
            assert(self@ =~= InterpModel { pending: Pending::Idle, ..old(self)@ });
            return Request::ArgumentUnderflow;
        }
        let start = self.stack.len() - count;
        self.pending = Pending::Invoke { start };
        assert(self@ =~= InterpModel { pending: Pending::Invoke { start }, ..old(self)@ });
        Request::Invoke { callback: call.callback, target: call.target, start }
    }

    /// Runs the instruction at the program counter as far as it goes without
    /// the host, and says what the host has to do next.
    #[verifier::rlimit(40)]
    pub fn step(&mut self) -> (r: Request)
        requires
            old(self).wf(),
            old(self)@.pending == Pending::Idle,
        ensures
            final(self).wf(),
            (final(self)@, r) == interp_step(old(self)@),
            rewrites_only_externs(old(self)@, final(self)@),
    {
        let ghost m = self@;
        proof {
            lemma_steps_rewrite_only_externs(m, arbitrary(), arbitrary(), arbitrary());
        }
        let i = self.pc / 4;
        if i >= self.bytecode.len() {
            return Request::Finished;
        }
        let opcode = self.bytecode[i];
        let arg = if i + 1 < self.bytecode.len() {
            Some(self.bytecode[i + 1])
        } else {
            None
        };
        assert(arg == word(m.bytecode, i + 1));
        match OpCode::from_u32(opcode) {
            Some(OpCode::Nop) => {
                self.pc = self.pc + 4;
                assert(self@ =~= InterpModel { pc: m.pc + 4, ..m });
                Request::Continue
            },
            Some(OpCode::Annotation) => {
                self.pc = self.pc + 8;
                assert(self@ =~= InterpModel { pc: m.pc + 8, ..m });
                Request::Continue
            },
            Some(OpCode::Push) => match arg {
                None => Request::Failed,
                Some(slot) => {
                    self.stack.push(slot);
                    self.pc = self.pc + 8;
                    assert(self@ =~= InterpModel { pc: m.pc + 8, stack: m.stack.push(slot), ..m });
                    Request::Continue
                },
            },
            Some(OpCode::Pop) => {
                self.stack.pop();
                self.pc = self.pc + 4;
                assert(self@ =~= InterpModel {
                    pc: m.pc + 4,
                    stack: if m.stack.len() > 0 {
                        m.stack.drop_last()
                    } else {
                        m.stack
                    },
                    ..m
                });
                Request::Continue
            },
            Some(OpCode::JumpIfFalse) => match arg {
                None => Request::Failed,
                Some(target) => match self.stack.pop() {
                    None => Request::Failed,
                    Some(slot) => {
                        self.pending = Pending::Condition { target };
                        assert(self@ =~= InterpModel {
                            stack: m.stack.drop_last(),
                            pending: Pending::Condition { target },
                            ..m
                        });
                        Request::ReadBool { slot }
                    },
                },
            },
            Some(OpCode::Jump) => match arg {
                None => Request::Failed,
                Some(target) => {
                    self.pc = target as usize;
                    assert(self@ =~= InterpModel { pc: target as nat, ..m });
                    Request::Continue
                },
            },
            Some(OpCode::Extern) => match arg {
                None => Request::Failed,
                Some(slot) => {
                    self.pending = Pending::Extern { slot };
                    assert(self@ =~= InterpModel { pending: Pending::Extern { slot }, ..m });
                    Request::ResolveExtern { slot }
                },
            },
            Some(OpCode::JumpIndirect) => match arg {
                None => Request::Failed,
                Some(slot) => {
                    self.pending = Pending::JumpTarget;
                    assert(self@ =~= InterpModel { pending: Pending::JumpTarget, ..m });
                    Request::ReadU32 { slot }
                },
            },
            Some(OpCode::Copy) => {
                let dst = match self.stack.pop() {
                    Some(dst) => dst,
                    None => return Request::Failed,
                };
                let src = match self.stack.pop() {
                    Some(src) => src,
                    None => {
                        assert(self@ =~= InterpModel { stack: m.stack.drop_last(), ..m });
                        return Request::Failed;
                    },
                };
                self.pending = Pending::Copy;
                assert(self@ =~= InterpModel {
                    stack: m.stack.subrange(0, m.stack.len() - 2),
                    pending: Pending::Copy,
                    ..m
                });
                Request::CopyVariables { src, dst }
            },
            Some(OpCode::CachedExtern) => match arg {
                None => Request::Failed,
                Some(slot) => match fx_map_get(&self.extern_cache, slot) {
                    None => Request::Failed,
                    Some(call) => {
                        let call = *call;
                        self.start_invoke(call)
                    },
                },
            },
            None => Request::UnknownOpcode(opcode),
        }
    }

    /// Finishes a `JumpIfFalse` with the boolean that the host read.
    pub fn resume_condition(&mut self, value: bool)
        requires
            old(self).wf(),
            old(self)@.pending is Condition,
        ensures
            final(self).wf(),
            final(self)@ == after_condition(old(self)@, value),
            rewrites_only_externs(old(self)@, final(self)@),
    {
        proof {
            lemma_steps_rewrite_only_externs(old(self)@, value, arbitrary(), arbitrary());
        }
        let target = match self.pending {
            Pending::Condition { target } => target,
            _ => 0,
        };
        if value {
            self.pc = self.pc + 8;
        } else {
            self.pc = target as usize;
        }
        self.pending = Pending::Idle;
        assert(self@ =~= after_condition(old(self)@, value));
    }

    /// Finishes a `JumpIndirect` with the program counter that the host read.
    pub fn resume_jump(&mut self, target: u32)
        requires
            old(self).wf(),
            old(self)@.pending is JumpTarget,
        ensures
            final(self).wf(),
            final(self)@ == after_jump(old(self)@, target),
            rewrites_only_externs(old(self)@, final(self)@),
    {
        proof {
            lemma_steps_rewrite_only_externs(old(self)@, arbitrary(), target, arbitrary());
        }
        self.pending = Pending::Idle;
        self.pc = target as usize;
        assert(self@ =~= after_jump(old(self)@, target));
    }

    /// Finishes a `Copy` once the host copied the slots.
    pub fn resume_copy(&mut self)
        requires
            old(self).wf(),
            old(self)@.pending is Copy,
        ensures
            final(self).wf(),
            final(self)@ == after_copy(old(self)@),
            rewrites_only_externs(old(self)@, final(self)@),
    {
        proof {
            lemma_steps_rewrite_only_externs(old(self)@, arbitrary(), arbitrary(), arbitrary());
        }
        self.pc = self.pc + 4;
        self.pending = Pending::Idle;
        assert(self@ =~= after_copy(old(self)@));
    }

    /// Takes the host's resolution of an extern: caches it by heap slot,
    /// rewrites the instruction as a `CachedExtern` so that later runs skip
    /// the host, and starts the call.
    pub fn resume_extern(&mut self, call: CachedCall) -> (r: Request)
        requires
            old(self).wf(),
            old(self)@.pending is Extern,
        ensures
            final(self).wf(),
            (final(self)@, r) == after_extern(old(self)@, call),
            rewrites_only_externs(old(self)@, final(self)@),
    {
        proof {
            lemma_steps_rewrite_only_externs(old(self)@, arbitrary(), arbitrary(), call);
        }
        let slot = match self.pending {
            Pending::Extern { slot } => slot,
            _ => 0,
        };
        fx_map_insert(&mut self.extern_cache, slot, call);
        let i = self.pc / 4;
        self.bytecode.set(i, OpCode::CachedExtern.code());
        self.pending = Pending::Idle;
        let ghost rewritten = InterpModel {
            cache: old(self)@.cache.insert(slot, call),
            bytecode: old(self)@.bytecode.update(i as int, OpCode::CachedExtern.spec_code()),
            ..old(self)@
        };
        assert(self@ =~= InterpModel { pending: Pending::Idle, ..rewritten });
        assert(invoke(self@, call) == invoke(rewritten, call));
        self.start_invoke(call)
    }

    /// Finishes an extern call once the host made it: the arguments leave the
    /// stack.
    pub fn resume_invoke(&mut self)
        requires
            old(self).wf(),
            old(self)@.pending is Invoke,
        ensures
            final(self).wf(),
            final(self)@ == after_invoke(old(self)@),
            rewrites_only_externs(old(self)@, final(self)@),
    {
        proof {
            lemma_steps_rewrite_only_externs(old(self)@, arbitrary(), arbitrary(), arbitrary());
        }
        let start = match self.pending {
            Pending::Invoke { start } => start,
            _ => 0,
        };
        self.stack.truncate(start);
        self.pc = self.pc + 8;
        self.pending = Pending::Idle;
        assert(self@ =~= after_invoke(old(self)@));
    }
}

} // verus!

verus! {

/// An extern is asked of the host once per instruction: after the step at
/// an `Extern` asks for it, the host's answer is handed in and the call
/// finishes, coming back to the same program counter (with any stack) calls
/// the cached answer straight away, without asking the host again.
pub proof fn lemma_resolved_extern_is_reused(m: InterpModel, call: CachedCall, stack: Seq<u32>)
    requires
        m.pending == Pending::Idle,
        m.pc / 4 < m.bytecode.len(),
        m.bytecode[(m.pc / 4) as int] == OpCode::Extern.spec_code(),
        word(m.bytecode, (m.pc / 4) as int + 1) is Some,
        (call.parameter_count as usize) <= m.stack.len(),
    ensures
        ({
            let m1 = interp_step(m).0;
            let m2 = after_extern(m1, call).0;
            let m3 = after_invoke(m2);
            let later = InterpModel { pc: m.pc, stack, ..m3 };
            &&& interp_step(m).1 == Request::ResolveExtern {
                slot: word(m.bytecode, (m.pc / 4) as int + 1)->0,
            }
            &&& after_extern(m1, call).1 is Invoke
            &&& interp_step(later) == invoke(later, call)
        }),
{
    let i = (m.pc / 4) as int;
    let slot = word(m.bytecode, i + 1)->0;
    let m1 = interp_step(m).0;
    let m2 = after_extern(m1, call).0;
    let m3 = after_invoke(m2);
    let later = InterpModel { pc: m.pc, stack, ..m3 };
    assert(m2.bytecode[i + 1] == m.bytecode[i + 1]);
    assert(word(later.bytecode, i + 1) == Some(slot));
    assert(later.cache.contains_key(slot));
}

/// Running an `Extern` whose resolution the host answers with `call`, and
/// running a `CachedExtern` with the same operand whose heap slot is cached
/// as `call`, ask the host for the same call (or report the same argument
/// underflow) and leave the same stack and program counter once the call
/// is done: rewriting an `Extern` into a `CachedExtern` is invisible to the
/// program.
pub proof fn lemma_cached_extern_acts_as_extern(m: InterpModel, call: CachedCall)
    requires
        m.pending == Pending::Idle,
        m.pc / 4 < m.bytecode.len(),
        word(m.bytecode, (m.pc / 4) as int + 1) is Some,
    ensures
        ({
            let i = (m.pc / 4) as int;
            let slot = word(m.bytecode, i + 1)->0;
            let count = call.parameter_count as usize;
            let start = (m.stack.len() - count) as usize;
            let asked = if count <= m.stack.len() {
                Request::Invoke { callback: call.callback, target: call.target, start }
            } else {
                Request::ArgumentUnderflow
            };
            &&& m.bytecode[i] == OpCode::Extern.spec_code() ==> {
                let resolved = after_extern(interp_step(m).0, call);
                &&& interp_step(m).1 == Request::ResolveExtern { slot }
                &&& resolved.1 == asked
                &&& count <= m.stack.len() ==> {
                    &&& after_invoke(resolved.0).pc == m.pc + 8
                    &&& after_invoke(resolved.0).stack == m.stack.subrange(0, start as int)
                }
            }
            &&& (m.bytecode[i] == OpCode::CachedExtern.spec_code() && m.cache.contains_key(slot)
                && m.cache[slot] == call) ==> {
                &&& interp_step(m).1 == asked
                &&& count <= m.stack.len() ==> {
                    &&& after_invoke(interp_step(m).0).pc == m.pc + 8
                    &&& after_invoke(interp_step(m).0).stack == m.stack.subrange(0, start as int)
                }
            }
        }),
{
}

/// A `Jump` goes to its operand, wherever it lies: before the instruction
/// (a loop's back edge), at it, or after it. Nothing else changes and the
/// host is asked for nothing.
pub proof fn lemma_jump_goes_to_its_target(m: InterpModel, target: u32)
    requires
        m.pending == Pending::Idle,
        m.pc / 4 + 1 < m.bytecode.len(),
        m.bytecode[(m.pc / 4) as int] == OpCode::Jump.spec_code(),
        m.bytecode[(m.pc / 4) as int + 1] == target,
    ensures
        interp_step(m).1 == Request::Continue,
        interp_step(m).0.pc == target as nat,
        interp_step(m).0.stack == m.stack,
        interp_step(m).0.bytecode == m.bytecode,
        interp_step(m).0.cache == m.cache,
        interp_step(m).0.pending == Pending::Idle,
{
}

/// A `JumpIfFalse` with operand `target` pops the condition's heap slot and
/// asks for the boolean in it; a `false` then goes to `target`, wherever it
/// lies, and a `true` goes on to the next instruction, 8 bytes on.
pub proof fn lemma_jump_if_false_goes_to_its_target(m: InterpModel, target: u32, value: bool)
    requires
        m.pending == Pending::Idle,
        m.pc / 4 + 1 < m.bytecode.len(),
        m.bytecode[(m.pc / 4) as int] == OpCode::JumpIfFalse.spec_code(),
        m.bytecode[(m.pc / 4) as int + 1] == target,
        m.stack.len() > 0,
    ensures
        interp_step(m).1 == (Request::ReadBool { slot: m.stack.last() }),
        interp_step(m).0.stack == m.stack.drop_last(),
        value ==> after_condition(interp_step(m).0, value).pc == m.pc + 8,
        !value ==> after_condition(interp_step(m).0, value).pc == target as nat,
        after_condition(interp_step(m).0, value).pending == Pending::Idle,
        after_condition(interp_step(m).0, value).stack == m.stack.drop_last(),
{
}

/// What each instruction that needs no branch does, for every operand and
/// every stack: `Nop` moves on 4 bytes and `Annotation` 8; `Push` puts its
/// operand on the stack; `Pop` drops the top item (an empty stack stays
/// empty); `Copy` pops the destination and the source and asks for the
/// copy, then moves on 4 bytes; `Extern` asks for its operand's resolution;
/// `JumpIndirect` asks for the `u32` in its operand's slot and goes where it
/// says; a word that names no instruction stops the run; past the last word
/// the run is finished. Each leaves the program and the resolved externs as
/// they were.
pub proof fn lemma_each_instruction(m: InterpModel, target: u32)
    requires
        m.pending == Pending::Idle,
    ensures
        ({
            let i = (m.pc / 4) as int;
            let (n, r) = interp_step(m);
            &&& n.bytecode == m.bytecode
            &&& n.cache == m.cache
            &&& i >= m.bytecode.len() ==> r == Request::Finished && n == m
            &&& i < m.bytecode.len() ==> {
                let op = m.bytecode[i];
                let has_arg = i + 1 < m.bytecode.len();
                let arg = m.bytecode[i + 1];
                &&& op == OpCode::Nop.spec_code() ==> r == Request::Continue && n.pc == m.pc + 4
                    && n.stack == m.stack
                &&& op == OpCode::Annotation.spec_code() ==> r == Request::Continue && n.pc == m.pc
                    + 8 && n.stack == m.stack
                &&& op == OpCode::Push.spec_code() && has_arg ==> r == Request::Continue && n.pc
                    == m.pc + 8 && n.stack == m.stack.push(arg)
                &&& op == OpCode::Pop.spec_code() ==> r == Request::Continue && n.pc == m.pc + 4
                    && n.stack == (if m.stack.len() > 0 {
                    m.stack.drop_last()
                } else {
                    m.stack
                })
                &&& op == OpCode::Copy.spec_code() && m.stack.len() >= 2 ==> {
                    let k = m.stack.len() - 2;
                    &&& r == (Request::CopyVariables { src: m.stack[k], dst: m.stack[k + 1] })
                    &&& n.stack == m.stack.subrange(0, k)
                    &&& after_copy(n).pc == m.pc + 4
                    &&& after_copy(n).pending == Pending::Idle
                }
                &&& op == OpCode::Extern.spec_code() && has_arg ==> r == (Request::ResolveExtern {
                    slot: arg,
                }) && n.stack == m.stack
                &&& op == OpCode::JumpIndirect.spec_code() && has_arg ==> {
                    &&& r == (Request::ReadU32 { slot: arg })
                    &&& after_jump(n, target).pc == target as nat
                    &&& after_jump(n, target).stack == m.stack
                    &&& after_jump(n, target).pending == Pending::Idle
                }
                &&& OpCode::spec_from_u32(op) is None ==> r == (Request::UnknownOpcode(op)) && n
                    == m
            }
        }),
{
}

/// Once the host made an extern call, its arguments (the items from
/// `start` on) leave the stack and the run goes on 8 bytes further.
pub proof fn lemma_invoke_drops_the_arguments(m: InterpModel, start: usize)
    requires
        m.pending == (Pending::Invoke { start }),
        start <= m.stack.len(),
    ensures
        after_invoke(m).stack == m.stack.subrange(0, start as int),
        after_invoke(m).stack + m.stack.subrange(start as int, m.stack.len() as int) == m.stack,
        after_invoke(m).pc == m.pc + 8,
        after_invoke(m).pending == Pending::Idle,
        after_invoke(m).bytecode == m.bytecode,
{
    assert(m.stack.subrange(0, start as int) + m.stack.subrange(start as int, m.stack.len() as int)
        =~= m.stack);
}

} // verus!
