use vstd::prelude::*;

use super::analysis::{
    ExternArgs, ExternArgsModel, ReturnCode, StackOpModel, StackOps, ops_model,
};
use super::semantics::{run_op, run_ops, Effect};

verus! {

/// One piece of machine code that the recompiler emits for a block. The
/// registers that the code works on hold the heap, the base of the VM
/// stack, the count of items on it, the argument span and the context.
#[derive(Debug, Clone, Copy, PartialEq, Eq, Structural)]
pub enum Instr {
    /// Leave with `code` unless at least `needed` items are on the VM stack.
    GuardStack { needed: u32, code: u64 },
    /// Grow the VM stack to hold `extra` items more than it holds.
    ReserveStack { extra: isize },
    /// Store `value` in the `offset`-th free cell above the top of the stack.
    StoreArg { offset: usize, value: u32 },
    /// Add to the count of items on the stack.
    AddStackCount(usize),
    /// Take from the count of items on the stack.
    SubStackCount(usize),
    /// Call the extern at `callback`, bound to `target`, with the top
    /// `count` items of the stack as its arguments.
    CallExtern { count: usize, target: usize, callback: usize },
    /// Take the branch condition from this heap slot.
    LoadConditionSlot(u32),
    /// Pop the heap slot of the branch condition from the stack.
    PopCondition,
    /// Read the condition from the heap; jump to this program counter if it
    /// is false.
    BranchIfFalse(u32),
    /// Copy heap slot `src` into heap slot `dst`.
    CopyVariables { src: u32, dst: u32 },
    /// Pop two heap slots from the stack and copy the first into the second.
    CopyFromStack,
    /// Jump to the block at this program counter.
    JumpTo(u32),
    /// Leave with the program counter stored in this heap slot.
    JumpIndirect(u32),
    /// Leave with this encoded return code.
    ReturnWith(u64),
}

/// A length as the stack accounting reads it: cast to `isize`.
pub open spec fn items(n: nat) -> int {
    (n as isize) as int
}

/// How far an op raises the stack before it lowers it, if it does.
pub open spec fn op_raise(op: StackOpModel) -> Option<int> {
    match op {
        StackOpModel::Push(params) => Some(items(params.len())),
        StackOpModel::Extern { args: ExternArgsModel::Complete(params), .. } => Some(
            items(params.len()),
        ),
        _ => None,
    }
}

/// How much an op changes the number of items on the stack.
pub open spec fn op_net(op: StackOpModel) -> int {
    match op {
        StackOpModel::Push(params) => items(params.len()),
        StackOpModel::Pop(count) => -items(count),
        StackOpModel::Extern { args, .. } => match args {
            ExternArgsModel::Complete(params) => items(params.len()) - items(params.len()),
            ExternArgsModel::Incomplete(count) => -items(count as nat),
        },
        StackOpModel::JumpIfFalse { arg: None, .. } => -1,
        StackOpModel::CopyIncomplete => -2,
        _ => 0,
    }
}

/// The stack accounting of a block: the change in the number of items on
/// the stack after its ops, the lowest change reached (at most 0) and the
/// highest (at least 0).
pub struct StackWalk {
    pub cur: int,
    pub min: int,
    pub max: int,
}

pub open spec fn min_int(a: int, b: int) -> int {
    if a <= b {
        a
    } else {
        b
    }
}

pub open spec fn max_int(a: int, b: int) -> int {
    if a >= b {
        a
    } else {
        b
    }
}

pub open spec fn stack_walk(ops: Seq<StackOpModel>) -> StackWalk
    decreases ops.len(),
{
    if ops.len() == 0 {
        StackWalk { cur: 0, min: 0, max: 0 }
    } else {
        let w = stack_walk(ops.drop_last());
        let op = ops.last();
        let max = match op_raise(op) {
            Some(raise) => max_int(w.max, w.cur + raise),
            None => w.max,
        };
        let cur = w.cur + op_net(op);
        StackWalk { cur, min: min_int(w.min, cur), max }
    }
}

pub open spec fn in_isize(x: int) -> bool {
    isize::MIN <= x <= isize::MAX
}

/// Every count that the accounting reaches fits in an `isize`.
pub open spec fn walk_fits(ops: Seq<StackOpModel>) -> bool
    decreases ops.len(),
{
    if ops.len() == 0 {
        true
    } else {
        let w = stack_walk(ops.drop_last());
        let op = ops.last();
        &&& walk_fits(ops.drop_last())
        &&& (op_raise(op) matches Some(raise) ==> in_isize(w.cur + raise))
        &&& in_isize(w.cur + op_net(op))
    }
}

proof fn lemma_walk_bounds(ops: Seq<StackOpModel>)
    requires
        walk_fits(ops),
    ensures
        in_isize(stack_walk(ops).cur),
        in_isize(stack_walk(ops).min),
        in_isize(stack_walk(ops).max),
        stack_walk(ops).min <= 0 <= stack_walk(ops).max,
    decreases ops.len(),
{
    if ops.len() > 0 {
        lemma_walk_bounds(ops.drop_last());
    }
}

/// The lowest and the highest change in the number of items on the stack
/// that the ops of a block reach, when every count fits in an `isize`.
pub fn stack_bounds(ops: &[StackOps]) -> (r: Option<(isize, isize)>)
    ensures
        r is Some <==> walk_fits(ops_model(ops@)),
        r matches Some((lo, hi)) ==> lo == stack_walk(ops_model(ops@)).min && hi == stack_walk(
            ops_model(ops@),
        ).max,
{
    let ghost m = ops_model(ops@);
    let mut cur: i128 = 0;
    let mut lo: i128 = 0;
    let mut hi: i128 = 0;
    let mut i: usize = 0;
    assert(m.take(0) =~= Seq::<StackOpModel>::empty());
    while i < ops.len()
        invariant
            m == ops_model(ops@),
            0 <= i <= ops@.len(),
            walk_fits(m.take(i as int)),
            cur == stack_walk(m.take(i as int)).cur,
            lo == stack_walk(m.take(i as int)).min,
            hi == stack_walk(m.take(i as int)).max,
        decreases ops.len() - i,
    {
        proof {
            lemma_walk_bounds(m.take(i as int));
            assert(m.take(i + 1).drop_last() =~= m.take(i as int));
            assert(m.take(i + 1).last() == ops@[i as int]@);
        }
        let (raise, net): (Option<i128>, i128) = match &ops[i] {
            StackOps::Push(params) => {
                let n = params.len() as isize as i128;
                (Some(n), n)
            },
            StackOps::Pop(count) => (None, -(*count as isize as i128)),
            StackOps::Extern { args, .. } => match args {
                ExternArgs::Complete(params) => {
                    let n = params.len() as isize as i128;
                    (Some(n), n - n)
                },
                ExternArgs::Incomplete(count) => (None, -(*count as isize as i128)),
            },
            StackOps::JumpIfFalse { arg: None, .. } => (None, -1),
            StackOps::CopyIncomplete => (None, -2),
            _ => (None, 0),
        };
        assert(raise matches Some(x) ==> op_raise(m[i as int]) == Some(x as int));
        assert(raise is None ==> op_raise(m[i as int]) is None);
        assert(net == op_net(m[i as int]));
        if let Some(raise) = raise {
            let peak = cur + raise;
            if peak < isize::MIN as i128 || peak > isize::MAX as i128 {
                proof {
                    if walk_fits(m) {
                        assert(m.take(m.len() as int) =~= m);
                        lemma_walk_fits_prefix(m, i as int + 1, m.len() as int);
                    }
                }
                return None;
            }
            if peak > hi {
                hi = peak;
            }
        }
        cur = cur + net;
        if cur < isize::MIN as i128 || cur > isize::MAX as i128 {
            proof {
                if walk_fits(m) {
                    assert(m.take(m.len() as int) =~= m);
                    lemma_walk_fits_prefix(m, i as int + 1, m.len() as int);
                }
            }
            return None;
        }
        if cur < lo {
            lo = cur;
        }
        i = i + 1;
    }
    proof {
        assert(m.take(i as int) =~= m);
        lemma_walk_bounds(m);
    }
    Some((lo as isize, hi as isize))
}

/// Fitting holds of every prefix of ops that fit.
proof fn lemma_walk_fits_prefix(m: Seq<StackOpModel>, k: int, n: int)
    requires
        0 <= k <= n <= m.len(),
        walk_fits(m.take(n)),
    ensures
        walk_fits(m.take(k)),
    decreases n - k,
{
    if k < n {
        assert(m.take(n).drop_last() =~= m.take(n - 1));
        lemma_walk_fits_prefix(m, k, n - 1);
    }
}


/// Stores these heap slots above the top of the stack, then counts them in.
pub open spec fn push_instrs(params: Seq<u32>) -> Seq<Instr> {
    Seq::new(params.len(), |i: int| Instr::StoreArg { offset: i as usize, value: params[i] }).push(
        Instr::AddStackCount(params.len() as usize),
    )
}

/// The machine code for one op.
pub open spec fn lower_op(op: StackOpModel) -> Seq<Instr> {
    match op {
        StackOpModel::Push(params) => push_instrs(params),
        StackOpModel::Pop(count) => seq![Instr::SubStackCount(count as usize)],
        StackOpModel::Extern { callback, target, args, .. } => match args {
            ExternArgsModel::Complete(params) => push_instrs(params).push(
                Instr::CallExtern { count: params.len() as usize, target, callback },
            ),
            ExternArgsModel::Incomplete(count) => seq![
                Instr::CallExtern { count, target, callback },
            ],
        },
        StackOpModel::JumpIfFalse { destination, arg } => match arg {
            Some(slot) => seq![Instr::LoadConditionSlot(slot), Instr::BranchIfFalse(destination)],
            None => seq![Instr::PopCondition, Instr::BranchIfFalse(destination)],
        },
        StackOpModel::CopyComplete { src, dst } => seq![Instr::CopyVariables { src, dst }],
        StackOpModel::CopyIncomplete => seq![Instr::CopyFromStack],
        StackOpModel::Jump(destination) => seq![Instr::JumpTo(destination as u32)],
        StackOpModel::JumpIndirect(slot) => seq![Instr::JumpIndirect(slot)],
        StackOpModel::Return(reason) => seq![Instr::ReturnWith(reason.spec_encode())],
    }
}

/// The machine code for a sequence of ops, one after the other.
pub open spec fn lower_ops(ops: Seq<StackOpModel>) -> Seq<Instr>
    decreases ops.len(),
{
    if ops.len() == 0 {
        Seq::empty()
    } else {
        lower_ops(ops.drop_last()) + lower_op(ops.last())
    }
}

/// What comes before a block's ops: a check that the stack holds what the
/// block takes from it, when it takes anything, and room for what it puts
/// on it, when it puts anything.
pub open spec fn prologue(w: StackWalk) -> Seq<Instr> {
    (if w.min < 0 {
        seq![
            Instr::GuardStack {
                needed: (-w.min) as u32,
                code: ReturnCode::RequestInterpreter(0).spec_encode(),
            },
        ]
    } else {
        Seq::empty()
    }) + (if w.max > 0 {
        seq![Instr::ReserveStack { extra: w.max as isize }]
    } else {
        Seq::empty()
    })
}

/// The stack accounting of the ops can be done in `isize` arithmetic.
pub open spec fn plan_fits(ops: Seq<StackOpModel>) -> bool {
    walk_fits(ops) && stack_walk(ops).min > isize::MIN
}

/// The machine code for a block.
pub open spec fn block_plan(ops: Seq<StackOpModel>) -> Seq<Instr> {
    prologue(stack_walk(ops)) + lower_ops(ops)
}

fn push_n(instrs: &mut Vec<Instr>, params: &Vec<u32>)
    ensures
        final(instrs)@ == old(instrs)@ + push_instrs(params@),
{
    let ghost start = instrs@;
    let mut offset: usize = 0;
    while offset < params.len()
        invariant
            offset <= params@.len(),
            instrs@ == start + Seq::new(
                offset as nat,
                |i: int| Instr::StoreArg { offset: i as usize, value: params@[i] },
            ),
        decreases params.len() - offset,
    {
        instrs.push(Instr::StoreArg { offset, value: params[offset] });
        offset = offset + 1;
        assert(instrs@ =~= start + Seq::new(
            offset as nat,
            |i: int| Instr::StoreArg { offset: i as usize, value: params@[i] },
        ));
    }
    instrs.push(Instr::AddStackCount(params.len()));
    assert(instrs@ =~= start + push_instrs(params@));
}

/// Appends the machine code for one op.
fn lower(instrs: &mut Vec<Instr>, op: &StackOps)
    ensures
        final(instrs)@ == old(instrs)@ + lower_op(op@),
{
    let ghost start = instrs@;
    match op {
        StackOps::Push(params) => {
            push_n(instrs, params);
        },
        StackOps::Pop(count) => {
            instrs.push(Instr::SubStackCount(*count));
        },
        StackOps::Extern { callback, target, heap_slot: _, args } => {
            let count = match args {
                ExternArgs::Complete(params) => {
                    push_n(instrs, params);
                    params.len()
                },
                ExternArgs::Incomplete(count) => *count,
            };
            instrs.push(Instr::CallExtern { count, target: *target, callback: *callback });
        },
        StackOps::JumpIfFalse { destination, arg } => {
            match arg {
                Some(address) => instrs.push(Instr::LoadConditionSlot(*address)),
                None => instrs.push(Instr::PopCondition),
            }
            instrs.push(Instr::BranchIfFalse(*destination));
        },
        StackOps::CopyComplete { src, dst } => {
            instrs.push(Instr::CopyVariables { src: *src, dst: *dst });
        },
        StackOps::CopyIncomplete => {
            instrs.push(Instr::CopyFromStack);
        },
        StackOps::Jump(destination) => {
            instrs.push(Instr::JumpTo(*destination as u32));
        },
        StackOps::JumpIndirect(address) => {
            instrs.push(Instr::JumpIndirect(*address));
        },
        StackOps::Return(reason) => {
            instrs.push(Instr::ReturnWith(reason.encode()));
        },
    }
    assert(instrs@ =~= start + lower_op(op@));
}

/// Lays out the machine code for a block of ops: a guard that hands control
/// back with `RequestInterpreter` when the stack holds fewer items than the
/// block takes from it, a reservation of room for the most items the block
/// puts on it, then each op's code in order. `None` when the stack
/// accounting overflows `isize`.
pub fn emit(ops: &[StackOps]) -> (r: Option<Vec<Instr>>)
    ensures
        r is Some <==> plan_fits(ops_model(ops@)),
        r matches Some(instrs) ==> instrs@ == block_plan(ops_model(ops@)),
{
    let ghost m = ops_model(ops@);
    let (min_stack, max_stack) = match stack_bounds(ops) {
        Some(bounds) => bounds,
        None => return None,
    };
    if min_stack == isize::MIN {
        return None;
    }
    let mut instrs: Vec<Instr> = Vec::new();
    if min_stack < 0 {
        instrs.push(
            Instr::GuardStack {
                needed: (-min_stack) as u32,
                code: ReturnCode::RequestInterpreter(0).encode(),
            },
        );
    }
    if max_stack > 0 {
        instrs.push(Instr::ReserveStack { extra: max_stack });
    }
    assert(instrs@ =~= prologue(stack_walk(m)));
    let mut i: usize = 0;
    while i < ops.len()
        invariant
            m == ops_model(ops@),
            0 <= i <= ops@.len(),
            instrs@ == prologue(stack_walk(m)) + lower_ops(m.take(i as int)),
        decreases ops.len() - i,
    {
        proof {
            assert(m.take(i + 1).drop_last() =~= m.take(i as int));
            assert(m.take(i + 1).last() == ops@[i as int]@);
        }
        lower(&mut instrs, &ops[i]);
        i = i + 1;
        assert(instrs@ =~= prologue(stack_walk(m)) + lower_ops(m.take(i as int)));
    }
    assert(m.take(i as int) =~= m);
    Some(instrs)
}


/// The VM stack that recompiled code works on: its cells and the count of
/// items on it. The count is kept apart from the cells, which only grow.
pub struct VmStack {
    pub stack: Vec<u32>,
    pub stack_count: u64,
}

impl VmStack {
    /// An empty stack with room for 4096 cells.
    pub fn new() -> (r: Self)
        ensures
            r.stack@.len() == 0,
            r.stack_count == 0,
    {
        VmStack { stack: Vec::with_capacity(0x1000), stack_count: 0 }
    }

    /// Grows the stack to `size` cells, if it has fewer; new cells hold 0.
    pub fn reserve_stack(&mut self, size: u64)
        ensures
            final(self).stack_count == old(self).stack_count,
            (size as usize) > old(self).stack@.len() ==> final(self).stack@ == old(self).stack@
                + Seq::new((size as usize - old(self).stack@.len()) as nat, |i: int| 0u32),
            (size as usize) <= old(self).stack@.len() ==> final(self).stack@ == old(self).stack@,
    {
        let ghost before = self.stack@;
        if size as usize > self.stack.len() {
            self.stack.resize(size as usize, 0u32);
            assert(self.stack@ =~= before + Seq::new(
                (size as usize - before.len()) as nat,
                |i: int| 0u32,
            )) by {
                assert forall|i: int| before.len() <= i < size as usize implies self.stack@[i]
                    == 0u32 by {
                    assert(cloned::<u32>(0u32, self.stack@[i]));
                }
                assert(self.stack@.subrange(0, before.len() as int) == before);
            }
        }
    }

    pub fn set_stack_count(&mut self, val: u64)
        ensures
            final(self).stack_count == val,
            final(self).stack@ == old(self).stack@,
    {
        self.stack_count = val;
    }

    pub fn get_stack_count(&self) -> (r: u64)
        ensures
            r == self.stack_count,
    {
        self.stack_count
    }
}


/// How an instruction changes the count of items on the stack.
pub open spec fn instr_delta(ins: Instr) -> int {
    match ins {
        Instr::AddStackCount(k) => k as int,
        Instr::SubStackCount(k) => -(k as int),
        Instr::CallExtern { count, .. } => -(count as int),
        Instr::PopCondition => -1,
        Instr::CopyFromStack => -2,
        _ => 0,
    }
}

/// The count of items on the stack after running these instructions from a
/// count of `n` (straight through, with no branch taken).
pub open spec fn count_after(instrs: Seq<Instr>, n: int) -> int
    decreases instrs.len(),
{
    if instrs.len() == 0 {
        n
    } else {
        count_after(instrs.drop_last(), n) + instr_delta(instrs.last())
    }
}

/// Running these instructions from a count of `n`, the count never drops
/// below zero nor rises above `cap`, and every cell stored to lies below
/// `cap`.
pub open spec fn stays_within(instrs: Seq<Instr>, n: int, cap: int) -> bool
    decreases instrs.len(),
{
    if instrs.len() == 0 {
        0 <= n <= cap
    } else {
        let c = count_after(instrs.drop_last(), n);
        &&& stays_within(instrs.drop_last(), n, cap)
        &&& (instrs.last() matches Instr::StoreArg { offset, .. } ==> 0 <= c + offset < cap)
        &&& 0 <= c + instr_delta(instrs.last()) <= cap
    }
}

/// Every length and count that an op carries fits in an `isize`.
pub open spec fn op_counts_fit(op: StackOpModel) -> bool {
    match op {
        StackOpModel::Push(params) => params.len() <= isize::MAX,
        StackOpModel::Pop(count) => count <= isize::MAX,
        StackOpModel::Extern { args, .. } => match args {
            ExternArgsModel::Complete(params) => params.len() <= isize::MAX,
            ExternArgsModel::Incomplete(count) => count <= isize::MAX,
        },
        _ => true,
    }
}

pub open spec fn counts_fit(ops: Seq<StackOpModel>) -> bool {
    forall|i: int| 0 <= i < ops.len() ==> op_counts_fit(#[trigger] ops[i])
}

proof fn lemma_count_after_concat(a: Seq<Instr>, b: Seq<Instr>, n: int)
    ensures
        count_after(a + b, n) == count_after(b, count_after(a, n)),
    decreases b.len(),
{
    if b.len() == 0 {
        assert(a + b =~= a);
    } else {
        assert((a + b).drop_last() =~= a + b.drop_last());
        lemma_count_after_concat(a, b.drop_last(), n);
    }
}

proof fn lemma_within_concat(a: Seq<Instr>, b: Seq<Instr>, n: int, cap: int)
    requires
        stays_within(a, n, cap),
        stays_within(b, count_after(a, n), cap),
    ensures
        stays_within(a + b, n, cap),
    decreases b.len(),
{
    if b.len() == 0 {
        assert(a + b =~= a);
    } else {
        assert((a + b).drop_last() =~= a + b.drop_last());
        lemma_within_concat(a, b.drop_last(), n, cap);
        lemma_count_after_concat(a, b.drop_last(), n);
    }
}

proof fn lemma_stores_within(params: Seq<u32>, k: nat, c: int, cap: int)
    requires
        k <= params.len(),
        0 <= c,
        c + params.len() <= cap,
    ensures
        ({
            let s = Seq::new(k, |i: int| Instr::StoreArg { offset: i as usize, value: params[i] });
            stays_within(s, c, cap) && count_after(s, c) == c
        }),
    decreases k,
{
    let s = Seq::new(k, |i: int| Instr::StoreArg { offset: i as usize, value: params[i] });
    if k > 0 {
        let t = Seq::new(
            (k - 1) as nat,
            |i: int| Instr::StoreArg { offset: i as usize, value: params[i] },
        );
        assert(s.drop_last() =~= t);
        lemma_stores_within(params, (k - 1) as nat, c, cap);
    }
}

proof fn lemma_push_within(params: Seq<u32>, c: int, cap: int)
    requires
        params.len() <= isize::MAX,
        0 <= c,
        c + params.len() <= cap,
    ensures
        stays_within(push_instrs(params), c, cap),
        count_after(push_instrs(params), c) == c + params.len(),
{
    lemma_stores_within(params, params.len(), c, cap);
    let s = Seq::new(
        params.len(),
        |i: int| Instr::StoreArg { offset: i as usize, value: params[i] },
    );
    assert(push_instrs(params).drop_last() =~= s);
}

proof fn lemma_single_within(ins: Instr, c: int, cap: int)
    requires
        !(ins is StoreArg),
        0 <= c <= cap,
        0 <= c + instr_delta(ins) <= cap,
    ensures
        stays_within(seq![ins], c, cap),
        count_after(seq![ins], c) == c + instr_delta(ins),
{
    let e = Seq::<Instr>::empty();
    assert(seq![ins].drop_last() =~= e);
    assert(count_after(e, c) == c);
    assert(stays_within(e, c, cap));
    assert(seq![ins].last() == ins);
}

proof fn lemma_pair_within(a: Instr, b: Instr, c: int, cap: int)
    requires
        !(a is StoreArg),
        !(b is StoreArg),
        instr_delta(b) == 0,
        0 <= c <= cap,
        0 <= c + instr_delta(a) <= cap,
    ensures
        stays_within(seq![a, b], c, cap),
        count_after(seq![a, b], c) == c + instr_delta(a),
{
    lemma_single_within(a, c, cap);
    assert(seq![a, b].drop_last() =~= seq![a]);
}

proof fn lemma_lower_op_within(op: StackOpModel, c: int, cap: int)
    requires
        op_counts_fit(op),
        0 <= c <= cap,
        0 <= c + op_net(op) <= cap,
        op_raise(op) matches Some(raise) ==> c + raise <= cap,
    ensures
        stays_within(lower_op(op), c, cap),
        count_after(lower_op(op), c) == c + op_net(op),
{
    match op {
        StackOpModel::Push(params) => {
            lemma_push_within(params, c, cap);
        },
        StackOpModel::Pop(count) => {
            lemma_single_within(Instr::SubStackCount(count as usize), c, cap);
        },
        StackOpModel::Extern { callback, target, args, .. } => match args {
            ExternArgsModel::Complete(params) => {
                lemma_push_within(params, c, cap);
                let call = Instr::CallExtern { count: params.len() as usize, target, callback };
                lemma_single_within(call, c + params.len(), cap);
                lemma_within_concat(push_instrs(params), seq![call], c, cap);
                lemma_count_after_concat(push_instrs(params), seq![call], c);
                assert(push_instrs(params).push(call) =~= push_instrs(params) + seq![call]);
            },
            ExternArgsModel::Incomplete(count) => {
                lemma_single_within(Instr::CallExtern { count, target, callback }, c, cap);
            },
        },
        StackOpModel::JumpIfFalse { destination, arg } => match arg {
            Some(slot) => {
                lemma_pair_within(
                    Instr::LoadConditionSlot(slot),
                    Instr::BranchIfFalse(destination),
                    c,
                    cap,
                );
            },
            None => {
                lemma_pair_within(Instr::PopCondition, Instr::BranchIfFalse(destination), c, cap);
            },
        },
        StackOpModel::CopyComplete { src, dst } => {
            lemma_single_within(Instr::CopyVariables { src, dst }, c, cap);
        },
        StackOpModel::CopyIncomplete => {
            lemma_single_within(Instr::CopyFromStack, c, cap);
        },
        StackOpModel::Jump(destination) => {
            lemma_single_within(Instr::JumpTo(destination as u32), c, cap);
        },
        StackOpModel::JumpIndirect(slot) => {
            lemma_single_within(Instr::JumpIndirect(slot), c, cap);
        },
        StackOpModel::Return(reason) => {
            lemma_single_within(Instr::ReturnWith(reason.spec_encode()), c, cap);
        },
    }
}

proof fn lemma_walk_shape(ops: Seq<StackOpModel>)
    requires
        counts_fit(ops),
    ensures
        stack_walk(ops).min <= stack_walk(ops).cur <= stack_walk(ops).max,
        stack_walk(ops).min <= 0 <= stack_walk(ops).max,
        ops.len() > 0 ==> stack_walk(ops).min <= stack_walk(ops.drop_last()).min,
        ops.len() > 0 ==> stack_walk(ops.drop_last()).max <= stack_walk(ops).max,
        ops.len() > 0 ==> (op_raise(ops.last()) matches Some(raise) ==> stack_walk(
            ops.drop_last(),
        ).cur + raise <= stack_walk(ops).max),
        ops.len() > 0 ==> op_net(ops.last()) <= 0 || op_raise(ops.last()) == Some(
            op_net(ops.last()),
        ),
    decreases ops.len(),
{
    if ops.len() > 0 {
        assert forall|i: int| 0 <= i < ops.drop_last().len() implies op_counts_fit(
            #[trigger] ops.drop_last()[i],
        ) by {
            assert(ops.drop_last()[i] == ops[i]);
        }
        lemma_walk_shape(ops.drop_last());
        assert(op_counts_fit(ops[ops.len() - 1]));
    }
}

proof fn lemma_lower_ops_within(ops: Seq<StackOpModel>, n: int, cap: int)
    requires
        counts_fit(ops),
        n + stack_walk(ops).min >= 0,
        n + stack_walk(ops).max <= cap,
    ensures
        stays_within(lower_ops(ops), n, cap),
        count_after(lower_ops(ops), n) == n + stack_walk(ops).cur,
    decreases ops.len(),
{
    lemma_walk_shape(ops);
    if ops.len() > 0 {
        let d = ops.drop_last();
        let op = ops.last();
        assert forall|i: int| 0 <= i < d.len() implies op_counts_fit(#[trigger] d[i]) by {
            assert(d[i] == ops[i]);
        }
        assert(op_counts_fit(ops[ops.len() - 1]));
        lemma_walk_shape(d);
        lemma_lower_ops_within(d, n, cap);
        let c = n + stack_walk(d).cur;
        lemma_lower_op_within(op, c, cap);
        lemma_within_concat(lower_ops(d), lower_op(op), n, cap);
        lemma_count_after_concat(lower_ops(d), lower_op(op), n);
    }
}

/// When the guard lets a block run (at least as many items on the stack as
/// the block takes from it) and the reservation gave it room for the most
/// items it puts on it, the block's code, run straight through, never takes
/// the item count below zero nor above the reserved room, never stores
/// outside the reserved cells, and leaves the count changed by the block's
/// net effect.
pub proof fn lemma_emitted_code_stays_in_stack(ops: Seq<StackOpModel>, n: int)
    requires
        counts_fit(ops),
        n + stack_walk(ops).min >= 0,
    ensures
        stays_within(lower_ops(ops), n, n + stack_walk(ops).max),
        count_after(lower_ops(ops), n) == n + stack_walk(ops).cur,
{
    lemma_lower_ops_within(ops, n, n + stack_walk(ops).max);
}

/// What recompiled code holds while it runs straight through a block: the
/// cells of the VM stack, the count of items on it, the heap slot of the
/// branch condition, and the effects so far.
pub struct Machine {
    pub cells: spec_fn(int) -> u32,
    pub count: int,
    pub cond: u32,
    pub effects: Seq<Effect>,
}

/// The items on the stack of a machine.
pub open spec fn machine_stack(m: Machine) -> Seq<u32> {
    Seq::new(m.count as nat, |i: int| (m.cells)(i))
}

/// What one instruction does, run straight through: no branch is taken, a
/// guard lets the code go on, and the room reserved is already there (see
/// `lemma_emitted_code_stays_in_stack` for the room and the count).
pub open spec fn run_instr(m: Machine, ins: Instr) -> Machine {
    match ins {
        Instr::StoreArg { offset, value } => {
            let at = m.count + offset;
            Machine { cells: |j: int| if j == at { value } else { (m.cells)(j) }, ..m }
        },
        Instr::AddStackCount(k) => Machine { count: m.count + k, ..m },
        Instr::SubStackCount(k) => Machine { count: m.count - k, ..m },
        Instr::CallExtern { count, target, callback } => {
            let c = m.count - count;
            Machine {
                count: c,
                effects: m.effects.push(
                    Effect::Call {
                        callback,
                        target,
                        args: Seq::new(count as nat, |i: int| (m.cells)(c + i)),
                    },
                ),
                ..m
            }
        },
        Instr::LoadConditionSlot(slot) => Machine { cond: slot, ..m },
        Instr::PopCondition => Machine { count: m.count - 1, cond: (m.cells)(m.count - 1), ..m },
        Instr::BranchIfFalse(_) => Machine {
            effects: m.effects.push(Effect::ReadCondition { slot: m.cond }),
            ..m
        },
        Instr::CopyVariables { src, dst } => Machine {
            effects: m.effects.push(Effect::Copy { src, dst }),
            ..m
        },
        Instr::CopyFromStack => Machine {
            count: m.count - 2,
            effects: m.effects.push(
                Effect::Copy { src: (m.cells)(m.count - 2), dst: (m.cells)(m.count - 1) },
            ),
            ..m
        },
        _ => m,
    }
}

/// Runs instructions one after the other, straight through.
pub open spec fn run_instrs(instrs: Seq<Instr>, m: Machine) -> Machine
    decreases instrs.len(),
{
    if instrs.len() == 0 {
        m
    } else {
        run_instr(run_instrs(instrs.drop_last(), m), instrs.last())
    }
}

proof fn lemma_run_instrs_concat(a: Seq<Instr>, b: Seq<Instr>, m: Machine)
    ensures
        run_instrs(a + b, m) == run_instrs(b, run_instrs(a, m)),
    decreases b.len(),
{
    if b.len() == 0 {
        assert(a + b =~= a);
    } else {
        assert((a + b).drop_last() =~= a + b.drop_last());
        lemma_run_instrs_concat(a, b.drop_last(), m);
    }
}

proof fn lemma_run_single(ins: Instr, m: Machine)
    ensures
        run_instrs(seq![ins], m) == run_instr(m, ins),
{
    assert(seq![ins].drop_last() =~= Seq::<Instr>::empty());
    assert(seq![ins].last() == ins);
    assert(run_instrs(Seq::<Instr>::empty(), m) == m);
}

proof fn lemma_run_pair(a: Instr, b: Instr, m: Machine)
    ensures
        run_instrs(seq![a, b], m) == run_instr(run_instr(m, a), b),
{
    assert(seq![a, b].drop_last() =~= seq![a]);
    lemma_run_single(a, m);
}

/// A machine holds the stack `stack` after the effects `effects`.
pub open spec fn holds(m: Machine, stack: Seq<u32>, effects: Seq<Effect>) -> bool {
    &&& m.count == stack.len()
    &&& forall|i: int| 0 <= i < stack.len() ==> #[trigger] (m.cells)(i) == stack[i]
    &&& m.effects == effects
}

proof fn lemma_stores(params: Seq<u32>, k: nat, m: Machine)
    requires
        k <= params.len() <= usize::MAX,
    ensures
        ({
            let s = Seq::new(k, |i: int| Instr::StoreArg { offset: i as usize, value: params[i] });
            let r = run_instrs(s, m);
            &&& r.count == m.count
            &&& r.cond == m.cond
            &&& r.effects == m.effects
            &&& forall|j: int| #![trigger (r.cells)(j)]
                j < m.count ==> (r.cells)(j) == (m.cells)(j)
            &&& forall|i: int| #![trigger (r.cells)(m.count + i)]
                0 <= i < k ==> (r.cells)(m.count + i) == params[i]
        }),
    decreases k,
{
    let s = Seq::new(k, |i: int| Instr::StoreArg { offset: i as usize, value: params[i] });
    if k > 0 {
        let t = Seq::new(
            (k - 1) as nat,
            |i: int| Instr::StoreArg { offset: i as usize, value: params[i] },
        );
        assert(s.drop_last() =~= t);
        lemma_stores(params, (k - 1) as nat, m);
        let r = run_instrs(s, m);
        let q = run_instrs(t, m);
        assert forall|i: int| #![trigger (r.cells)(m.count + i)]
            0 <= i < k implies (r.cells)(m.count + i) == params[i] by {
            if i < k - 1 {
                assert((q.cells)(m.count + i) == params[i]);
            }
        }
    }
}

proof fn lemma_push_does(params: Seq<u32>, m: Machine, stack: Seq<u32>, effects: Seq<Effect>)
    requires
        params.len() <= isize::MAX,
        holds(m, stack, effects),
    ensures
        holds(run_instrs(push_instrs(params), m), stack + params, effects),
        run_instrs(push_instrs(params), m).cond == m.cond,
{
    let s = Seq::new(
        params.len(),
        |i: int| Instr::StoreArg { offset: i as usize, value: params[i] },
    );
    lemma_stores(params, params.len(), m);
    assert(push_instrs(params).drop_last() =~= s);
    let r = run_instrs(push_instrs(params), m);
    let q = run_instrs(s, m);
    assert forall|i: int| 0 <= i < (stack + params).len() implies #[trigger] (r.cells)(i) == (
    stack + params)[i] by {
        if i < stack.len() {
            assert((q.cells)(i) == (m.cells)(i));
        } else {
            assert((q.cells)(m.count + (i - stack.len())) == params[i - stack.len()]);
        }
    }
}

proof fn lemma_lower_op_does(op: StackOpModel, m: Machine, stack: Seq<u32>, effects: Seq<Effect>)
    requires
        op_counts_fit(op),
        holds(m, stack, effects),
        run_op(Some((stack, effects)), op) is Some,
    ensures
        ({
            let (st, ef) = run_op(Some((stack, effects)), op).unwrap();
            holds(run_instrs(lower_op(op), m), st, ef)
        }),
{
    let (st, ef) = run_op(Some((stack, effects)), op).unwrap();
    let n = stack.len() as int;
    match op {
        StackOpModel::Push(params) => {
            lemma_push_does(params, m, stack, effects);
        },
        StackOpModel::Pop(count) => {
            lemma_run_single(Instr::SubStackCount(count as usize), m);
            assert forall|i: int| 0 <= i < st.len() implies #[trigger] (m.cells)(i) == st[i] by {
                assert((m.cells)(i) == stack[i]);
            }
        },
        StackOpModel::Extern { callback, target, args, .. } => match args {
            ExternArgsModel::Complete(params) => {
                lemma_push_does(params, m, stack, effects);
                let call = Instr::CallExtern { count: params.len() as usize, target, callback };
                assert(push_instrs(params).push(call).drop_last() =~= push_instrs(params));
                let q = run_instrs(push_instrs(params), m);
                let r = run_instr(q, call);
                assert(Seq::new(params.len(), |i: int| (q.cells)(n + i)) =~= params) by {
                    assert forall|i: int| 0 <= i < params.len() implies (q.cells)(n + i)
                        == params[i] by {
                        assert((q.cells)(n + i) == (stack + params)[n + i]);
                    }
                }
                assert forall|i: int| 0 <= i < st.len() implies #[trigger] (r.cells)(i)
                    == st[i] by {
                    assert((q.cells)(i) == (stack + params)[i]);
                }
            },
            ExternArgsModel::Incomplete(count) => {
                let call = Instr::CallExtern { count, target, callback };
                lemma_run_single(call, m);
                assert(Seq::new(count as nat, |i: int| (m.cells)(n - count + i)) =~= stack.subrange(
                    n - count,
                    n,
                ));
                assert forall|i: int| 0 <= i < st.len() implies #[trigger] (m.cells)(i) == st[i] by {
                    assert((m.cells)(i) == stack[i]);
                }
            },
        },
        StackOpModel::JumpIfFalse { destination, arg } => match arg {
            Some(slot) => {
                lemma_run_pair(Instr::LoadConditionSlot(slot), Instr::BranchIfFalse(destination), m);
            },
            None => {
                lemma_run_pair(Instr::PopCondition, Instr::BranchIfFalse(destination), m);
                assert forall|i: int| 0 <= i < st.len() implies #[trigger] (m.cells)(i) == st[i] by {
                    assert((m.cells)(i) == stack[i]);
                }
            },
        },
        StackOpModel::CopyComplete { src, dst } => {
            lemma_run_single(Instr::CopyVariables { src, dst }, m);
        },
        StackOpModel::CopyIncomplete => {
            lemma_run_single(Instr::CopyFromStack, m);
            assert forall|i: int| 0 <= i < st.len() implies #[trigger] (m.cells)(i) == st[i] by {
                assert((m.cells)(i) == stack[i]);
            }
        },
        StackOpModel::Jump(destination) => {
            lemma_run_single(Instr::JumpTo(destination as u32), m);
        },
        StackOpModel::JumpIndirect(slot) => {
            lemma_run_single(Instr::JumpIndirect(slot), m);
        },
        StackOpModel::Return(reason) => {
            lemma_run_single(Instr::ReturnWith(reason.spec_encode()), m);
        },
    }
}

/// The machine code laid out for a sequence of ops does what the ops do:
/// run straight through from a machine that holds `stack`, it leaves the
/// stack that the ops leave and has their effects, in order, whenever the
/// ops never take more items than the stack holds.
pub proof fn lemma_lowered_ops_do_the_ops(ops: Seq<StackOpModel>, m: Machine, stack: Seq<u32>)
    requires
        counts_fit(ops),
        holds(m, stack, m.effects),
        run_ops(ops, stack) is Some,
    ensures
        ({
            let (st, ef) = run_ops(ops, stack).unwrap();
            holds(run_instrs(lower_ops(ops), m), st, m.effects + ef)
        }),
    decreases ops.len(),
{
    if ops.len() == 0 {
        assert(m.effects + Seq::<Effect>::empty() =~= m.effects);
    } else {
        let d = ops.drop_last();
        assert forall|i: int| 0 <= i < d.len() implies op_counts_fit(#[trigger] d[i]) by {
            assert(d[i] == ops[i]);
        }
        assert(op_counts_fit(ops[ops.len() - 1]));
        lemma_lowered_ops_do_the_ops(d, m, stack);
        let (st, ef) = run_ops(d, stack).unwrap();
        let q = run_instrs(lower_ops(d), m);
        let (st2, ef2) = run_op(Some((st, m.effects + ef)), ops.last()).unwrap();
        lemma_lower_op_does(ops.last(), q, st, m.effects + ef);
        lemma_run_instrs_concat(lower_ops(d), lower_op(ops.last()), m);
        assert(run_op(Some((st, ef)), ops.last()) matches Some((st3, ef3)) && st3 == st2 && m.effects
            + ef3 =~= ef2);
    }
}

/// The ops of a block run without running short exactly when the stack
/// holds as many items as the stack accounting falls below its start
/// (`-stack_walk(ops).min`, the count the guard of the block checks); they
/// then change the number of items by the accounting's net change.
pub proof fn lemma_ops_run_iff_walk_stays_above(ops: Seq<StackOpModel>, stack: Seq<u32>)
    requires
        counts_fit(ops),
    ensures
        run_ops(ops, stack) is Some <==> stack.len() + stack_walk(ops).min >= 0,
        run_ops(ops, stack) matches Some((st, _)) ==> st.len() == stack.len() + stack_walk(
            ops,
        ).cur,
    decreases ops.len(),
{
    lemma_walk_shape(ops);
    if ops.len() > 0 {
        let d = ops.drop_last();
        assert forall|i: int| 0 <= i < d.len() implies op_counts_fit(#[trigger] d[i]) by {
            assert(d[i] == ops[i]);
        }
        assert(op_counts_fit(ops[ops.len() - 1]));
        lemma_walk_shape(d);
        lemma_ops_run_iff_walk_stays_above(d, stack);
    }
}

proof fn lemma_prologue_does_nothing(w: StackWalk, m: Machine)
    ensures
        run_instrs(prologue(w), m) == m,
{
    let guard = if w.min < 0 {
        seq![
            Instr::GuardStack {
                needed: (-w.min) as u32,
                code: ReturnCode::RequestInterpreter(0).spec_encode(),
            },
        ]
    } else {
        Seq::empty()
    };
    let reserve = if w.max > 0 {
        seq![Instr::ReserveStack { extra: w.max as isize }]
    } else {
        Seq::empty()
    };
    assert(run_instrs(Seq::<Instr>::empty(), m) == m);
    if w.min < 0 {
        lemma_run_single(guard[0], m);
        assert(guard =~= seq![guard[0]]);
    }
    if w.max > 0 {
        lemma_run_single(reserve[0], m);
        assert(reserve =~= seq![reserve[0]]);
    }
    lemma_run_instrs_concat(guard, reserve, m);
}

/// The machine code that `emit` lays out for a block does what the block's
/// ops do: where the stack holds enough items for the ops, the code, run
/// straight through from a machine that holds the stack (its guard passing
/// and its prologue changing nothing), leaves the stack that the ops leave
/// and has their effects, in the same order.
pub proof fn lemma_block_plan_does_the_ops(ops: Seq<StackOpModel>, m: Machine, stack: Seq<u32>)
    requires
        counts_fit(ops),
        holds(m, stack, m.effects),
        stack.len() + stack_walk(ops).min >= 0,
    ensures
        run_ops(ops, stack) matches Some((st, ef)) && holds(
            run_instrs(block_plan(ops), m),
            st,
            m.effects + ef,
        ),
{
    lemma_ops_run_iff_walk_stays_above(ops, stack);
    lemma_prologue_does_nothing(stack_walk(ops), m);
    lemma_run_instrs_concat(prologue(stack_walk(ops)), lower_ops(ops), m);
    lemma_lowered_ops_do_the_ops(ops, m, stack);
}

/// Every guard among the instructions lets code that starts with `n` items
/// on the stack run: `n` is at least the count it asks for.
pub open spec fn guard_admits(instrs: Seq<Instr>, n: int) -> bool {
    forall|i: int|
        0 <= i < instrs.len() ==> (#[trigger] instrs[i] matches Instr::GuardStack { needed, .. }
            ==> n >= needed)
}

/// The number of cells that the VM stack holds after instructions run
/// straight through from `n` items in `room` cells: a `ReserveStack` grows
/// the cells to hold the items on the stack and `extra` more.
pub open spec fn room_after(instrs: Seq<Instr>, n: int, room: int) -> int
    decreases instrs.len(),
{
    if instrs.len() == 0 {
        room
    } else {
        let r = room_after(instrs.drop_last(), n, room);
        match instrs.last() {
            Instr::ReserveStack { extra } => max_int(
                r,
                count_after(instrs.drop_last(), n) + extra as int,
            ),
            _ => r,
        }
    }
}

/// Run straight through from `n` items in `room` cells, the instructions
/// never take the count below zero nor above the cells held, and every
/// store lands in a cell held at that point.
pub open spec fn writes_in_room(instrs: Seq<Instr>, n: int, room: int) -> bool
    decreases instrs.len(),
{
    if instrs.len() == 0 {
        0 <= n <= room
    } else {
        let c = count_after(instrs.drop_last(), n);
        let r = room_after(instrs.drop_last(), n, room);
        &&& writes_in_room(instrs.drop_last(), n, room)
        &&& (instrs.last() matches Instr::StoreArg { offset, .. } ==> 0 <= c + offset < r)
        &&& 0 <= c + instr_delta(instrs.last()) <= room_after(instrs, n, room)
    }
}

/// Neither a guard nor a reservation.
pub open spec fn plain(instrs: Seq<Instr>) -> bool {
    forall|i: int|
        0 <= i < instrs.len() ==> !(#[trigger] instrs[i] is GuardStack) && !(instrs[i] is ReserveStack)
}

proof fn lemma_lower_ops_plain(ops: Seq<StackOpModel>)
    ensures
        plain(lower_ops(ops)),
    decreases ops.len(),
{
    if ops.len() > 0 {
        lemma_lower_ops_plain(ops.drop_last());
        let a = lower_ops(ops.drop_last());
        let b = lower_op(ops.last());
        assert(plain(b)) by {
            match ops.last() {
                StackOpModel::Push(params) => {
                    assert forall|i: int| 0 <= i < b.len() implies !(#[trigger] b[i] is GuardStack)
                        && !(b[i] is ReserveStack) by {
                        if i < params.len() {
                        }
                    }
                },
                StackOpModel::Extern { args, .. } => {
                    assert forall|i: int| 0 <= i < b.len() implies !(#[trigger] b[i] is GuardStack)
                        && !(b[i] is ReserveStack) by {
                        if let ExternArgsModel::Complete(params) = args {
                            if i < push_instrs(params).len() {
                                assert(b[i] == push_instrs(params)[i]);
                                if i < params.len() {
                                }
                            }
                        }
                    }
                },
                _ => {},
            }
        }
        assert forall|i: int| 0 <= i < (a + b).len() implies !(#[trigger] (a + b)[i] is GuardStack)
            && !((a + b)[i] is ReserveStack) by {
            if i < a.len() {
                assert((a + b)[i] == a[i]);
            } else {
                assert((a + b)[i] == b[i - a.len()]);
            }
        }
    }
}

proof fn lemma_room_concat(a: Seq<Instr>, b: Seq<Instr>, n: int, room: int)
    ensures
        room_after(a + b, n, room) == room_after(b, count_after(a, n), room_after(a, n, room)),
        writes_in_room(a, n, room) && writes_in_room(b, count_after(a, n), room_after(a, n, room))
            ==> writes_in_room(a + b, n, room),
    decreases b.len(),
{
    if b.len() == 0 {
        assert(a + b =~= a);
        if writes_in_room(a, n, room) {
            lemma_writes_in_room_ends(a, n, room);
        }
    } else {
        assert((a + b).drop_last() =~= a + b.drop_last());
        lemma_room_concat(a, b.drop_last(), n, room);
        lemma_count_after_concat(a, b.drop_last(), n);
        lemma_count_after_concat(a, b, n);
    }
}

proof fn lemma_writes_in_room_ends(instrs: Seq<Instr>, n: int, room: int)
    requires
        writes_in_room(instrs, n, room),
    ensures
        0 <= count_after(instrs, n) <= room_after(instrs, n, room),
{
}

proof fn lemma_plain_room(instrs: Seq<Instr>, n: int, room: int)
    requires
        plain(instrs),
        stays_within(instrs, n, room),
    ensures
        room_after(instrs, n, room) == room,
        writes_in_room(instrs, n, room),
    decreases instrs.len(),
{
    if instrs.len() > 0 {
        let d = instrs.drop_last();
        assert forall|i: int| 0 <= i < d.len() implies !(#[trigger] d[i] is GuardStack) && !(
        d[i] is ReserveStack) by {
            assert(d[i] == instrs[i]);
        }
        assert(!(instrs[instrs.len() - 1] is ReserveStack));
        lemma_plain_room(d, n, room);
    }
}

proof fn lemma_prologue_room(w: StackWalk, n: int)
    requires
        0 <= n,
        0 <= w.max <= isize::MAX,
        w.min < 0 ==> n >= -w.min,
    ensures
        writes_in_room(prologue(w), n, n),
        room_after(prologue(w), n, n) == n + w.max,
        count_after(prologue(w), n) == n,
{
    let guard = if w.min < 0 {
        seq![
            Instr::GuardStack {
                needed: (-w.min) as u32,
                code: ReturnCode::RequestInterpreter(0).spec_encode(),
            },
        ]
    } else {
        Seq::<Instr>::empty()
    };
    let reserve = if w.max > 0 {
        seq![Instr::ReserveStack { extra: w.max as isize }]
    } else {
        Seq::<Instr>::empty()
    };
    assert(prologue(w) == guard + reserve);
    let e = Seq::<Instr>::empty();
    assert(room_after(e, n, n) == n);
    assert(count_after(e, n) == n);
    assert(writes_in_room(e, n, n));
    if w.min < 0 {
        assert(guard.drop_last() =~= e);
        assert(guard.last() is GuardStack);
    }
    assert(room_after(guard, n, n) == n);
    assert(count_after(guard, n) == n);
    assert(writes_in_room(guard, n, n));
    if w.max > 0 {
        assert(reserve.drop_last() =~= e);
        assert(reserve.last() == (Instr::ReserveStack { extra: w.max as isize }));
        assert(room_after(reserve, n, n) == n + w.max);
    }
    assert(writes_in_room(reserve, n, n));
    lemma_room_concat(guard, reserve, n, n);
    lemma_count_after_concat(guard, reserve, n);
}

/// The guard of a block's code lets it run exactly on the stacks from which
/// the block's ops never take more items than the stack holds: it asks for
/// as many items as the lowest point the ops take the stack to lies below
/// its start, not for their net change.
pub proof fn lemma_guard_admits_what_the_ops_can_run(ops: Seq<StackOpModel>, stack: Seq<u32>)
    requires
        counts_fit(ops),
        plan_fits(ops),
        -stack_walk(ops).min <= u32::MAX,
    ensures
        guard_admits(block_plan(ops), stack.len() as int) <==> run_ops(ops, stack) is Some,
{
    let w = stack_walk(ops);
    let n = stack.len() as int;
    lemma_walk_shape(ops);
    lemma_ops_run_iff_walk_stays_above(ops, stack);
    lemma_lower_ops_plain(ops);
    let p = prologue(w);
    let l = lower_ops(ops);
    if w.min < 0 {
        assert(block_plan(ops)[0] == p[0]);
        assert(p[0] == (Instr::GuardStack {
            needed: (-w.min) as u32,
            code: ReturnCode::RequestInterpreter(0).spec_encode(),
        }));
    }
    assert(guard_admits(block_plan(ops), n) <==> (w.min < 0 ==> n >= -w.min)) by {
        if w.min < 0 ==> n >= -w.min {
            assert forall|i: int| 0 <= i < block_plan(ops).len() implies (
            #[trigger] block_plan(ops)[i] matches Instr::GuardStack { needed, .. } ==> n
                >= needed) by {
                if i >= p.len() {
                    assert(block_plan(ops)[i] == l[i - p.len()]);
                } else if w.min < 0 && i == 0 {
                } else {
                    assert(p[i] is ReserveStack);
                }
            }
        }
    }
}

/// The code laid out for a block stays inside the VM stack that its own
/// prologue reserves: started with `n` items on a stack that holds no
/// spare cell, where its guard lets it run, it never takes the count below
/// zero nor above the cells held, and every `StoreArg` writes a cell that
/// the prologue's `ReserveStack` made room for.
pub proof fn lemma_block_plan_writes_in_reserved_room(ops: Seq<StackOpModel>, n: int)
    requires
        counts_fit(ops),
        plan_fits(ops),
        -stack_walk(ops).min <= u32::MAX,
        0 <= n,
        guard_admits(block_plan(ops), n),
    ensures
        writes_in_room(block_plan(ops), n, n),
{
    let w = stack_walk(ops);
    lemma_walk_shape(ops);
    lemma_walk_bounds(ops);
    lemma_lower_ops_plain(ops);
    let p = prologue(w);
    if w.min < 0 {
        assert(block_plan(ops)[0] == p[0]);
    }
    lemma_prologue_room(w, n);
    lemma_emitted_code_stays_in_stack(ops, n);
    lemma_plain_room(lower_ops(ops), n, n + w.max);
    lemma_room_concat(p, lower_ops(ops), n, n);
}

} // verus!
