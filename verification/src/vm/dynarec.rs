use rustc_hash::FxHashMap;
use vstd::prelude::*;

use super::analysis::{
    AnalysisModel, AnalysisState, ExternInfo, ReturnCode, StackOpModel, StackOps, Step,
    analysis_step, analyze_block, analyze_from, lemma_step_advances, ops_model,
};
use crate::fx_map::{fx_map_contains_key, fx_map_get, fx_map_insert, fx_map_new};

verus! {

/// The program counters that the ops of a block jump to, in order.
pub open spec fn jump_dests(ops: Seq<StackOpModel>) -> Seq<u32>
    decreases ops.len(),
{
    if ops.len() == 0 {
        Seq::empty()
    } else {
        let rest = jump_dests(ops.drop_last());
        match ops.last() {
            StackOpModel::Jump(destination) => rest.push(destination as u32),
            StackOpModel::JumpIfFalse { destination, .. } => rest.push(destination),
            _ => rest,
        }
    }
}

/// The destinations that have no block yet, in order.
pub open spec fn unvisited(dests: Seq<u32>, blocks: Map<u32, Seq<StackOpModel>>) -> Seq<u32>
    decreases dests.len(),
{
    if dests.len() == 0 {
        Seq::empty()
    } else {
        let rest = unvisited(dests.drop_last(), blocks);
        if blocks.contains_key(dests.last()) {
            rest
        } else {
            rest.push(dests.last())
        }
    }
}

/// Records analysed blocks in order: each goes into the map under its
/// program counter (replacing what was there) and onto the work list.
pub open spec fn commit(
    blocks: Map<u32, Seq<StackOpModel>>,
    targets: Seq<u32>,
    analysed: Seq<(u32, Seq<StackOpModel>)>,
) -> (Map<u32, Seq<StackOpModel>>, Seq<u32>)
    decreases analysed.len(),
{
    if analysed.len() == 0 {
        (blocks, targets)
    } else {
        commit(
            blocks.insert(analysed[0].0, analysed[0].1),
            targets.push(analysed[0].0),
            analysed.drop_first(),
        )
    }
}

/// Where the discovery of a program's blocks stands.
#[verifier::ext_equal]
pub struct DiscoveryModel {
    /// The number of bytecode words.
    pub bytecode_len: nat,
    /// Where the next block of the first pass starts.
    pub linear_pc: nat,
    /// Whether the first pass, which cuts the bytecode into consecutive
    /// blocks, is over.
    pub linear_done: bool,
    /// The error that a block of the first pass ended with, if any.
    pub failed: Option<ReturnCode>,
    /// The start of the block whose analysis was asked for and not yet
    /// handed in.
    pub awaiting: Option<nat>,
    /// Blocks whose jumps are still to be followed, the last one first.
    pub targets: Seq<u32>,
    /// The blocks found so far, by start.
    pub blocks: Map<u32, Seq<StackOpModel>>,
    /// Jump destinations of the block being followed that still have to be
    /// analysed, in order.
    pub pending: Seq<u32>,
    /// Destinations of that block analysed already, with their ops.
    pub analysed: Seq<(u32, Seq<StackOpModel>)>,
}

/// What the discovery asks of the host next.
#[derive(Debug, Clone, Copy, PartialEq, Eq, Structural)]
pub enum DiscoveryRequest {
    /// Analyse the block that starts at this program counter and hand the
    /// result to `supply`.
    Analyze { pc: usize },
    /// Every block is found.
    Finished,
    /// A block of the first pass ended with this error.
    Failed(ReturnCode),
}

/// Follows the jumps of the blocks on the work list until a destination
/// needs analysing or the list runs out.
pub open spec fn closure_next(m: DiscoveryModel) -> (DiscoveryModel, DiscoveryRequest)
    decreases m.targets.len() + m.analysed.len(),
{
    if m.pending.len() > 0 {
        (
            DiscoveryModel { awaiting: Some(m.pending[0] as nat), ..m },
            DiscoveryRequest::Analyze { pc: m.pending[0] as usize },
        )
    } else {
        let (blocks, targets) = commit(m.blocks, m.targets, m.analysed);
        let c = DiscoveryModel { blocks, targets, analysed: Seq::empty(), ..m };
        if targets.len() == 0 {
            (c, DiscoveryRequest::Finished)
        } else {
            proof {
                lemma_commit_len(m.blocks, m.targets, m.analysed);
            }
            let d = targets.last();
            closure_next(
                DiscoveryModel {
                    targets: targets.drop_last(),
                    pending: unvisited(jump_dests(blocks[d]), blocks),
                    ..c
                },
            )
        }
    }
}

/// Committing analysed blocks puts each of them on the work list.
pub proof fn lemma_commit_len(
    blocks: Map<u32, Seq<StackOpModel>>,
    targets: Seq<u32>,
    analysed: Seq<(u32, Seq<StackOpModel>)>,
)
    ensures
        commit(blocks, targets, analysed).1.len() == targets.len() + analysed.len(),
    decreases analysed.len(),
{
    if analysed.len() > 0 {
        lemma_commit_len(
            blocks.insert(analysed[0].0, analysed[0].1),
            targets.push(analysed[0].0),
            analysed.drop_first(),
        );
    }
}

/// The next request of the discovery, when no analysis is outstanding.
pub open spec fn discovery_next(m: DiscoveryModel) -> (DiscoveryModel, DiscoveryRequest) {
    if m.failed is Some {
        (m, DiscoveryRequest::Failed(m.failed->0))
    } else if !m.linear_done && m.linear_pc / 4 < m.bytecode_len {
        (
            DiscoveryModel { awaiting: Some(m.linear_pc), ..m },
            DiscoveryRequest::Analyze { pc: m.linear_pc as usize },
        )
    } else {
        closure_next(DiscoveryModel { linear_done: true, ..m })
    }
}

/// Whether a block of the first pass ends with an error.
pub open spec fn ends_in_error(ops: Seq<StackOpModel>) -> bool {
    ops.len() > 0 && ops.last() is Return && !(ops.last()->Return_0 is Continue)
}

/// Takes the analysis of the block asked for: its ops and where it ends.
pub open spec fn discovery_supply(m: DiscoveryModel, ops: Seq<StackOpModel>, next_pc: nat) -> DiscoveryModel {
    let start = m.awaiting->0;
    if !m.linear_done {
        if ends_in_error(ops) {
            DiscoveryModel { failed: Some(ops.last()->Return_0), awaiting: None, ..m }
        } else {
            DiscoveryModel {
                blocks: m.blocks.insert(start as u32, ops),
                targets: m.targets.push(start as u32),
                linear_pc: next_pc,
                awaiting: None,
                ..m
            }
        }
    } else {
        DiscoveryModel {
            analysed: m.analysed.push((m.pending[0], ops)),
            pending: m.pending.drop_first(),
            awaiting: None,
            ..m
        }
    }
}

/// The values of a map of blocks.
pub open spec fn blocks_model(m: Map<u32, Vec<StackOps>>) -> Map<u32, Seq<StackOpModel>> {
    m.map_values(|ops: Vec<StackOps>| ops_model(ops@))
}

/// Finds the blocks of a program: a first pass cuts the bytecode into
/// consecutive blocks from the start, then the jumps of every block found
/// are followed, last found first, and each destination that has no block
/// yet is analysed as the start of one. The host analyses each block that
/// the discovery asks for.
pub struct BlockDiscovery {
    bytecode_len: usize,
    linear_pc: usize,
    linear_done: bool,
    failed: Option<ReturnCode>,
    awaiting: Option<usize>,
    jump_targets: Vec<u32>,
    block_ops: FxHashMap<u32, Vec<StackOps>>,
    pending: Vec<u32>,
    pending_at: usize,
    analysed: Vec<(u32, Vec<StackOps>)>,
}

/// The values of analysed blocks.
pub open spec fn analysed_model(a: Seq<(u32, Vec<StackOps>)>) -> Seq<(u32, Seq<StackOpModel>)> {
    a.map_values(|e: (u32, Vec<StackOps>)| (e.0, ops_model(e.1@)))
}

impl View for BlockDiscovery {
    type V = DiscoveryModel;

    closed spec fn view(&self) -> DiscoveryModel {
        DiscoveryModel {
            bytecode_len: self.bytecode_len as nat,
            linear_pc: self.linear_pc as nat,
            linear_done: self.linear_done,
            failed: self.failed,
            awaiting: match self.awaiting {
                Some(pc) => Some(pc as nat),
                None => None,
            },
            targets: self.jump_targets@,
            blocks: blocks_model(self.block_ops@),
            pending: self.pending@.skip(self.pending_at as int),
            analysed: analysed_model(self.analysed@),
        }
    }
}

impl BlockDiscovery {
    /// The cursor into the pending destinations stays inside them.
    pub closed spec fn wf(&self) -> bool {
        &&& self.pending_at <= self.pending@.len()
        &&& forall|i: int|
            0 <= i < self.jump_targets@.len() ==> self.block_ops@.contains_key(
                #[trigger] self.jump_targets@[i],
            )
        &&& (self.awaiting is Some && self.linear_done) ==> self.pending_at < self.pending@.len()
    }

    /// Starts the discovery of the blocks of a program of `bytecode_len`
    /// words.
    pub fn new(bytecode_len: usize) -> (r: Self)
        ensures
            r.wf(),
            discovery_inv(r@),
            progress_inv(r@),
            r@ == (DiscoveryModel {
                bytecode_len: bytecode_len as nat,
                linear_pc: 0,
                linear_done: false,
                failed: None,
                awaiting: None,
                targets: Seq::empty(),
                blocks: Map::empty(),
                pending: Seq::empty(),
                analysed: Seq::empty(),
            }),
    {
        let r = BlockDiscovery {
            bytecode_len,
            linear_pc: 0,
            linear_done: false,
            failed: None,
            awaiting: None,
            jump_targets: Vec::new(),
            block_ops: fx_map_new(),
            pending: Vec::new(),
            pending_at: 0,
            analysed: Vec::new(),
        };
        assert(r@ =~= DiscoveryModel {
            bytecode_len: bytecode_len as nat,
            linear_pc: 0,
            linear_done: false,
            failed: None,
            awaiting: None,
            targets: Seq::empty(),
            blocks: Map::empty(),
            pending: Seq::empty(),
            analysed: Seq::empty(),
        });
        r
    }

    /// Starts the discovery of the blocks reachable from `pc` in a program of
    /// `bytecode_len` words: no first pass, `pc` is the one destination to
    /// analyse.
    pub fn from_entry(bytecode_len: usize, pc: u32) -> (r: Self)
        ensures
            r.wf(),
            discovery_inv(r@),
            progress_inv(r@),
            kept_track(r@, pc),
            r@ == (DiscoveryModel {
                bytecode_len: bytecode_len as nat,
                linear_pc: 0,
                linear_done: true,
                failed: None,
                awaiting: None,
                targets: Seq::empty(),
                blocks: Map::empty(),
                pending: seq![pc],
                analysed: Seq::empty(),
            }),
    {
        let r = BlockDiscovery {
            bytecode_len,
            linear_pc: 0,
            linear_done: true,
            failed: None,
            awaiting: None,
            jump_targets: Vec::new(),
            block_ops: fx_map_new(),
            pending: vec![pc],
            pending_at: 0,
            analysed: Vec::new(),
        };
        assert(r@ =~= DiscoveryModel {
            bytecode_len: bytecode_len as nat,
            linear_pc: 0,
            linear_done: true,
            failed: None,
            awaiting: None,
            targets: Seq::empty(),
            blocks: Map::empty(),
            pending: seq![pc],
            analysed: Seq::empty(),
        });
        assert(r@.pending[0] == pc);
        r
    }

    /// Records the analysed destinations of the block being followed, in
    /// order, in the map and on the work list.
    fn commit_analysed(&mut self)
        requires
            old(self).wf(),
        ensures
            final(self).wf(),
            final(self)@ == (DiscoveryModel {
                blocks: commit(old(self)@.blocks, old(self)@.targets, old(self)@.analysed).0,
                targets: commit(old(self)@.blocks, old(self)@.targets, old(self)@.analysed).1,
                analysed: Seq::empty(),
                ..old(self)@
            }),
    {
        let ghost goal = commit(self@.blocks, self@.targets, self@.analysed);
        let mut list: Vec<(u32, Vec<StackOps>)> = Vec::new();
        std::mem::swap(&mut self.analysed, &mut list);
        while list.len() > 0
            invariant
                self.wf(),
                self.analysed@.len() == 0,
                self@.linear_pc == old(self)@.linear_pc,
                self@.linear_done == old(self)@.linear_done,
                self@.failed == old(self)@.failed,
                self@.awaiting == old(self)@.awaiting,
                self@.bytecode_len == old(self)@.bytecode_len,
                self@.pending == old(self)@.pending,
                commit(self@.blocks, self@.targets, analysed_model(list@)) == goal,
            decreases list.len(),
        {
            let ghost before = analysed_model(list@);
            let (destination, ops) = list.remove(0);
            proof {
                assert(analysed_model(list@) =~= before.drop_first());
                assert(before[0] == (destination, ops_model(ops@)));
                assert(blocks_model(self.block_ops@.insert(destination, ops)) =~= blocks_model(
                    self.block_ops@,
                ).insert(destination, ops_model(ops@)));
            }
            fx_map_insert(&mut self.block_ops, destination, ops);
            self.jump_targets.push(destination);
        }
        assert(analysed_model(list@) =~= Seq::empty());
        assert(self.analysed@ =~= Seq::<(u32, Vec<StackOps>)>::empty());
        assert(self@ =~= DiscoveryModel {
            blocks: goal.0,
            targets: goal.1,
            analysed: Seq::empty(),
            ..old(self)@
        });
    }

    /// Starts following the jumps of the block at `destination`: its jump
    /// destinations that have no block yet become the pending ones.
    fn follow(&mut self, destination: u32)
        requires
            old(self).wf(),
            old(self).block_ops@.contains_key(destination),
            old(self)@.awaiting is None,
        ensures
            final(self).wf(),
            final(self)@ == (DiscoveryModel {
                pending: unvisited(jump_dests(old(self)@.blocks[destination]), old(self)@.blocks),
                ..old(self)@
            }),
    {
        let ghost blocks = self@.blocks;
        let dests = match fx_map_get(&self.block_ops, destination) {
            Some(ops) => unvisited_dests(ops, &self.block_ops),
            None => Vec::new(),
        };
        self.pending = dests;
        self.pending_at = 0;
        assert(self@.pending =~= self.pending@);
        assert(self@ =~= DiscoveryModel {
            pending: unvisited(jump_dests(old(self)@.blocks[destination]), old(self)@.blocks),
            ..old(self)@
        });
    }

    /// The next thing the discovery asks of the host.
    pub fn next(&mut self) -> (r: DiscoveryRequest)
        requires
            old(self).wf(),
            old(self)@.awaiting is None,
        ensures
            final(self).wf(),
            (final(self)@, r) == discovery_next(old(self)@),
            discovery_inv(old(self)@) ==> discovery_inv(final(self)@),
            discovery_inv(old(self)@) && r == DiscoveryRequest::Finished ==> all_jumps_resolved(
                final(self)@.blocks,
            ),
            forall|pc: u32| #[trigger]
                kept_track(old(self)@, pc) ==> kept_track(final(self)@, pc) && (r
                    == DiscoveryRequest::Finished ==> final(self)@.blocks.contains_key(pc)),
    {
        proof {
            if discovery_inv(self@) {
                lemma_discovery_next(self@);
            }
            assert forall|pc: u32| #[trigger] kept_track(self@, pc) implies kept_track(
                discovery_next(self@).0,
                pc,
            ) && (discovery_next(self@).1 == DiscoveryRequest::Finished ==> discovery_next(
                self@,
            ).0.blocks.contains_key(pc)) by {
                lemma_discovery_next_keeps_track(self@, pc);
            }
        }
        if let Some(reason) = self.failed {
            return DiscoveryRequest::Failed(reason);
        }
        if !self.linear_done && self.linear_pc / 4 < self.bytecode_len {
            self.awaiting = Some(self.linear_pc);
            assert(self@ =~= DiscoveryModel { awaiting: Some(old(self)@.linear_pc), ..old(self)@ });
            return DiscoveryRequest::Analyze { pc: self.linear_pc };
        }
        self.linear_done = true;
        assert(self@ =~= DiscoveryModel { linear_done: true, ..old(self)@ });
        assert(discovery_next(old(self)@) == closure_next(
            DiscoveryModel { linear_done: true, ..old(self)@ },
        ));
        loop
            invariant
                self.wf(),
                discovery_next(old(self)@) == closure_next(
                    DiscoveryModel { linear_done: true, ..old(self)@ },
                ),
                discovery_inv(old(self)@) ==> discovery_inv(discovery_next(old(self)@).0),
                discovery_inv(old(self)@) && discovery_next(old(self)@).1
                    == DiscoveryRequest::Finished ==> all_jumps_resolved(
                    discovery_next(old(self)@).0.blocks,
                ),
                forall|pc: u32| #[trigger]
                    kept_track(old(self)@, pc) ==> kept_track(discovery_next(old(self)@).0, pc)
                        && (discovery_next(old(self)@).1 == DiscoveryRequest::Finished
                        ==> discovery_next(old(self)@).0.blocks.contains_key(pc)),
                self@.awaiting is None,
                self@.failed is None,
                self@.linear_done,
                closure_next(self@) == closure_next(DiscoveryModel { linear_done: true, ..old(self)@ }),
            decreases self@.targets.len() + self@.analysed.len(),
        {
            if self.pending_at < self.pending.len() {
                let pc = self.pending[self.pending_at];
                proof {
                    assert(self@.pending[0] == pc);
                }
                self.awaiting = Some(pc as usize);
                let ghost m = closure_next(DiscoveryModel { linear_done: true, ..old(self)@ });
                assert(self@ =~= m.0);
                return DiscoveryRequest::Analyze { pc: pc as usize };
            }
            let ghost before = self@;
            proof {
                lemma_commit_len(before.blocks, before.targets, before.analysed);
            }
            self.commit_analysed();
            match self.jump_targets.pop() {
                None => {
                    assert(self@ =~= closure_next(before).0);
                    return DiscoveryRequest::Finished;
                },
                Some(destination) => {
                    proof {
                        assert(self.block_ops@.contains_key(destination));
                    }
                    self.follow(destination);
                    proof {
                        let c = commit(before.blocks, before.targets, before.analysed);
                        assert(destination == c.1.last());
                        assert(self@ =~= DiscoveryModel {
                            targets: c.1.drop_last(),
                            pending: unvisited(jump_dests(c.0[destination]), c.0),
                            blocks: c.0,
                            analysed: Seq::empty(),
                            ..before
                        });
                    }
                },
            }
        }
    }

    /// Takes the analysis of the block that `next` asked for: its ops and
    /// the program counter after it.
    pub fn supply(&mut self, ops: Vec<StackOps>, next_pc: usize)
        requires
            old(self).wf(),
            old(self)@.awaiting is Some,
        ensures
            final(self).wf(),
            final(self)@ == discovery_supply(old(self)@, ops_model(ops@), next_pc as nat),
            discovery_inv(old(self)@) ==> discovery_inv(final(self)@),
            forall|pc: u32| #[trigger] kept_track(old(self)@, pc) ==> kept_track(final(self)@, pc),
    {
        proof {
            if discovery_inv(self@) {
                lemma_discovery_supply(self@, ops_model(ops@), next_pc as nat);
            }
            assert forall|pc: u32| #[trigger] kept_track(self@, pc) implies kept_track(
                discovery_supply(self@, ops_model(ops@), next_pc as nat),
                pc,
            ) by {
                lemma_discovery_supply_keeps_track(self@, ops_model(ops@), next_pc as nat, pc);
            }
        }
        let start = match self.awaiting {
            Some(pc) => pc,
            None => 0,
        };
        let ghost m = ops_model(ops@);
        if !self.linear_done {
            let n = ops.len();
            let error = if n > 0 {
                match &ops[n - 1] {
                    StackOps::Return(reason) => match reason {
                        ReturnCode::Continue(_) => None,
                        _ => Some(*reason),
                    },
                    _ => None,
                }
            } else {
                None
            };
            proof {
                if n > 0 {
                    assert(m.last() == ops@[n - 1]@);
                }
            }
            self.awaiting = None;
            if let Some(reason) = error {
                self.failed = Some(reason);
                assert(self@ =~= discovery_supply(old(self)@, m, next_pc as nat));
                return;
            }
            proof {
                assert(blocks_model(self.block_ops@.insert(start as u32, ops)) =~= blocks_model(
                    self.block_ops@,
                ).insert(start as u32, m));
            }
            fx_map_insert(&mut self.block_ops, start as u32, ops);
            self.jump_targets.push(start as u32);
            self.linear_pc = next_pc;
            assert(self@ =~= discovery_supply(old(self)@, m, next_pc as nat));
        } else {
            let destination = self.pending[self.pending_at];
            proof {
                assert(analysed_model(self.analysed@.push((destination, ops))) =~= analysed_model(
                    self.analysed@,
                ).push((destination, m)));
                assert(self.pending@.skip(self.pending_at + 1) =~= self.pending@.skip(
                    self.pending_at as int,
                ).drop_first());
            }
            assert(self.pending_at < self.pending.len());
            self.analysed.push((destination, ops));
            self.pending_at = self.pending_at + 1;
            self.awaiting = None;
            assert(self@ =~= discovery_supply(old(self)@, m, next_pc as nat));
        }
    }

    /// The blocks found, by start.
    pub fn into_blocks(self) -> (r: FxHashMap<u32, Vec<StackOps>>)
        ensures
            blocks_model(r@) == self@.blocks,
    {
        self.block_ops
    }
}


/// The destinations of these ops that have no block in `blocks`.
fn unvisited_dests(ops: &Vec<StackOps>, blocks: &FxHashMap<u32, Vec<StackOps>>) -> (r: Vec<u32>)
    ensures
        r@ == unvisited(jump_dests(ops_model(ops@)), blocks_model(blocks@)),
{
    let ghost m = ops_model(ops@);
    let ghost b = blocks_model(blocks@);
    let mut dests: Vec<u32> = Vec::new();
    let mut i: usize = 0;
    assert(m.take(0) =~= Seq::<StackOpModel>::empty());
    while i < ops.len()
        invariant
            m == ops_model(ops@),
            b == blocks_model(blocks@),
            i <= ops@.len(),
            dests@ == unvisited(jump_dests(m.take(i as int)), b),
        decreases ops.len() - i,
    {
        let ghost before = jump_dests(m.take(i as int));
        proof {
            assert(m.take(i + 1).drop_last() =~= m.take(i as int));
            assert(m.take(i + 1).last() == ops@[i as int]@);
        }
        let dest = match &ops[i] {
            StackOps::Jump(destination) => Some(*destination as u32),
            StackOps::JumpIfFalse { destination, .. } => Some(*destination),
            _ => None,
        };
        if let Some(d) = dest {
            proof {
                assert(jump_dests(m.take(i + 1)) == before.push(d));
                assert(before.push(d).drop_last() =~= before);
            }
            if !fx_map_contains_key(blocks, d) {
                dests.push(d);
            }
        }
        i = i + 1;
    }
    assert(m.take(i as int) =~= m);
    dests
}


/// The starts of analysed blocks, in order.
pub open spec fn analysed_starts(a: Seq<(u32, Seq<StackOpModel>)>) -> Seq<u32> {
    a.map_values(|e: (u32, Seq<StackOpModel>)| e.0)
}

/// Every jump destination of every block has a block.
pub open spec fn all_jumps_resolved(blocks: Map<u32, Seq<StackOpModel>>) -> bool {
    forall|k: u32, j: int|
        #![trigger blocks[k], jump_dests(blocks[k])[j]]
        blocks.contains_key(k) && 0 <= j < jump_dests(blocks[k]).len() ==> blocks.contains_key(
            jump_dests(blocks[k])[j],
        )
}

/// The jumps of the block at `k` are followed: each destination has a
/// block, or is pending, or was analysed for the block being followed.
pub open spec fn followed(m: DiscoveryModel, k: u32) -> bool {
    forall|j: int|
        #![trigger jump_dests(m.blocks[k])[j]]
        0 <= j < jump_dests(m.blocks[k]).len() ==> {
            let d = jump_dests(m.blocks[k])[j];
            m.blocks.contains_key(d) || m.pending.contains(d) || analysed_starts(
                m.analysed,
            ).contains(d)
        }
}

/// What the discovery keeps true: every block on the work list is in the
/// map, and every block in the map is on the work list or followed.
pub open spec fn discovery_inv(m: DiscoveryModel) -> bool {
    &&& forall|i: int| 0 <= i < m.targets.len() ==> m.blocks.contains_key(#[trigger] m.targets[i])
    &&& forall|k: u32| #[trigger] m.blocks.contains_key(k) ==> m.targets.contains(k) || followed(m, k)
}

proof fn lemma_commit(
    blocks: Map<u32, Seq<StackOpModel>>,
    targets: Seq<u32>,
    a: Seq<(u32, Seq<StackOpModel>)>,
)
    ensures
        commit(blocks, targets, a).1 == targets + analysed_starts(a),
        forall|k: u32|
            #[trigger] commit(blocks, targets, a).0.contains_key(k) <==> blocks.contains_key(k)
                || analysed_starts(a).contains(k),
        forall|k: u32|
            !analysed_starts(a).contains(k) && blocks.contains_key(k) ==> #[trigger] commit(
                blocks,
                targets,
                a,
            ).0[k] == blocks[k],
    decreases a.len(),
{
    if a.len() > 0 {
        let b2 = blocks.insert(a[0].0, a[0].1);
        let t2 = targets.push(a[0].0);
        let rest = a.drop_first();
        lemma_commit(b2, t2, rest);
        assert(analysed_starts(a) =~= seq![a[0].0] + analysed_starts(rest));
        assert(t2 + analysed_starts(rest) =~= targets + analysed_starts(a));
        assert forall|k: u32| analysed_starts(rest).contains(k) implies analysed_starts(a).contains(
            k,
        ) by {
            let j = choose|j: int| 0 <= j < analysed_starts(rest).len() && analysed_starts(rest)[j] == k;
            assert(analysed_starts(a)[j + 1] == k);
        }
        assert forall|k: u32| analysed_starts(a).contains(k) && k != a[0].0 implies analysed_starts(
            rest,
        ).contains(k) by {
            let j = choose|j: int| 0 <= j < analysed_starts(a).len() && analysed_starts(a)[j] == k;
            assert(j != 0);
            assert(analysed_starts(rest)[j - 1] == k);
        }
        assert(analysed_starts(a)[0] == a[0].0);
    } else {
        assert(targets + analysed_starts(a) =~= targets);
    }
}

proof fn lemma_unvisited_contains(dests: Seq<u32>, blocks: Map<u32, Seq<StackOpModel>>, j: int)
    requires
        0 <= j < dests.len(),
        !blocks.contains_key(dests[j]),
    ensures
        unvisited(dests, blocks).contains(dests[j]),
    decreases dests.len(),
{
    let rest = unvisited(dests.drop_last(), blocks);
    if j == dests.len() - 1 {
        assert(rest.push(dests.last())[rest.len() as int] == dests[j]);
    } else {
        lemma_unvisited_contains(dests.drop_last(), blocks, j);
        let i = choose|i: int| 0 <= i < rest.len() && rest[i] == dests[j];
        if !blocks.contains_key(dests.last()) {
            assert(rest.push(dests.last())[i] == dests[j]);
        }
    }
}

proof fn lemma_closure_next_inv(m: DiscoveryModel)
    requires
        discovery_inv(m),
    ensures
        discovery_inv(closure_next(m).0),
        closure_next(m).1 == DiscoveryRequest::Finished ==> all_jumps_resolved(
            closure_next(m).0.blocks,
        ),
    decreases m.targets.len() + m.analysed.len(),
{
    if m.pending.len() > 0 {
        let n = DiscoveryModel { awaiting: Some(m.pending[0] as nat), ..m };
        assert forall|k: u32| #[trigger] n.blocks.contains_key(k) implies n.targets.contains(k)
            || followed(n, k) by {
            if !m.targets.contains(k) {
                assert(followed(m, k));
            }
        }
    } else {
        lemma_commit(m.blocks, m.targets, m.analysed);
        lemma_commit_len(m.blocks, m.targets, m.analysed);
        let (blocks, targets) = commit(m.blocks, m.targets, m.analysed);
        let c = DiscoveryModel { blocks, targets, analysed: Seq::empty(), ..m };
        assert(analysed_starts(c.analysed) =~= Seq::<u32>::empty());
        assert forall|i: int| 0 <= i < c.targets.len() implies c.blocks.contains_key(
            #[trigger] c.targets[i],
        ) by {
            if i < m.targets.len() {
                assert(c.targets[i] == m.targets[i]);
            } else {
                assert(c.targets[i] == analysed_starts(m.analysed)[i - m.targets.len()]);
                assert(analysed_starts(m.analysed).contains(c.targets[i]));
            }
        }
        assert forall|k: u32| #[trigger] c.blocks.contains_key(k) implies c.targets.contains(k)
            || followed(c, k) by {
            if analysed_starts(m.analysed).contains(k) {
                let j = choose|j: int|
                    0 <= j < analysed_starts(m.analysed).len() && analysed_starts(m.analysed)[j]
                        == k;
                assert(c.targets[m.targets.len() + j] == k);
            } else if m.targets.contains(k) {
                let j = choose|j: int| 0 <= j < m.targets.len() && m.targets[j] == k;
                assert(c.targets[j] == k);
            } else {
                assert(followed(m, k));
                assert(c.blocks[k] == m.blocks[k]);
                assert forall|j: int|
                    #![trigger jump_dests(c.blocks[k])[j]]
                    0 <= j < jump_dests(c.blocks[k]).len() implies {
                    let d = jump_dests(c.blocks[k])[j];
                    c.blocks.contains_key(d) || c.pending.contains(d) || analysed_starts(
                        c.analysed,
                    ).contains(d)
                } by {
                    let d = jump_dests(m.blocks[k])[j];
                    assert(m.blocks.contains_key(d) || m.pending.contains(d) || analysed_starts(
                        m.analysed,
                    ).contains(d));
                    assert(!m.pending.contains(d));
                }
            }
        }
        assert(discovery_inv(c));
        if targets.len() == 0 {
            assert forall|k: u32, j: int|
                #![trigger c.blocks[k], jump_dests(c.blocks[k])[j]]
                c.blocks.contains_key(k) && 0 <= j < jump_dests(c.blocks[k]).len()
                    implies c.blocks.contains_key(jump_dests(c.blocks[k])[j]) by {
                assert(!c.targets.contains(k));
                assert(followed(c, k));
                let d = jump_dests(c.blocks[k])[j];
                assert(!c.pending.contains(d));
                assert(!analysed_starts(c.analysed).contains(d));
            }
        } else {
            let d = targets.last();
            let n = DiscoveryModel {
                targets: targets.drop_last(),
                pending: unvisited(jump_dests(blocks[d]), blocks),
                ..c
            };
            assert(analysed_starts(n.analysed) =~= Seq::<u32>::empty());
            assert forall|i: int| 0 <= i < n.targets.len() implies n.blocks.contains_key(
                #[trigger] n.targets[i],
            ) by {
                assert(n.targets[i] == c.targets[i]);
            }
            assert forall|k: u32| #[trigger] n.blocks.contains_key(k) implies n.targets.contains(k)
                || followed(n, k) by {
                if k == d {
                    assert forall|j: int|
                        #![trigger jump_dests(n.blocks[k])[j]]
                        0 <= j < jump_dests(n.blocks[k]).len() implies {
                        let e = jump_dests(n.blocks[k])[j];
                        n.blocks.contains_key(e) || n.pending.contains(e) || analysed_starts(
                            n.analysed,
                        ).contains(e)
                    } by {
                        let e = jump_dests(n.blocks[k])[j];
                        if !n.blocks.contains_key(e) {
                            lemma_unvisited_contains(jump_dests(blocks[d]), blocks, j);
                        }
                    }
                } else if c.targets.contains(k) {
                    let j = choose|j: int| 0 <= j < c.targets.len() && c.targets[j] == k;
                    assert(j != c.targets.len() - 1);
                    assert(n.targets[j] == k);
                } else {
                    assert(followed(c, k));
                    assert forall|j: int|
                        #![trigger jump_dests(n.blocks[k])[j]]
                        0 <= j < jump_dests(n.blocks[k]).len() implies {
                        let e = jump_dests(n.blocks[k])[j];
                        n.blocks.contains_key(e) || n.pending.contains(e) || analysed_starts(
                            n.analysed,
                        ).contains(e)
                    } by {
                        let e = jump_dests(c.blocks[k])[j];
                        assert(c.blocks.contains_key(e) || c.pending.contains(e) || analysed_starts(
                            c.analysed,
                        ).contains(e));
                    }
                }
            }
            lemma_closure_next_inv(n);
        }
    }
}

/// The discovery starts out keeping its invariant.
pub proof fn lemma_discovery_starts_inv(bytecode_len: nat)
    ensures
        discovery_inv(
            DiscoveryModel {
                bytecode_len,
                linear_pc: 0,
                linear_done: false,
                failed: None,
                awaiting: None,
                targets: Seq::empty(),
                blocks: Map::empty(),
                pending: Seq::empty(),
                analysed: Seq::empty(),
            },
        ),
{
}

/// Asking for the next request keeps the invariant of the discovery, and
/// when the discovery finishes every jump of every block it found lands on
/// a block it found: the recompiled code has a label for every jump.
pub proof fn lemma_discovery_next(m: DiscoveryModel)
    requires
        discovery_inv(m),
    ensures
        discovery_inv(discovery_next(m).0),
        discovery_next(m).1 == DiscoveryRequest::Finished ==> all_jumps_resolved(
            discovery_next(m).0.blocks,
        ),
{
    if m.failed is None && !(!m.linear_done && m.linear_pc / 4 < m.bytecode_len) {
        let n = DiscoveryModel { linear_done: true, ..m };
        assert forall|k: u32| #[trigger] n.blocks.contains_key(k) implies n.targets.contains(k)
            || followed(n, k) by {
            if !m.targets.contains(k) {
                assert(followed(m, k));
            }
        }
        lemma_closure_next_inv(n);
    } else if m.failed is None {
        let n = DiscoveryModel { awaiting: Some(m.linear_pc), ..m };
        assert forall|k: u32| #[trigger] n.blocks.contains_key(k) implies n.targets.contains(k)
            || followed(n, k) by {
            if !m.targets.contains(k) {
                assert(followed(m, k));
            }
        }
    }
}

/// Handing in an analysis keeps the invariant of the discovery.
pub proof fn lemma_discovery_supply(m: DiscoveryModel, ops: Seq<StackOpModel>, next_pc: nat)
    requires
        discovery_inv(m),
        m.linear_done ==> m.pending.len() > 0,
    ensures
        discovery_inv(discovery_supply(m, ops, next_pc)),
{
    let n = discovery_supply(m, ops, next_pc);
    let start = m.awaiting->0;
    if !m.linear_done {
        if !ends_in_error(ops) {
            assert forall|i: int| 0 <= i < n.targets.len() implies n.blocks.contains_key(
                #[trigger] n.targets[i],
            ) by {
                if i < m.targets.len() {
                    assert(n.targets[i] == m.targets[i]);
                }
            }
            assert forall|k: u32| #[trigger] n.blocks.contains_key(k) implies n.targets.contains(k)
                || followed(n, k) by {
                if k == start as u32 {
                    assert(n.targets[m.targets.len() as int] == k);
                } else if m.targets.contains(k) {
                    let j = choose|j: int| 0 <= j < m.targets.len() && m.targets[j] == k;
                    assert(n.targets[j] == k);
                } else {
                    assert(followed(m, k));
                    assert forall|j: int|
                        #![trigger jump_dests(n.blocks[k])[j]]
                        0 <= j < jump_dests(n.blocks[k]).len() implies {
                        let e = jump_dests(n.blocks[k])[j];
                        n.blocks.contains_key(e) || n.pending.contains(e) || analysed_starts(
                            n.analysed,
                        ).contains(e)
                    } by {
                        let e = jump_dests(m.blocks[k])[j];
                        assert(m.blocks.contains_key(e) || m.pending.contains(e) || analysed_starts(
                            m.analysed,
                        ).contains(e));
                    }
                }
            }
        } else {
            assert forall|k: u32| #[trigger] n.blocks.contains_key(k) implies n.targets.contains(k)
                || followed(n, k) by {
                if !m.targets.contains(k) {
                    assert(followed(m, k));
                }
            }
        }
    } else {
        let d0 = m.pending[0];
        assert(analysed_starts(n.analysed) =~= analysed_starts(m.analysed).push(d0));
        assert forall|k: u32| #[trigger] n.blocks.contains_key(k) implies n.targets.contains(k)
            || followed(n, k) by {
            if !m.targets.contains(k) {
                assert(followed(m, k));
                assert forall|j: int|
                    #![trigger jump_dests(n.blocks[k])[j]]
                    0 <= j < jump_dests(n.blocks[k]).len() implies {
                    let e = jump_dests(n.blocks[k])[j];
                    n.blocks.contains_key(e) || n.pending.contains(e) || analysed_starts(
                        n.analysed,
                    ).contains(e)
                } by {
                    let e = jump_dests(m.blocks[k])[j];
                    if m.pending.contains(e) {
                        let i = choose|i: int| 0 <= i < m.pending.len() && m.pending[i] == e;
                        if i == 0 {
                            assert(analysed_starts(n.analysed)[m.analysed.len() as int] == e);
                        } else {
                            assert(n.pending[i - 1] == e);
                        }
                    } else if analysed_starts(m.analysed).contains(e) {
                        let i = choose|i: int|
                            0 <= i < analysed_starts(m.analysed).len() && analysed_starts(
                                m.analysed,
                            )[i] == e;
                        assert(analysed_starts(n.analysed)[i] == e);
                    }
                }
            }
        }
    }
}


/// What keeps the discovery moving towards its end: its blocks are finitely
/// many, no destination pending or analysed already has a block, and the
/// first pass follows no jump yet.
pub open spec fn progress_inv(m: DiscoveryModel) -> bool {
    &&& m.blocks.dom().finite()
    &&& forall|i: int| 0 <= i < m.pending.len() ==> !m.blocks.contains_key(#[trigger] m.pending[i])
    &&& forall|i: int|
        0 <= i < m.analysed.len() ==> !m.blocks.contains_key(#[trigger] m.analysed[i].0)
    &&& !m.linear_done ==> m.pending.len() == 0 && m.analysed.len() == 0
}

/// How far the discovery is from its end: what is left of the first pass,
/// the program counters that have no block yet, the blocks whose jumps are
/// still to be followed, and the destinations still to be analysed for the
/// block being followed. A discovery that failed is at its end.
pub open spec fn discovery_measure(m: DiscoveryModel) -> (nat, nat, nat, nat) {
    if m.failed is Some {
        (0, 0, 0, 0)
    } else {
        (
            if !m.linear_done && m.linear_pc <= 4 * m.bytecode_len + 4 {
                (4 * m.bytecode_len + 4 - m.linear_pc) as nat
            } else {
                0
            },
            (0x1_0000_0000 - m.blocks.dom().len()) as nat,
            m.targets.len(),
            m.pending.len(),
        )
    }
}

/// `a` comes before `b` in lexicographic order.
pub open spec fn lex_lt(a: (nat, nat, nat, nat), b: (nat, nat, nat, nat)) -> bool {
    ||| a.0 < b.0
    ||| a.0 == b.0 && a.1 < b.1
    ||| a.0 == b.0 && a.1 == b.1 && a.2 < b.2
    ||| a.0 == b.0 && a.1 == b.1 && a.2 == b.2 && a.3 < b.3
}

proof fn lemma_u32_keys_bounded(s: Set<u32>)
    requires
        s.finite(),
    ensures
        s.len() <= 0x1_0000_0000,
{
    let f = |k: u32| k as int;
    let y = s.map(f);
    assert(vstd::relations::injective_on(f, s));
    vstd::set_lib::lemma_map_size(s, y, f);
    vstd::set_lib::lemma_int_range(0, 0x1_0000_0000);
    assert(y.subset_of(vstd::set_lib::set_int_range(0, 0x1_0000_0000)));
    vstd::set_lib::lemma_len_subset(y, vstd::set_lib::set_int_range(0, 0x1_0000_0000));
}

proof fn lemma_unvisited_unvisited(dests: Seq<u32>, blocks: Map<u32, Seq<StackOpModel>>)
    ensures
        forall|i: int|
            0 <= i < unvisited(dests, blocks).len() ==> !blocks.contains_key(
                #[trigger] unvisited(dests, blocks)[i],
            ),
    decreases dests.len(),
{
    if dests.len() > 0 {
        lemma_unvisited_unvisited(dests.drop_last(), blocks);
        let rest = unvisited(dests.drop_last(), blocks);
        assert forall|i: int| 0 <= i < unvisited(dests, blocks).len() implies !blocks.contains_key(
            #[trigger] unvisited(dests, blocks)[i],
        ) by {
            if i < rest.len() {
                assert(unvisited(dests, blocks)[i] == rest[i]);
            }
        }
    }
}

/// Following the work list until a destination needs analysing keeps the
/// discovery moving and does not move it back.
proof fn lemma_closure_next_progress(m: DiscoveryModel)
    requires
        progress_inv(m),
        m.linear_done,
        m.failed is None,
    ensures
        progress_inv(closure_next(m).0),
        closure_next(m).0.linear_done,
        closure_next(m).0.failed is None,
        closure_next(m).1 is Analyze ==> closure_next(m).0.pending.len() > 0
            && closure_next(m).0.awaiting == Some(closure_next(m).0.pending[0] as nat) && (
        discovery_measure(closure_next(m).0) == discovery_measure(m) || lex_lt(
            discovery_measure(closure_next(m).0),
            discovery_measure(m),
        )),
    decreases m.targets.len() + m.analysed.len(),
{
    if m.pending.len() == 0 {
        lemma_commit(m.blocks, m.targets, m.analysed);
        lemma_commit_len(m.blocks, m.targets, m.analysed);
        let (blocks, targets) = commit(m.blocks, m.targets, m.analysed);
        let c = DiscoveryModel { blocks, targets, analysed: Seq::empty(), ..m };
        let starts = analysed_starts(m.analysed);
        assert(blocks.dom() =~= m.blocks.dom() + starts.to_set());
        starts.lemma_cardinality_of_set();
        lemma_u32_keys_bounded(blocks.dom());
        lemma_u32_keys_bounded(m.blocks.dom());
        if m.analysed.len() > 0 {
            let k = m.analysed[0].0;
            assert(starts[0] == k);
            assert(blocks.dom().contains(k));
            assert(!m.blocks.dom().contains(k));
            vstd::set_lib::lemma_len_subset(m.blocks.dom(), blocks.dom().remove(k));
        } else {
            assert(blocks.dom() =~= m.blocks.dom());
        }
        if targets.len() > 0 {
            let d = targets.last();
            let n = DiscoveryModel {
                targets: targets.drop_last(),
                pending: unvisited(jump_dests(blocks[d]), blocks),
                ..c
            };
            lemma_unvisited_unvisited(jump_dests(blocks[d]), blocks);
            assert(lex_lt(discovery_measure(n), discovery_measure(m)));
            lemma_closure_next_progress(n);
        }
    }
}

/// Each round of the discovery (a request to analyse, then the analysis
/// handed in) brings it closer to its end, provided the first pass moves
/// forward (each block of it ends after it starts, as
/// `lemma_block_progress` shows of the analysis): the measure, a tuple of
/// naturals, decreases in lexicographic order, so the rounds come to an end
/// and `next` then answers `Finished` or `Failed`.
pub proof fn lemma_discovery_round_progresses(m: DiscoveryModel, ops: Seq<StackOpModel>, next_pc: nat)
    requires
        progress_inv(m),
        discovery_next(m).1 is Analyze,
        !discovery_next(m).0.linear_done ==> next_pc > m.linear_pc,
    ensures
        progress_inv(discovery_supply(discovery_next(m).0, ops, next_pc)),
        lex_lt(
            discovery_measure(discovery_supply(discovery_next(m).0, ops, next_pc)),
            discovery_measure(m),
        ),
{
    let r = discovery_next(m).0;
    let m2 = discovery_supply(r, ops, next_pc);
    lemma_u32_keys_bounded(m.blocks.dom());
    if !m.linear_done && m.linear_pc / 4 < m.bytecode_len {
        if !ends_in_error(ops) {
            assert(m2.blocks.dom() =~= m.blocks.dom().insert(m.linear_pc as u32));
        }
    } else {
        let n = DiscoveryModel { linear_done: true, ..m };
        lemma_closure_next_progress(n);
        lemma_u32_keys_bounded(r.blocks.dom());
        assert(m2.blocks == r.blocks);
        assert forall|i: int| 0 <= i < m2.analysed.len() implies !m2.blocks.contains_key(
            #[trigger] m2.analysed[i].0,
        ) by {
            if i < r.analysed.len() {
                assert(m2.analysed[i] == r.analysed[i]);
            } else {
                assert(m2.analysed[i].0 == r.pending[0]);
            }
        }
        assert forall|i: int| 0 <= i < m2.pending.len() implies !m2.blocks.contains_key(
            #[trigger] m2.pending[i],
        ) by {
            assert(m2.pending[i] == r.pending[i + 1]);
        }
    }
}

/// What the runtime does next with a recompiled program.
#[derive(Debug, Clone, Copy, PartialEq, Eq, Structural)]
pub enum Dispatch {
    /// Run the compiled block at the program counter.
    RunBlock,
    /// No block is compiled at this program counter (inside the bytecode):
    /// find the blocks reachable from it, compile them, mark them compiled,
    /// then run.
    CompileBlock { pc: u32 },
    /// The program counter left the bytecode: the program ran to its end.
    Finished,
    /// The block stopped on an error.
    Failed,
    /// The block needs the interpreter, which the runtime cannot hand over
    /// to; it reports the program counter it held and the one returned.
    RequestInterpreter { old_pc: u32, new_pc: u32 },
}

/// The bytecode of a recompiled program, the program counter (in bytes) of
/// the block to run next, and the program counters at which a compiled
/// block starts.
pub struct DynarecModel {
    pub bytecode: Seq<u32>,
    pub pc: u32,
    pub compiled: Set<u32>,
}

/// The program counter of a recompiled program and what is needed to move
/// it between blocks; the blocks' machine code is kept by the runtime,
/// which marks here each block it compiled.
pub struct Dynarec {
    bytecode: Vec<u32>,
    pc: u32,
    compiled: FxHashMap<u32, ()>,
}

impl View for Dynarec {
    type V = DynarecModel;

    closed spec fn view(&self) -> DynarecModel {
        DynarecModel { bytecode: self.bytecode@, pc: self.pc, compiled: self.compiled@.dom() }
    }
}

/// Run the block at `pc` if one is compiled there, else compile it first.
pub open spec fn run_or_compile(m: DynarecModel, pc: u32) -> Dispatch {
    if m.compiled.contains(pc) {
        Dispatch::RunBlock
    } else {
        Dispatch::CompileBlock { pc }
    }
}

/// The program counter and the dispatch after a block returned `rc`:
/// `Continue` halts once the program counter leaves the bytecode, and
/// otherwise runs the block there, compiling it first if need be.
pub open spec fn dispatch_spec(m: DynarecModel, rc: ReturnCode) -> (u32, Dispatch) {
    match rc {
        ReturnCode::Continue(pc) => (
            pc,
            if (pc / 4) as nat >= m.bytecode.len() {
                Dispatch::Finished
            } else {
                run_or_compile(m, pc)
            },
        ),
        ReturnCode::RequestInterpreter(pc) => (
            m.pc,
            Dispatch::RequestInterpreter { old_pc: m.pc, new_pc: pc },
        ),
        _ => (m.pc, Dispatch::Failed),
    }
}

/// Whether `pc` may be set as the program counter: word-aligned and inside
/// the bytecode, whose length is taken as a `u32`.
pub open spec fn valid_pc(m: DynarecModel, pc: u32) -> bool {
    pc % 4 == 0 && pc / 4 < (m.bytecode.len() as u32)
}

impl Dynarec {
    /// Starts a recompiled program at its first word, with no block compiled.
    pub fn new(bytecode: Vec<u32>) -> (r: Self)
        ensures
            r@.bytecode == bytecode@,
            r@.pc == 0,
            r@.compiled == Set::<u32>::empty(),
    {
        let r = Dynarec { bytecode, pc: 0, compiled: fx_map_new() };
        assert(r@.compiled =~= Set::<u32>::empty());
        r
    }

    /// The number of bytecode words.
    pub fn bytecode_len(&self) -> (r: usize)
        ensures
            r == self@.bytecode.len(),
    {
        self.bytecode.len()
    }

    /// Records that a block starting at `pc` is compiled.
    pub fn mark_compiled(&mut self, pc: u32)
        ensures
            final(self)@.bytecode == old(self)@.bytecode,
            final(self)@.pc == old(self)@.pc,
            final(self)@.compiled == old(self)@.compiled.insert(pc),
    {
        fx_map_insert(&mut self.compiled, pc, ());
        assert(self@.compiled =~= old(self)@.compiled.insert(pc));
    }

    /// Whether a block starting at `pc` is compiled.
    pub fn is_compiled(&self, pc: u32) -> (r: bool)
        ensures
            r == self@.compiled.contains(pc),
    {
        fx_map_contains_key(&self.compiled, pc)
    }

    /// What to do to go on from the program counter: run its block, or
    /// compile it first.
    pub fn next_block(&self) -> (r: Dispatch)
        ensures
            r == run_or_compile(self@, self@.pc),
    {
        if fx_map_contains_key(&self.compiled, self.pc) {
            Dispatch::RunBlock
        } else {
            Dispatch::CompileBlock { pc: self.pc }
        }
    }

    /// Moves the program counter after a block returned `rc` and says what
    /// to do next. It says to run a block only where one is compiled.
    pub fn dispatch(&mut self, rc: ReturnCode) -> (r: Dispatch)
        ensures
            final(self)@.bytecode == old(self)@.bytecode,
            final(self)@.compiled == old(self)@.compiled,
            (final(self)@.pc, r) == dispatch_spec(old(self)@, rc),
            r == Dispatch::RunBlock ==> final(self)@.compiled.contains(final(self)@.pc),
    {
        match rc {
            ReturnCode::Continue(pc) => {
                self.pc = pc;
                if (pc / 4) as usize >= self.bytecode.len() {
                    Dispatch::Finished
                } else {
                    self.next_block()
                }
            },
            ReturnCode::RequestInterpreter(pc) => Dispatch::RequestInterpreter {
                old_pc: self.pc,
                new_pc: pc,
            },
            ReturnCode::MissingArgument => Dispatch::Failed,
            ReturnCode::UnknownOpCode(_) => Dispatch::Failed,
            ReturnCode::StackUnderflow => Dispatch::Failed,
            ReturnCode::UnknownReturn(_) => Dispatch::Failed,
        }
    }

    /// Sets the program counter if it is valid; says whether it did.
    pub fn set_program_counter(&mut self, pc: u32) -> (r: bool)
        ensures
            final(self)@.bytecode == old(self)@.bytecode,
            final(self)@.compiled == old(self)@.compiled,
            r == valid_pc(old(self)@, pc),
            final(self)@.pc == if r {
                pc
            } else {
                old(self)@.pc
            },
    {
        if pc % 4 != 0 || pc / 4 >= self.bytecode.len() as u32 {
            return false;
        }
        self.pc = pc;
        true
    }

    /// The program counter.
    pub fn get_program_counter(&self) -> (r: u32)
        ensures
            r == self@.pc,
    {
        self.pc
    }
}

proof fn lemma_block_ends_after(bytecode: Seq<u32>, externs: Seq<ExternInfo>, s: AnalysisState)
    ensures
        analyze_from(bytecode, externs, s) matches AnalysisModel::Block(_, next) ==> next >= s.pc,
    decreases bytecode.len() + 2 - s.pc / 4,
{
    lemma_step_advances(bytecode, externs, s);
    if let Step::Next(t) = analysis_step(bytecode, externs, s) {
        lemma_block_ends_after(bytecode, externs, t);
    }
}

/// A block that starts inside the bytecode either ends with an error or
/// ends after its start: the first pass of the discovery, which starts each
/// block where the last one ended, moves on every time until it fails or
/// leaves the bytecode.
pub proof fn lemma_block_progress(bytecode: Seq<u32>, externs: Seq<ExternInfo>, pc: nat)
    requires
        pc / 4 < bytecode.len(),
    ensures
        analyze_block(bytecode, externs, pc) matches AnalysisModel::Block(ops, next) ==> next > pc
            || ends_in_error(ops),
{
    let s = AnalysisState::start(pc);
    lemma_step_advances(bytecode, externs, s);
    match analysis_step(bytecode, externs, s) {
        Step::Next(t) => {
            lemma_block_ends_after(bytecode, externs, t);
        },
        Step::Stop(t, op) => {
            let ops = t.flushed().ops.push(op);
            assert(ops.last() == op);
        },
        _ => {},
    }
}


/// The discovery keeps track of `pc`: it has a block, or is pending, or was
/// analysed for the block being followed.
pub open spec fn kept_track(m: DiscoveryModel, pc: u32) -> bool {
    m.blocks.contains_key(pc) || m.pending.contains(pc) || analysed_starts(m.analysed).contains(pc)
}

proof fn lemma_closure_next_keeps_track(m: DiscoveryModel, pc: u32)
    requires
        kept_track(m, pc),
    ensures
        kept_track(closure_next(m).0, pc),
        closure_next(m).1 == DiscoveryRequest::Finished ==> closure_next(m).0.blocks.contains_key(
            pc,
        ),
    decreases m.targets.len() + m.analysed.len(),
{
    if m.pending.len() == 0 {
        lemma_commit(m.blocks, m.targets, m.analysed);
        lemma_commit_len(m.blocks, m.targets, m.analysed);
        let (blocks, targets) = commit(m.blocks, m.targets, m.analysed);
        assert(blocks.contains_key(pc));
        if targets.len() > 0 {
            let d = targets.last();
            let c = DiscoveryModel { blocks, targets, analysed: Seq::empty(), ..m };
            let n = DiscoveryModel {
                targets: targets.drop_last(),
                pending: unvisited(jump_dests(blocks[d]), blocks),
                ..c
            };
            lemma_closure_next_keeps_track(n, pc);
        }
    }
}

/// Asking for the next request loses track of no program counter, and when
/// the discovery finishes every program counter it kept track of has a
/// block: in particular the entry of a discovery started at one.
pub proof fn lemma_discovery_next_keeps_track(m: DiscoveryModel, pc: u32)
    requires
        kept_track(m, pc),
    ensures
        kept_track(discovery_next(m).0, pc),
        discovery_next(m).1 == DiscoveryRequest::Finished ==> discovery_next(
            m,
        ).0.blocks.contains_key(pc),
{
    if m.failed is None && !(!m.linear_done && m.linear_pc / 4 < m.bytecode_len) {
        lemma_closure_next_keeps_track(DiscoveryModel { linear_done: true, ..m }, pc);
    }
}

/// Handing in an analysis loses track of no program counter.
pub proof fn lemma_discovery_supply_keeps_track(
    m: DiscoveryModel,
    ops: Seq<StackOpModel>,
    next_pc: nat,
    pc: u32,
)
    requires
        kept_track(m, pc),
        m.linear_done ==> m.pending.len() > 0,
    ensures
        kept_track(discovery_supply(m, ops, next_pc), pc),
{
    let n = discovery_supply(m, ops, next_pc);
    if m.linear_done {
        let d0 = m.pending[0];
        assert(analysed_starts(n.analysed) =~= analysed_starts(m.analysed).push(d0));
        if m.pending.contains(pc) {
            let i = choose|i: int| 0 <= i < m.pending.len() && m.pending[i] == pc;
            if i == 0 {
                assert(analysed_starts(n.analysed)[m.analysed.len() as int] == pc);
            } else {
                assert(n.pending[i - 1] == pc);
            }
        } else if analysed_starts(m.analysed).contains(pc) {
            let i = choose|i: int|
                0 <= i < analysed_starts(m.analysed).len() && analysed_starts(m.analysed)[i] == pc;
            assert(analysed_starts(n.analysed)[i] == pc);
        }
    }
}

/// The first pass cuts the whole bytecode into consecutive blocks: once it
/// has asked for the block at `linear_pc` and been handed one that does not
/// end in an error (it may end in a jump, or in a return that halts, such
/// as the end of one event handler before the next), the block is recorded
/// and the next request is the block that starts where it ended, if that
/// is inside the bytecode. A block that ends in an error fails the
/// discovery with that error.
pub proof fn lemma_first_pass_goes_on(m: DiscoveryModel, ops: Seq<StackOpModel>, next_pc: nat)
    requires
        m.failed is None,
        !m.linear_done,
        m.linear_pc / 4 < m.bytecode_len,
        ops.len() > 0,
    ensures
        discovery_next(m).1 == (DiscoveryRequest::Analyze { pc: m.linear_pc as usize }),
        ({
            let after = discovery_supply(discovery_next(m).0, ops, next_pc);
            let last = ops.last();
            let error = last is Return && !(last->Return_0 is Continue);
            &&& error ==> discovery_next(after).1 == (DiscoveryRequest::Failed(last->Return_0))
            &&& !error ==> {
                &&& after.blocks.contains_key(m.linear_pc as u32)
                &&& after.blocks[m.linear_pc as u32] == ops
                &&& after.blocks.dom() == m.blocks.dom().insert(m.linear_pc as u32)
                &&& next_pc / 4 < m.bytecode_len ==> discovery_next(after).1 == (
                DiscoveryRequest::Analyze { pc: next_pc as usize })
            }
        }),
{
}

/// Where a block hands the program counter next: a `Continue` moves it
/// there, and the program is finished once it leaves the bytecode; inside
/// it, the block there runs if it is compiled and is compiled first if not.
/// A request for the interpreter keeps the program counter and reports both;
/// every other return code fails the run and keeps the program counter.
pub proof fn lemma_dispatch_follows_the_return_code(m: DynarecModel, rc: ReturnCode)
    ensures
        ({
            let (pc, d) = dispatch_spec(m, rc);
            &&& rc matches ReturnCode::Continue(next) ==> {
                &&& pc == next
                &&& ((next / 4) as nat) >= m.bytecode.len() ==> d == Dispatch::Finished
                &&& ((next / 4) as nat) < m.bytecode.len() && m.compiled.contains(next) ==> d
                    == Dispatch::RunBlock
                &&& ((next / 4) as nat) < m.bytecode.len() && !m.compiled.contains(next) ==> d == (
                Dispatch::CompileBlock { pc: next })
            }
            &&& rc matches ReturnCode::RequestInterpreter(next) ==> pc == m.pc && d == (
            Dispatch::RequestInterpreter { old_pc: m.pc, new_pc: next })
            &&& !(rc is Continue) && !(rc is RequestInterpreter) ==> pc == m.pc && d
                == Dispatch::Failed
        }),
{
}

} // verus!
