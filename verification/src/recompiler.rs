use vstd::prelude::*;

use crate::vm::analysis::ReturnCode;

verus! {

/// The arguments of an extern call as the block recompiler sees them: the
/// heap slots the block pushed, or only how many were pushed before it.
#[derive(Debug)]
pub enum ExternArgs {
    Complete(Vec<u32>),
    Incomplete(usize),
}

/// Why a recompiled block stopped short of a jump.
#[derive(Debug, Clone, Copy, PartialEq, Eq, Structural)]
pub enum HaltReason {
    /// The program counter left the bytecode: no error.
    InstructionEOF,
    /// The bytecode ended in the middle of an instruction.
    MissingArgument,
    /// The bytecode held an opcode that is not known.
    UnknownOpCode(u32),
    /// An item was popped from an empty stack.
    StackUnderflow,
}

impl HaltReason {
    /// The `u64` that stands for this halt: the reason in the upper half,
    /// the opcode (or an all-ones program counter) in the lower half.
    pub open spec fn spec_encode(self) -> u64 {
        match self {
            HaltReason::InstructionEOF => 0xFFFF_FFFFu64,
            HaltReason::MissingArgument => 0x1_0000_0000u64,
            HaltReason::UnknownOpCode(op) => (0x2_0000_0000u64 + op) as u64,
            HaltReason::StackUnderflow => 0x3_0000_0000u64,
        }
    }

    /// The return code that says the same as this halt.
    pub open spec fn as_return_code(self) -> ReturnCode {
        match self {
            HaltReason::InstructionEOF => ReturnCode::Continue(0xFFFF_FFFF),
            HaltReason::MissingArgument => ReturnCode::MissingArgument,
            HaltReason::UnknownOpCode(op) => ReturnCode::UnknownOpCode(op),
            HaltReason::StackUnderflow => ReturnCode::StackUnderflow,
        }
    }

    pub fn encode(&self) -> (r: u64)
        ensures
            r == self.spec_encode(),
    {
        match self {
            HaltReason::InstructionEOF => {
                assert((0x00000000u64 << 32u64) | 0xFFFFFFFFu64 == 0xFFFF_FFFFu64) by (bit_vector);
                (0x00000000u64 << 32u64) | 0xFFFFFFFF
            },
            HaltReason::MissingArgument => {
                assert(0x00000001u64 << 32u64 == 0x1_0000_0000u64) by (bit_vector);
                0x00000001u64 << 32u64
            },
            HaltReason::UnknownOpCode(op) => {
                let o = *op as u64;
                assert((0x00000002u64 << 32u64) | o == 0x2_0000_0000u64 + o) by (bit_vector)
                    requires
                        o < 0x1_0000_0000u64,
                ;
                (0x00000002u64 << 32u64) | o
            },
            HaltReason::StackUnderflow => {
                assert(0x00000003u64 << 32u64 == 0x3_0000_0000u64) by (bit_vector);
                0x00000003u64 << 32u64
            },
        }
    }
}

/// A halt encodes to the same `u64` as the return code that says the same:
/// stopping at the end of the bytecode is `Continue` to the all-ones
/// program counter, and the errors share their codes. Decoding that `u64`
/// gives the return code.
pub proof fn lemma_halt_encodes_as_return_code(reason: HaltReason)
    ensures
        reason.spec_encode() == reason.as_return_code().spec_encode(),
        ReturnCode::spec_decode(reason.spec_encode()) == reason.as_return_code(),
{
}

} // verus!
