pub mod analysis;
pub mod dynarec;
pub mod emit;
pub mod interpreter;
pub mod semantics;

use vstd::prelude::*;

verus! {

/// The instructions of Udon bytecode. Each is one big-endian word; all but
/// `Nop`, `Pop` and `Copy` are followed by one word of argument.
#[derive(Debug, Clone, Copy, PartialEq, Eq, Structural)]
pub enum OpCode {
    Nop,
    Push,
    Pop,
    JumpIfFalse,
    Jump,
    Extern,
    Annotation,
    JumpIndirect,
    Copy,
    CachedExtern,
}

impl OpCode {
    /// The word by which the bytecode names this instruction.
    pub open spec fn spec_code(self) -> u32 {
        match self {
            OpCode::Nop => 0,
            OpCode::Push => 1,
            OpCode::Pop => 2,
            OpCode::JumpIfFalse => 4,
            OpCode::Jump => 5,
            OpCode::Extern => 6,
            OpCode::Annotation => 7,
            OpCode::JumpIndirect => 8,
            OpCode::Copy => 9,
            OpCode::CachedExtern => 10,
        }
    }

    /// The instruction that a word names, if any.
    pub open spec fn spec_from_u32(value: u32) -> Option<OpCode> {
        if value == 0 {
            Some(OpCode::Nop)
        } else if value == 1 {
            Some(OpCode::Push)
        } else if value == 2 {
            Some(OpCode::Pop)
        } else if value == 4 {
            Some(OpCode::JumpIfFalse)
        } else if value == 5 {
            Some(OpCode::Jump)
        } else if value == 6 {
            Some(OpCode::Extern)
        } else if value == 7 {
            Some(OpCode::Annotation)
        } else if value == 8 {
            Some(OpCode::JumpIndirect)
        } else if value == 9 {
            Some(OpCode::Copy)
        } else if value == 10 {
            Some(OpCode::CachedExtern)
        } else {
            None
        }
    }

    pub fn code(&self) -> (r: u32)
        ensures
            r == self.spec_code(),
    {
        match self {
            OpCode::Nop => 0,
            OpCode::Push => 1,
            OpCode::Pop => 2,
            OpCode::JumpIfFalse => 4,
            OpCode::Jump => 5,
            OpCode::Extern => 6,
            OpCode::Annotation => 7,
            OpCode::JumpIndirect => 8,
            OpCode::Copy => 9,
            OpCode::CachedExtern => 10,
        }
    }

    pub fn from_u32(value: u32) -> (r: Option<OpCode>)
        ensures
            r == OpCode::spec_from_u32(value),
    {
        match value {
            0 => Some(OpCode::Nop),
            1 => Some(OpCode::Push),
            2 => Some(OpCode::Pop),
            4 => Some(OpCode::JumpIfFalse),
            5 => Some(OpCode::Jump),
            6 => Some(OpCode::Extern),
            7 => Some(OpCode::Annotation),
            8 => Some(OpCode::JumpIndirect),
            9 => Some(OpCode::Copy),
            10 => Some(OpCode::CachedExtern),
            _ => None,
        }
    }
}

/// Each instruction's word reads back as that instruction, and a word
/// that reads as an instruction is that instruction's word.
pub proof fn lemma_opcode_roundtrip(op: OpCode, value: u32)
    ensures
        OpCode::spec_from_u32(op.spec_code()) == Some(op),
        OpCode::spec_from_u32(value) == Some(op) ==> op.spec_code() == value,
{
}


/// The word that four bytes make when read big-endian.
pub open spec fn be_word(b0: u8, b1: u8, b2: u8, b3: u8) -> u32 {
    (b0 * 0x100_0000 + b1 * 0x1_0000 + b2 * 0x100 + b3) as u32
}

/// The bytecode words in a byte array: each run of four bytes read
/// big-endian, with any bytes after the last full run left out.
pub open spec fn decode_words(bytes: Seq<u8>) -> Seq<u32> {
    Seq::new(
        bytes.len() / 4,
        |i: int| be_word(bytes[4 * i], bytes[4 * i + 1], bytes[4 * i + 2], bytes[4 * i + 3]),
    )
}

/// Reads a byte array as big-endian bytecode words.
pub fn decode_bytecode(bytes: &[u8]) -> (r: Vec<u32>)
    ensures
        r@ == decode_words(bytes@),
{
    let count = bytes.len() / 4;
    let mut words: Vec<u32> = Vec::with_capacity(count);
    let mut i: usize = 0;
    while i < count
        invariant
            count == bytes@.len() / 4,
            i <= count,
            words@ =~= decode_words(bytes@).take(i as int),
        decreases count - i,
    {
        assert(bytes@.len() == bytes.len());
        assert(4 * i + 3 < bytes@.len()) by (nonlinear_arith)
            requires
                i < count,
                count == bytes@.len() / 4,
        ;
        let at = 4 * i;
        let word = (bytes[at] as u32) * 0x100_0000 + (bytes[at + 1] as u32) * 0x1_0000 + (bytes[at
            + 2] as u32) * 0x100 + (bytes[at + 3] as u32);
        words.push(word);
        i = i + 1;
    }
    words
}

} // verus!
