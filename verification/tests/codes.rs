use native::recompiler::HaltReason;
use native::vm::analysis::{ExternArgs, ReturnCode};
use native::vm::{decode_bytecode, OpCode};

#[test]
fn return_code_encodings() {
    assert_eq!(ReturnCode::Continue(0x1234).encode(), 0x1234);
    assert_eq!(ReturnCode::RequestInterpreter(8).encode(), 0x8000_0000_0000_0008);
    assert_eq!(ReturnCode::MissingArgument.encode(), 0x1_0000_0000);
    assert_eq!(ReturnCode::UnknownOpCode(3).encode(), 0x2_0000_0003);
    assert_eq!(ReturnCode::StackUnderflow.encode(), 0x3_0000_0000);
    assert_eq!(ReturnCode::UnknownReturn(0x7_0000_0001).encode(), 0x7_0000_0001);
}

#[test]
fn return_code_decodings() {
    assert_eq!(ReturnCode::decode(0x1234), ReturnCode::Continue(0x1234));
    assert_eq!(ReturnCode::decode(0x8000_0000_0000_0008), ReturnCode::RequestInterpreter(8));
    assert_eq!(ReturnCode::decode(0x1_0000_0000), ReturnCode::MissingArgument);
    assert_eq!(ReturnCode::decode(0x1_0000_0005), ReturnCode::MissingArgument);
    assert_eq!(ReturnCode::decode(0x2_0000_0003), ReturnCode::UnknownOpCode(3));
    assert_eq!(ReturnCode::decode(0x3_0000_0000), ReturnCode::StackUnderflow);
    assert_eq!(ReturnCode::decode(0x4_0000_0000), ReturnCode::UnknownReturn(0x4_0000_0000));
    assert_eq!(
        ReturnCode::decode(0xFFFF_FFFF_FFFF_FFFF),
        ReturnCode::UnknownReturn(0xFFFF_FFFF_FFFF_FFFF)
    );
}

#[test]
fn return_code_roundtrip() {
    let codes = [
        ReturnCode::Continue(0),
        ReturnCode::Continue(0xFFFF_FFFF),
        ReturnCode::RequestInterpreter(0),
        ReturnCode::RequestInterpreter(0xDEAD_0004),
        ReturnCode::MissingArgument,
        ReturnCode::UnknownOpCode(0xFFFF_FFFF),
        ReturnCode::StackUnderflow,
        ReturnCode::UnknownReturn(0x9_0000_0000),
    ];
    for code in codes {
        assert_eq!(ReturnCode::decode(code.encode()), code);
    }
    for value in [0u64, 7, 0x1_0000_0000, 0x2_0000_0010, 0x3_0000_0000, 0x8000_0000_0000_0001] {
        assert_eq!(ReturnCode::decode(value).encode(), value);
    }
    // The upper half names MissingArgument, which carries no lower half.
    assert_ne!(ReturnCode::decode(0x1_0000_0001).encode(), 0x1_0000_0001);
}

#[test]
fn halt_reason_encodings() {
    assert_eq!(HaltReason::InstructionEOF.encode(), 0xFFFF_FFFF);
    assert_eq!(HaltReason::MissingArgument.encode(), 0x1_0000_0000);
    assert_eq!(HaltReason::UnknownOpCode(0x42).encode(), 0x2_0000_0042);
    assert_eq!(HaltReason::StackUnderflow.encode(), 0x3_0000_0000);
    assert_eq!(
        ReturnCode::decode(HaltReason::InstructionEOF.encode()),
        ReturnCode::Continue(0xFFFF_FFFF)
    );
    assert_eq!(
        ReturnCode::decode(HaltReason::UnknownOpCode(9).encode()),
        ReturnCode::UnknownOpCode(9)
    );
}

#[test]
fn opcode_words() {
    let all = [
        OpCode::Nop,
        OpCode::Push,
        OpCode::Pop,
        OpCode::JumpIfFalse,
        OpCode::Jump,
        OpCode::Extern,
        OpCode::Annotation,
        OpCode::JumpIndirect,
        OpCode::Copy,
        OpCode::CachedExtern,
    ];
    let words = [0u32, 1, 2, 4, 5, 6, 7, 8, 9, 10];
    for (op, word) in all.iter().zip(words.iter()) {
        assert_eq!(op.code(), *word);
        assert_eq!(OpCode::from_u32(*word), Some(*op));
    }
    assert_eq!(OpCode::from_u32(3), None);
    assert_eq!(OpCode::from_u32(11), None);
    assert_eq!(OpCode::from_u32(0xFFFF_FFFF), None);
}

#[test]
fn extern_args_len() {
    assert_eq!(ExternArgs::Complete(vec![1, 2, 3]).len(), 3);
    assert_eq!(ExternArgs::Complete(vec![]).len(), 0);
    assert_eq!(ExternArgs::Incomplete(5).len(), 5);
}

#[test]
fn bytecode_is_big_endian_words() {
    assert_eq!(
        decode_bytecode(&[0, 0, 0, 1, 0xDE, 0xAD, 0xBE, 0xEF]),
        vec![1, 0xDEAD_BEEF]
    );
    assert_eq!(decode_bytecode(&[0x12, 0x34, 0x56, 0x78, 0x9A]), vec![0x1234_5678]);
    assert_eq!(decode_bytecode(&[1, 2, 3]), Vec::<u32>::new());
}
