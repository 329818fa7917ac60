use kimchi_mips::columns::{
    ITypeInstruction, InstructionSelector, JTypeInstruction, RTypeInstruction,
};
use kimchi_mips::decoding::{
    decode, decode_itype, decode_jtype, decode_rtype, decode_selector, encode_itype,
    encode_jtype, encode_rtype, encode_selector,
};

const RTYPES: [(RTypeInstruction, u32); 27] = [
    (RTypeInstruction::ShiftLeftLogical, 0),
    (RTypeInstruction::ShiftRightLogical, 2),
    (RTypeInstruction::ShiftRightArithmetic, 3),
    (RTypeInstruction::ShiftLeftLogicalVariable, 4),
    (RTypeInstruction::ShiftRightLogicalVariable, 6),
    (RTypeInstruction::ShiftRightArithmeticVariable, 7),
    (RTypeInstruction::JumpRegister, 8),
    (RTypeInstruction::JumpAndLinkRegister, 9),
    (RTypeInstruction::Syscall, 12),
    (RTypeInstruction::MoveFromHi, 16),
    (RTypeInstruction::MoveToHi, 17),
    (RTypeInstruction::MoveFromLo, 18),
    (RTypeInstruction::MoveToLo, 19),
    (RTypeInstruction::Multiply, 24),
    (RTypeInstruction::MultiplyUnsigned, 25),
    (RTypeInstruction::Div, 26),
    (RTypeInstruction::DivUnsigned, 27),
    (RTypeInstruction::Add, 32),
    (RTypeInstruction::AddUnsigned, 33),
    (RTypeInstruction::Sub, 34),
    (RTypeInstruction::SubUnsigned, 35),
    (RTypeInstruction::And, 36),
    (RTypeInstruction::Or, 37),
    (RTypeInstruction::Xor, 38),
    (RTypeInstruction::Nor, 39),
    (RTypeInstruction::SetLessThan, 42),
    (RTypeInstruction::SetLessThanUnsigned, 43),
];

const JTYPES: [(JTypeInstruction, u32); 2] =
    [(JTypeInstruction::Jump, 2), (JTypeInstruction::JumpAndLink, 3)];

const ITYPES: [(ITypeInstruction, u32); 20] = [
    (ITypeInstruction::BranchEq, 4),
    (ITypeInstruction::BranchNeq, 5),
    (ITypeInstruction::BranchLeqZero, 6),
    (ITypeInstruction::BranchGtZero, 7),
    (ITypeInstruction::AddImmediate, 8),
    (ITypeInstruction::AddImmediateUnsigned, 9),
    (ITypeInstruction::SetLessThanImmediate, 10),
    (ITypeInstruction::SetLessThanImmediateUnsigned, 11),
    (ITypeInstruction::AndImmediate, 12),
    (ITypeInstruction::OrImmediate, 13),
    (ITypeInstruction::XorImmediate, 14),
    (ITypeInstruction::LoadImmediate, 15),
    (ITypeInstruction::Load8, 32),
    (ITypeInstruction::Load16, 33),
    (ITypeInstruction::Load32, 34),
    (ITypeInstruction::Load8Unsigned, 36),
    (ITypeInstruction::Load16Unsigned, 37),
    (ITypeInstruction::Store8, 40),
    (ITypeInstruction::Store16, 41),
    (ITypeInstruction::Store32, 43),
];

#[test]
fn encode_rtype_table() {
    for (instr, funct) in RTYPES {
        assert_eq!(encode_rtype(instr), (0, funct));
    }
}

#[test]
fn encode_jtype_table() {
    for (instr, opcode) in JTYPES {
        assert_eq!(encode_jtype(instr), opcode);
    }
}

#[test]
fn encode_itype_table() {
    for (instr, opcode) in ITYPES {
        assert_eq!(encode_itype(instr), opcode);
    }
}

#[test]
fn rtype_roundtrip() {
    for (instr, _) in RTYPES {
        assert_eq!(decode_rtype(encode_rtype(instr)), Some(instr));
    }
}

#[test]
fn jtype_roundtrip() {
    for (instr, _) in JTYPES {
        assert_eq!(decode_jtype(encode_jtype(instr)), Some(instr));
    }
}

#[test]
fn itype_roundtrip() {
    for (instr, _) in ITYPES {
        assert_eq!(decode_itype(encode_itype(instr)), Some(instr));
    }
}

#[test]
fn decode_rtype_needs_opcode_zero() {
    assert_eq!(decode_rtype((1, 0)), None);
    assert_eq!(decode_rtype((9, 33)), None);
    assert_eq!(decode_rtype((0, 33)), Some(RTypeInstruction::AddUnsigned));
}

#[test]
fn decode_rtype_unknown_funct() {
    for funct in [1u32, 5, 10, 11, 13, 14, 15, 20, 23, 28, 31, 40, 41, 44, 63, 64, 1000] {
        assert_eq!(decode_rtype((0, funct)), None);
    }
}

#[test]
fn decode_jtype_unknown_opcode() {
    for opcode in [0u32, 1, 4, 63, 64] {
        assert_eq!(decode_jtype(opcode), None);
    }
}

#[test]
fn decode_itype_unknown_opcode() {
    for opcode in [0u32, 1, 2, 3, 16, 31, 35, 38, 39, 42, 44, 63, u32::MAX] {
        assert_eq!(decode_itype(opcode), None);
    }
}

#[test]
fn every_code_decodes_to_at_most_one_instruction() {
    for opcode in 0u32..64 {
        let j = decode_jtype(opcode).is_some() as u32;
        let i = decode_itype(opcode).is_some() as u32;
        assert!(j + i <= 1);
        if opcode == 0 {
            assert_eq!(j + i, 0);
        }
    }
}

#[test]
fn encode_selector_by_format() {
    assert_eq!(
        encode_selector(InstructionSelector::RType(RTypeInstruction::Syscall)),
        (0, Some(12))
    );
    assert_eq!(
        encode_selector(InstructionSelector::JType(JTypeInstruction::JumpAndLink)),
        (3, None)
    );
    assert_eq!(
        encode_selector(InstructionSelector::IType(ITypeInstruction::Store32)),
        (43, None)
    );
}

#[test]
fn selector_roundtrip_all() {
    let mut selectors = Vec::new();
    for (i, _) in RTYPES {
        selectors.push(InstructionSelector::RType(i));
    }
    for (i, _) in JTYPES {
        selectors.push(InstructionSelector::JType(i));
    }
    for (i, _) in ITYPES {
        selectors.push(InstructionSelector::IType(i));
    }
    assert_eq!(selectors.len(), 49);
    for s in selectors {
        let (opcode, funct) = encode_selector(s);
        match funct {
            Some(f) => assert_eq!(decode_selector((opcode, f)), Some(s)),
            None => {
                // the funct field is ignored outside R-type instructions
                for f in [0u32, 12, 33, 63] {
                    assert_eq!(decode_selector((opcode, f)), Some(s));
                }
            }
        }
        // a whole word carrying the fields decodes to the selector
        let word = (opcode << 26) | funct.unwrap_or(0);
        assert_eq!(decode(word), Some(s));
        assert_eq!(decode(word | 0x03ff_ffc0), Some(s));
    }
}

#[test]
fn decode_selector_unknown() {
    assert_eq!(decode_selector((0, 1)), None);
    assert_eq!(decode_selector((1, 0)), None);
    assert_eq!(decode_selector((63, 0)), None);
    assert_eq!(decode_selector((35, 0)), None);
}

#[test]
fn decode_words_of_sample_program() {
    // addiu $t2, $zero, 26
    assert_eq!(
        decode(0x240a_001a),
        Some(InstructionSelector::IType(ITypeInstruction::AddImmediateUnsigned))
    );
    // lui $t3, 0
    assert_eq!(
        decode(0x3c0b_0000),
        Some(InstructionSelector::IType(ITypeInstruction::LoadImmediate))
    );
    // opcode 35 is not in the table
    assert_eq!(decode(0x8d6b_0008), None);
    // the zero word is a shift
    assert_eq!(
        decode(0x0000_0000),
        Some(InstructionSelector::RType(RTypeInstruction::ShiftLeftLogical))
    );
    assert_eq!(
        decode(0x014b_6020),
        Some(InstructionSelector::RType(RTypeInstruction::Add))
    );
    assert_eq!(
        decode(0x0800_0005),
        Some(InstructionSelector::JType(JTypeInstruction::Jump))
    );
    assert_eq!(
        decode(0x014b_6822),
        Some(InstructionSelector::RType(RTypeInstruction::Sub))
    );
    assert_eq!(
        decode(0xac2d_000c),
        Some(InstructionSelector::IType(ITypeInstruction::Store32))
    );
    assert_eq!(
        decode(0x0000_000c),
        Some(InstructionSelector::RType(RTypeInstruction::Syscall))
    );
}

#[test]
fn decode_edge_words() {
    assert_eq!(decode(0xffff_ffff), None);
    assert_eq!(decode(0x0000_003f), None);
    // an R-type funct code in a non-zero opcode word is not R-type
    assert_eq!(decode(0x0400_0021), None);
    assert_eq!(
        decode(0x0000_0021 | 0x03ff_ff00),
        Some(InstructionSelector::RType(RTypeInstruction::AddUnsigned))
    );
}
