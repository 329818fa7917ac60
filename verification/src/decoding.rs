use vstd::prelude::*;
use crate::columns::{
    ITypeInstruction, InstructionSelector, JTypeInstruction, RTypeInstruction,
};

verus! {

// ---------------------------------------------------------------------------
// The encoding tables
// ---------------------------------------------------------------------------

/// The `funct` field of an R-type instruction (its opcode is always 0).
pub open spec fn rtype_funct(instr: RTypeInstruction) -> u32 {
    match instr {
        RTypeInstruction::ShiftLeftLogical => 0,
        RTypeInstruction::ShiftRightLogical => 2,
        RTypeInstruction::ShiftRightArithmetic => 3,
        RTypeInstruction::ShiftLeftLogicalVariable => 4,
        RTypeInstruction::ShiftRightLogicalVariable => 6,
        RTypeInstruction::ShiftRightArithmeticVariable => 7,
        RTypeInstruction::JumpRegister => 8,
        RTypeInstruction::JumpAndLinkRegister => 9,
        RTypeInstruction::Syscall => 12,
        RTypeInstruction::MoveFromHi => 16,
        RTypeInstruction::MoveToHi => 17,
        RTypeInstruction::MoveFromLo => 18,
        RTypeInstruction::MoveToLo => 19,
        RTypeInstruction::Multiply => 24,
        RTypeInstruction::MultiplyUnsigned => 25,
        RTypeInstruction::Div => 26,
        RTypeInstruction::DivUnsigned => 27,
        RTypeInstruction::Add => 32,
        RTypeInstruction::AddUnsigned => 33,
        RTypeInstruction::Sub => 34,
        RTypeInstruction::SubUnsigned => 35,
        RTypeInstruction::And => 36,
        RTypeInstruction::Or => 37,
        RTypeInstruction::Xor => 38,
        RTypeInstruction::Nor => 39,
        RTypeInstruction::SetLessThan => 42,
        RTypeInstruction::SetLessThanUnsigned => 43,
    }
}

/// The opcode of a J-type instruction.
pub open spec fn jtype_opcode(instr: JTypeInstruction) -> u32 {
    match instr {
        JTypeInstruction::Jump => 2,
        JTypeInstruction::JumpAndLink => 3,
    }
}

/// The opcode of an I-type instruction.
pub open spec fn itype_opcode(instr: ITypeInstruction) -> u32 {
    match instr {
        ITypeInstruction::BranchEq => 4,
        ITypeInstruction::BranchNeq => 5,
        ITypeInstruction::BranchLeqZero => 6,
        ITypeInstruction::BranchGtZero => 7,
        ITypeInstruction::AddImmediate => 8,
        ITypeInstruction::AddImmediateUnsigned => 9,
        ITypeInstruction::SetLessThanImmediate => 10,
        ITypeInstruction::SetLessThanImmediateUnsigned => 11,
        ITypeInstruction::AndImmediate => 12,
        ITypeInstruction::OrImmediate => 13,
        ITypeInstruction::XorImmediate => 14,
        ITypeInstruction::LoadImmediate => 15,
        ITypeInstruction::Load8 => 32,
        ITypeInstruction::Load16 => 33,
        ITypeInstruction::Load32 => 34,
        ITypeInstruction::Load8Unsigned => 36,
        ITypeInstruction::Load16Unsigned => 37,
        ITypeInstruction::Store8 => 40,
        ITypeInstruction::Store16 => 41,
        ITypeInstruction::Store32 => 43,
    }
}

/// The `(opcode, funct)` pair of a selector; the funct is only present for R-type.
pub open spec fn selector_code(instr: InstructionSelector) -> (u32, Option<u32>) {
    match instr {
        InstructionSelector::RType(i) => (0, Some(rtype_funct(i))),
        InstructionSelector::JType(i) => (jtype_opcode(i), None),
        InstructionSelector::IType(i) => (itype_opcode(i), None),
    }
}

/// Whether the fields `(opcode, funct)` encode the selector `instr`.
/// For J-type and I-type instructions the `funct` field is ignored.
pub open spec fn selector_accepts(instr: InstructionSelector, opcode: u32, funct: u32) -> bool {
    match instr {
        InstructionSelector::RType(i) => opcode == 0 && funct == rtype_funct(i),
        InstructionSelector::JType(i) => opcode == jtype_opcode(i),
        InstructionSelector::IType(i) => opcode == itype_opcode(i),
    }
}

// ---------------------------------------------------------------------------
// Decoding, as the inverse of the tables
// ---------------------------------------------------------------------------

/// The R-type instruction whose funct field is `funct`, if there is one.
pub open spec fn rtype_of_funct(funct: u32) -> Option<RTypeInstruction> {
    if exists|i: RTypeInstruction| rtype_funct(i) == funct {
        Some(choose|i: RTypeInstruction| rtype_funct(i) == funct)
    } else {
        None
    }
}

/// The J-type instruction with opcode `opcode`, if there is one.
pub open spec fn jtype_of_opcode(opcode: u32) -> Option<JTypeInstruction> {
    if exists|i: JTypeInstruction| jtype_opcode(i) == opcode {
        Some(choose|i: JTypeInstruction| jtype_opcode(i) == opcode)
    } else {
        None
    }
}

/// The I-type instruction with opcode `opcode`, if there is one.
pub open spec fn itype_of_opcode(opcode: u32) -> Option<ITypeInstruction> {
    if exists|i: ITypeInstruction| itype_opcode(i) == opcode {
        Some(choose|i: ITypeInstruction| itype_opcode(i) == opcode)
    } else {
        None
    }
}

/// The instruction encoded by the fields `(opcode, funct)`, if there is one.
pub open spec fn selector_of(opcode: u32, funct: u32) -> Option<InstructionSelector> {
    if exists|s: InstructionSelector| selector_accepts(s, opcode, funct) {
        Some(choose|s: InstructionSelector| selector_accepts(s, opcode, funct))
    } else {
        None
    }
}

/// The opcode field of an instruction word: its 6 most significant bits.
pub open spec fn opcode_field(word: u32) -> u32 {
    word / 0x400_0000
}

/// The funct field of an instruction word: its 6 least significant bits.
pub open spec fn funct_field(word: u32) -> u32 {
    word % 0x40
}

// ---------------------------------------------------------------------------
// Facts about the tables
// ---------------------------------------------------------------------------

/// No two R-type instructions share a funct code.
pub proof fn lemma_rtype_funct_injective(a: RTypeInstruction, b: RTypeInstruction)
    requires
        rtype_funct(a) == rtype_funct(b),
    ensures
        a == b,
{
}

/// No two J-type instructions share an opcode.
pub proof fn lemma_jtype_opcode_injective(a: JTypeInstruction, b: JTypeInstruction)
    requires
        jtype_opcode(a) == jtype_opcode(b),
    ensures
        a == b,
{
}

/// No two I-type instructions share an opcode.
pub proof fn lemma_itype_opcode_injective(a: ITypeInstruction, b: ITypeInstruction)
    requires
        itype_opcode(a) == itype_opcode(b),
    ensures
        a == b,
{
}

/// The three encoding formats use disjoint opcodes: 0 for R-type, and J-type and
/// I-type opcodes never coincide, nor are 0.
pub proof fn lemma_opcodes_disjoint(j: JTypeInstruction, i: ITypeInstruction)
    ensures
        jtype_opcode(j) != 0,
        itype_opcode(i) != 0,
        jtype_opcode(j) != itype_opcode(i),
{
}

/// Every field value of the tables fits in 6 bits.
pub proof fn lemma_codes_fit_in_six_bits(instr: InstructionSelector)
    ensures
        selector_code(instr).0 < 64,
        selector_code(instr).1 matches Some(f) ==> f < 64,
{
}

/// At most one selector is accepted by a pair of fields.
pub proof fn lemma_selector_accepts_unique(
    a: InstructionSelector,
    b: InstructionSelector,
    opcode: u32,
    funct: u32,
)
    requires
        selector_accepts(a, opcode, funct),
        selector_accepts(b, opcode, funct),
    ensures
        a == b,
{
    match (a, b) {
        (InstructionSelector::RType(x), InstructionSelector::RType(y)) => {
            lemma_rtype_funct_injective(x, y);
        },
        (InstructionSelector::JType(x), InstructionSelector::JType(y)) => {
            lemma_jtype_opcode_injective(x, y);
        },
        (InstructionSelector::IType(x), InstructionSelector::IType(y)) => {
            lemma_itype_opcode_injective(x, y);
        },
        (InstructionSelector::JType(x), InstructionSelector::IType(y)) => {
            lemma_opcodes_disjoint(x, y);
        },
        (InstructionSelector::IType(x), InstructionSelector::JType(y)) => {
            lemma_opcodes_disjoint(y, x);
        },
        _ => {},
    }
}


// ---------------------------------------------------------------------------
// Decoding is the inverse of encoding
// ---------------------------------------------------------------------------

/// Decoding the funct code of an R-type instruction gives the instruction back.
pub proof fn lemma_rtype_roundtrip(instr: RTypeInstruction)
    ensures
        rtype_of_funct(rtype_funct(instr)) == Some(instr),
{
    let f = rtype_funct(instr);
    assert(exists|i: RTypeInstruction| rtype_funct(i) == f);
    let c = choose|i: RTypeInstruction| rtype_funct(i) == f;
    lemma_rtype_funct_injective(c, instr);
}

/// Decoding the opcode of a J-type instruction gives the instruction back.
pub proof fn lemma_jtype_roundtrip(instr: JTypeInstruction)
    ensures
        jtype_of_opcode(jtype_opcode(instr)) == Some(instr),
{
    let op = jtype_opcode(instr);
    assert(exists|i: JTypeInstruction| jtype_opcode(i) == op);
    let c = choose|i: JTypeInstruction| jtype_opcode(i) == op;
    lemma_jtype_opcode_injective(c, instr);
}

/// Decoding the opcode of an I-type instruction gives the instruction back.
pub proof fn lemma_itype_roundtrip(instr: ITypeInstruction)
    ensures
        itype_of_opcode(itype_opcode(instr)) == Some(instr),
{
    let op = itype_opcode(instr);
    assert(exists|i: ITypeInstruction| itype_opcode(i) == op);
    let c = choose|i: ITypeInstruction| itype_opcode(i) == op;
    lemma_itype_opcode_injective(c, instr);
}

/// Whatever the decoders accept is the encoding of what they return: a code that
/// decodes to an instruction is that instruction's code.
pub proof fn lemma_decoded_codes_are_canonical(opcode: u32, funct: u32)
    ensures
        rtype_of_funct(funct) matches Some(i) ==> rtype_funct(i) == funct,
        jtype_of_opcode(opcode) matches Some(i) ==> jtype_opcode(i) == opcode,
        itype_of_opcode(opcode) matches Some(i) ==> itype_opcode(i) == opcode,
        selector_of(opcode, funct) matches Some(s) ==> selector_accepts(s, opcode, funct),
{
}

/// Decoding the fields of a selector gives the selector back; for J-type and
/// I-type instructions whatever value stands in the funct field.
pub proof fn lemma_selector_roundtrip(instr: InstructionSelector, funct: u32)
    ensures
        selector_of(
            selector_code(instr).0,
            match selector_code(instr).1 {
                Some(f) => f,
                None => funct,
            },
        ) == Some(instr),
{
    let opcode = selector_code(instr).0;
    let f = match selector_code(instr).1 {
        Some(f) => f,
        None => funct,
    };
    assert(selector_accepts(instr, opcode, f));
    let c = choose|s: InstructionSelector| selector_accepts(s, opcode, f);
    lemma_selector_accepts_unique(c, instr, opcode, f);
}

/// The selector decoded from a pair of fields is the one in whose format the
/// fields are read: R-type first (opcode 0), then J-type, then I-type.
pub proof fn lemma_selector_of_by_format(opcode: u32, funct: u32)
    ensures
        selector_of(opcode, funct) == (match rtype_of_funct(funct) {
            Some(r) if opcode == 0 => Some(InstructionSelector::RType(r)),
            _ => match jtype_of_opcode(opcode) {
                Some(j) => Some(InstructionSelector::JType(j)),
                None => match itype_of_opcode(opcode) {
                    Some(i) => Some(InstructionSelector::IType(i)),
                    None => None::<InstructionSelector>,
                },
            },
        }),
{
    if opcode == 0 && rtype_of_funct(funct).is_some() {
        let r = rtype_of_funct(funct).unwrap();
        lemma_selector_roundtrip(InstructionSelector::RType(r), funct);
    } else if jtype_of_opcode(opcode).is_some() {
        let j = jtype_of_opcode(opcode).unwrap();
        lemma_selector_roundtrip(InstructionSelector::JType(j), funct);
    } else if itype_of_opcode(opcode).is_some() {
        let i = itype_of_opcode(opcode).unwrap();
        lemma_selector_roundtrip(InstructionSelector::IType(i), funct);
    } else {
        if exists|s: InstructionSelector| selector_accepts(s, opcode, funct) {
            let s = choose|s: InstructionSelector| selector_accepts(s, opcode, funct);
            match s {
                InstructionSelector::RType(r) => {
                    lemma_rtype_roundtrip(r);
                },
                InstructionSelector::JType(j) => {
                    lemma_jtype_roundtrip(j);
                },
                InstructionSelector::IType(i) => {
                    lemma_itype_roundtrip(i);
                },
            }
        }
    }
}

/// The instruction word made of a selector's opcode in bits 26 to 31 and, for
/// R-type, its funct code in bits 0 to 5; every other bit is 0.
pub open spec fn selector_word(instr: InstructionSelector) -> u32 {
    (selector_code(instr).0 * 0x400_0000 + match selector_code(instr).1 {
        Some(f) => f,
        None => 0,
    }) as u32
}

/// Any instruction word whose opcode field, and for R-type whose funct field,
/// carry a selector's code decodes to that selector, whatever its other bits.
pub proof fn lemma_word_decodes(instr: InstructionSelector, word: u32)
    requires
        opcode_field(word) == selector_code(instr).0,
        selector_code(instr).1 matches Some(f) ==> funct_field(word) == f,
    ensures
        selector_of(opcode_field(word), funct_field(word)) == Some(instr),
{
    lemma_selector_roundtrip(instr, funct_field(word));
}

/// Every selector has an instruction word: the one assembled from its fields
/// decodes back to it.
pub proof fn lemma_selector_word_roundtrip(instr: InstructionSelector)
    ensures
        opcode_field(selector_word(instr)) == selector_code(instr).0,
        selector_code(instr).1 matches Some(f) ==> funct_field(selector_word(instr)) == f,
        selector_of(opcode_field(selector_word(instr)), funct_field(selector_word(instr)))
            == Some(instr),
{
    let op = selector_code(instr).0;
    let f: u32 = match selector_code(instr).1 {
        Some(f) => f,
        None => 0,
    };
    lemma_codes_fit_in_six_bits(instr);
    assert(op * 0x400_0000 + f < 0x1_0000_0000) by (nonlinear_arith)
        requires
            op < 64,
            f < 64,
    ;
    let w = (op * 0x400_0000 + f) as u32;
    assert(w / 0x400_0000 == op && w % 0x40 == f) by (nonlinear_arith)
        requires
            w == op * 0x400_0000 + f,
            op < 64,
            f < 64,
    ;
    lemma_word_decodes(instr, w);
}

// ---------------------------------------------------------------------------
// Executable encoders and decoders
// ---------------------------------------------------------------------------

/// The `(opcode, funct)` fields of an R-type instruction.
pub fn encode_rtype(instr: RTypeInstruction) -> (r: (u32, u32))
    ensures
        r == (0u32, rtype_funct(instr)),
{
    let funct: u32 = match instr {
        RTypeInstruction::ShiftLeftLogical => 0,
        RTypeInstruction::ShiftRightLogical => 2,
        RTypeInstruction::ShiftRightArithmetic => 3,
        RTypeInstruction::ShiftLeftLogicalVariable => 4,
        RTypeInstruction::ShiftRightLogicalVariable => 6,
        RTypeInstruction::ShiftRightArithmeticVariable => 7,
        RTypeInstruction::JumpRegister => 8,
        RTypeInstruction::JumpAndLinkRegister => 9,
        RTypeInstruction::Syscall => 12,
        RTypeInstruction::MoveFromHi => 16,
        RTypeInstruction::MoveToHi => 17,
        RTypeInstruction::MoveFromLo => 18,
        RTypeInstruction::MoveToLo => 19,
        RTypeInstruction::Multiply => 24,
        RTypeInstruction::MultiplyUnsigned => 25,
        RTypeInstruction::Div => 26,
        RTypeInstruction::DivUnsigned => 27,
        RTypeInstruction::Add => 32,
        RTypeInstruction::AddUnsigned => 33,
        RTypeInstruction::Sub => 34,
        RTypeInstruction::SubUnsigned => 35,
        RTypeInstruction::And => 36,
        RTypeInstruction::Or => 37,
        RTypeInstruction::Xor => 38,
        RTypeInstruction::Nor => 39,
        RTypeInstruction::SetLessThan => 42,
        RTypeInstruction::SetLessThanUnsigned => 43,
    };
    (0, funct)
}

/// The R-type instruction encoded by `(opcode, funct)`: `None` unless the opcode
/// is 0 and the funct code is in the table.
pub fn decode_rtype(fields: (u32, u32)) -> (r: Option<RTypeInstruction>)
    ensures
        r == (if fields.0 == 0 { rtype_of_funct(fields.1) } else { None }),
{
    let (instr, funct) = fields;
    if instr != 0 {
        return None;
    }
    let instruction = match funct {
        0 => RTypeInstruction::ShiftLeftLogical,
        2 => RTypeInstruction::ShiftRightLogical,
        3 => RTypeInstruction::ShiftRightArithmetic,
        4 => RTypeInstruction::ShiftLeftLogicalVariable,
        6 => RTypeInstruction::ShiftRightLogicalVariable,
        7 => RTypeInstruction::ShiftRightArithmeticVariable,
        8 => RTypeInstruction::JumpRegister,
        9 => RTypeInstruction::JumpAndLinkRegister,
        12 => RTypeInstruction::Syscall,
        16 => RTypeInstruction::MoveFromHi,
        17 => RTypeInstruction::MoveToHi,
        18 => RTypeInstruction::MoveFromLo,
        19 => RTypeInstruction::MoveToLo,
        24 => RTypeInstruction::Multiply,
        25 => RTypeInstruction::MultiplyUnsigned,
        26 => RTypeInstruction::Div,
        27 => RTypeInstruction::DivUnsigned,
        32 => RTypeInstruction::Add,
        33 => RTypeInstruction::AddUnsigned,
        34 => RTypeInstruction::Sub,
        35 => RTypeInstruction::SubUnsigned,
        36 => RTypeInstruction::And,
        37 => RTypeInstruction::Or,
        38 => RTypeInstruction::Xor,
        39 => RTypeInstruction::Nor,
        42 => RTypeInstruction::SetLessThan,
        43 => RTypeInstruction::SetLessThanUnsigned,
        _ => {
            assert(forall|i: RTypeInstruction| rtype_funct(i) != funct);
            return None;
        },
    };
    proof {
        lemma_rtype_roundtrip(instruction);
    }
    Some(instruction)
}

/// The opcode of a J-type instruction.
pub fn encode_jtype(instr: JTypeInstruction) -> (r: u32)
    ensures
        r == jtype_opcode(instr),
{
    match instr {
        JTypeInstruction::Jump => 2,
        JTypeInstruction::JumpAndLink => 3,
    }
}

/// The J-type instruction with opcode `instr`, if there is one.
pub fn decode_jtype(instr: u32) -> (r: Option<JTypeInstruction>)
    ensures
        r == jtype_of_opcode(instr),
{
    match instr {
        2 => {
            proof {
                lemma_jtype_roundtrip(JTypeInstruction::Jump);
            }
            Some(JTypeInstruction::Jump)
        },
        3 => {
            proof {
                lemma_jtype_roundtrip(JTypeInstruction::JumpAndLink);
            }
            Some(JTypeInstruction::JumpAndLink)
        },
        _ => {
            assert(forall|i: JTypeInstruction| jtype_opcode(i) != instr);
            None
        },
    }
}

/// The opcode of an I-type instruction.
pub fn encode_itype(instr: ITypeInstruction) -> (r: u32)
    ensures
        r == itype_opcode(instr),
{
    match instr {
        ITypeInstruction::BranchEq => 4,
        ITypeInstruction::BranchNeq => 5,
        ITypeInstruction::BranchLeqZero => 6,
        ITypeInstruction::BranchGtZero => 7,
        ITypeInstruction::AddImmediate => 8,
        ITypeInstruction::AddImmediateUnsigned => 9,
        ITypeInstruction::SetLessThanImmediate => 10,
        ITypeInstruction::SetLessThanImmediateUnsigned => 11,
        ITypeInstruction::AndImmediate => 12,
        ITypeInstruction::OrImmediate => 13,
        ITypeInstruction::XorImmediate => 14,
        ITypeInstruction::LoadImmediate => 15,
        ITypeInstruction::Load8 => 32,
        ITypeInstruction::Load16 => 33,
        ITypeInstruction::Load32 => 34,
        ITypeInstruction::Load8Unsigned => 36,
        ITypeInstruction::Load16Unsigned => 37,
        ITypeInstruction::Store8 => 40,
        ITypeInstruction::Store16 => 41,
        ITypeInstruction::Store32 => 43,
    }
}

/// The I-type instruction with opcode `instr`, if there is one.
pub fn decode_itype(instr: u32) -> (r: Option<ITypeInstruction>)
    ensures
        r == itype_of_opcode(instr),
{
    let instruction = match instr {
        4 => ITypeInstruction::BranchEq,
        5 => ITypeInstruction::BranchNeq,
        6 => ITypeInstruction::BranchLeqZero,
        7 => ITypeInstruction::BranchGtZero,
        8 => ITypeInstruction::AddImmediate,
        9 => ITypeInstruction::AddImmediateUnsigned,
        10 => ITypeInstruction::SetLessThanImmediate,
        11 => ITypeInstruction::SetLessThanImmediateUnsigned,
        12 => ITypeInstruction::AndImmediate,
        13 => ITypeInstruction::OrImmediate,
        14 => ITypeInstruction::XorImmediate,
        15 => ITypeInstruction::LoadImmediate,
        32 => ITypeInstruction::Load8,
        33 => ITypeInstruction::Load16,
        34 => ITypeInstruction::Load32,
        36 => ITypeInstruction::Load8Unsigned,
        37 => ITypeInstruction::Load16Unsigned,
        40 => ITypeInstruction::Store8,
        41 => ITypeInstruction::Store16,
        43 => ITypeInstruction::Store32,
        _ => {
            assert(forall|i: ITypeInstruction| itype_opcode(i) != instr);
            return None;
        },
    };
    proof {
        lemma_itype_roundtrip(instruction);
    }
    Some(instruction)
}

/// The fields of a selector: `(opcode, Some(funct))` for R-type, `(opcode, None)`
/// otherwise.
pub fn encode_selector(instr: InstructionSelector) -> (r: (u32, Option<u32>))
    ensures
        r == selector_code(instr),
{
    match instr {
        InstructionSelector::RType(instr) => {
            let (opcode, funct) = encode_rtype(instr);
            (opcode, Some(funct))
        },
        InstructionSelector::JType(instr) => (encode_jtype(instr), None),
        InstructionSelector::IType(instr) => (encode_itype(instr), None),
    }
}

/// The instruction encoded by the fields `(opcode, funct)`, if there is one.
pub fn decode_selector(fields: (u32, u32)) -> (r: Option<InstructionSelector>)
    ensures
        r == selector_of(fields.0, fields.1),
{
    let (instr, funct) = fields;
    proof {
        lemma_selector_of_by_format(instr, funct);
    }
    if let Some(rtype) = decode_rtype((instr, funct)) {
        return Some(InstructionSelector::RType(rtype));
    }
    if let Some(jtype) = decode_jtype(instr) {
        return Some(InstructionSelector::JType(jtype));
    }
    if let Some(itype) = decode_itype(instr) {
        return Some(InstructionSelector::IType(itype));
    }
    None
}

/// The instruction encoded by a 32-bit instruction word, read from its opcode
/// field (bits 26 to 31) and its funct field (bits 0 to 5).
pub fn decode(instruction: u32) -> (r: Option<InstructionSelector>)
    ensures
        r == selector_of(opcode_field(instruction), funct_field(instruction)),
{
    let instr = instruction >> 26;
    assert(1u32 << 6u32 == 64) by (bit_vector);
    let mask: u32 = (1u32 << 6u32) - 1;
    let funct = instruction & mask;
    assert(instr == instruction / 0x400_0000 && funct == instruction % 0x40) by (bit_vector)
        requires
            instr == instruction >> 26,
            mask == 63,
            funct == instruction & mask,
    ;
    decode_selector((instr, funct))
}

} // verus!
