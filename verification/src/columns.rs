use vstd::prelude::*;

verus! {

/// R-type instructions: opcode 0, the operation is selected by the `funct` field.
#[derive(Clone, Copy, Debug, PartialEq, Eq, Hash, Structural)]
pub enum RTypeInstruction {
    ShiftLeftLogical,
    ShiftRightLogical,
    ShiftRightArithmetic,
    ShiftLeftLogicalVariable,
    ShiftRightLogicalVariable,
    ShiftRightArithmeticVariable,
    JumpRegister,
    JumpAndLinkRegister,
    Syscall,
    MoveFromHi,
    MoveToHi,
    MoveFromLo,
    MoveToLo,
    Multiply,
    MultiplyUnsigned,
    Div,
    DivUnsigned,
    Add,
    AddUnsigned,
    Sub,
    SubUnsigned,
    And,
    Or,
    Xor,
    Nor,
    SetLessThan,
    SetLessThanUnsigned,
}

/// J-type instructions: the operation is selected by the opcode alone.
#[derive(Clone, Copy, Debug, PartialEq, Eq, Hash, Structural)]
pub enum JTypeInstruction {
    Jump,
    JumpAndLink,
}

/// I-type instructions: the operation is selected by the opcode alone.
#[derive(Clone, Copy, Debug, PartialEq, Eq, Hash, Structural)]
pub enum ITypeInstruction {
    BranchEq,
    BranchNeq,
    BranchLeqZero,
    BranchGtZero,
    AddImmediate,
    AddImmediateUnsigned,
    SetLessThanImmediate,
    SetLessThanImmediateUnsigned,
    AndImmediate,
    OrImmediate,
    XorImmediate,
    LoadImmediate,
    Load8,
    Load16,
    Load32,
    Load8Unsigned,
    Load16Unsigned,
    Store8,
    Store16,
    Store32,
}

/// A decoded instruction, tagged with its encoding format.
#[derive(Clone, Copy, Debug, PartialEq, Eq, Hash, Structural)]
pub enum InstructionSelector {
    RType(RTypeInstruction),
    JType(JTypeInstruction),
    IType(ITypeInstruction),
}

/// The bit fields of a 32-bit MIPS instruction word.
#[derive(Clone, Copy, Debug, PartialEq, Eq, Hash, Structural)]
pub enum InstructionPart {
    OpCode,
    RS,
    RT,
    RD,
    Shamt,
    Funct,
}

} // verus!
