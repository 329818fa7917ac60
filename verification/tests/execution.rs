use std::collections::HashMap;

use kimchi_mips::columns::{
    ITypeInstruction, InstructionPart, InstructionSelector, JTypeInstruction, RTypeInstruction,
};
use kimchi_mips::decoding::decode;
use kimchi_mips::environment::{
    Access, Control, Emitted, Gadget, InstructionEnvironment, Lookup, TableID,
};
use vstd::seq::Seq;
use kimchi_mips::execution::{decode_instruction, run_instruction};

/// A witness environment over plain integers: it runs the program and records
/// every lookup and constraint.
struct TestEnv {
    registers: [i64; 34],
    register_writes: [i64; 34],
    memory: HashMap<i64, i64>,
    memory_writes: HashMap<i64, i64>,
    row: i64,
    ip: i64,
    halted: i64,
    parts: [i64; 6],
    lookups: Vec<Lookup<i64>>,
    constraints: Vec<i64>,
    scratch: usize,
    range_checked: Vec<i64>,
}

fn part_index(part: InstructionPart) -> usize {
    match part {
        InstructionPart::OpCode => 0,
        InstructionPart::RS => 1,
        InstructionPart::RT => 2,
        InstructionPart::RD => 3,
        InstructionPart::Shamt => 4,
        InstructionPart::Funct => 5,
    }
}

impl TestEnv {
    fn new(row: i64) -> TestEnv {
        TestEnv {
            registers: [0; 34],
            register_writes: [0; 34],
            memory: HashMap::new(),
            memory_writes: HashMap::new(),
            row,
            ip: 0,
            halted: 0,
            parts: [0; 6],
            lookups: Vec::new(),
            constraints: Vec::new(),
            scratch: 0,
            range_checked: Vec::new(),
        }
    }

    fn set_word(&mut self, word: u32) {
        let w = word as i64;
        self.parts = [
            (w >> 26) & 63,
            (w >> 21) & 31,
            (w >> 16) & 31,
            (w >> 11) & 31,
            (w >> 6) & 31,
            w & 63,
        ];
    }

    fn load_program(&mut self, bytes: &[u8]) {
        for (i, b) in bytes.iter().enumerate() {
            self.memory.insert(i as i64, *b as i64);
        }
    }
}

impl InstructionEnvironment for TestEnv {
    type Column = usize;
    type Variable = i64;
    type Fp = i64;

    // The specification items exist only for the verifier; nothing runs them.
    fn lookups(&self) -> Seq<(i64, i64, Seq<i64>)> {
        unreachable!()
    }

    fn constraints(&self) -> Seq<i64> {
        unreachable!()
    }

    fn control(&self) -> Control<i64> {
        unreachable!()
    }

    fn accesses(&self) -> Seq<Access<i64>> {
        unreachable!()
    }

    fn gadgets(&self) -> Seq<Gadget<i64>> {
        unreachable!()
    }

    fn emitted(&self) -> Seq<Emitted<i64, i64>> {
        unreachable!()
    }

    fn spec_constant(_x: u32) -> i64 {
        unreachable!()
    }

    fn spec_to_fp(_x: i64) -> i64 {
        unreachable!()
    }

    fn spec_decode(_instruction: i64) -> Option<InstructionSelector> {
        unreachable!()
    }

    fn lemma_variable_arithmetic(_a: i64, _b: i64) {
        unreachable!()
    }

    fn lemma_field_negation(_x: i64) {
        unreachable!()
    }

    fn lemma_variable_clone(_a: i64, _b: i64) {
        unreachable!()
    }

    fn current_row(&self) -> i64 {
        self.row
    }

    fn constant(x: u32) -> i64 {
        x as i64
    }

    fn to_fp(x: i64) -> i64 {
        x
    }

    fn instruction_pointer(&self) -> i64 {
        self.ip
    }

    fn set_instruction_pointer(&mut self, ip: &i64) {
        self.ip = *ip;
    }

    fn halted(&self) -> i64 {
        self.halted
    }

    fn set_halted(&mut self, value: &i64) {
        self.halted = *value;
    }

    fn memory_accessible(&mut self, is_enabled: &i64, _column: usize, _addresses: Vec<&i64>) -> i64 {
        *is_enabled
    }

    fn read_memory(&mut self, _output: usize, address: &i64, accessible: &i64) -> i64 {
        if *accessible == 0 {
            0
        } else {
            *self.memory.get(address).unwrap_or(&0)
        }
    }

    fn get_register_value(&mut self, register_idx: &i64, _output_value: usize) -> i64 {
        self.registers[*register_idx as usize]
    }

    fn set_register_value(&mut self, register_idx: &i64, value: &i64) {
        self.registers[*register_idx as usize] = *value;
    }

    fn last_register_write(&mut self, register_idx: &i64, _output_last_write: usize) -> i64 {
        self.register_writes[*register_idx as usize]
    }

    fn set_last_register_write(&mut self, register_idx: &i64, last_write: &i64) {
        self.register_writes[*register_idx as usize] = *last_write;
    }

    fn get_memory_value(&mut self, address: &i64, enabled_if: &i64, _output_value: usize) -> i64 {
        if *enabled_if == 0 {
            0
        } else {
            *self.memory.get(address).unwrap_or(&0)
        }
    }

    fn set_memory_value(&mut self, address: &i64, enabled_if: &i64, value: &i64) {
        if *enabled_if != 0 {
            self.memory.insert(*address, *value);
        }
    }

    fn last_memory_write(&mut self, address: &i64, enabled_if: &i64, _output_last_write: usize) -> i64 {
        if *enabled_if == 0 {
            0
        } else {
            *self.memory_writes.get(address).unwrap_or(&0)
        }
    }

    fn set_last_memory_write(&mut self, address: &i64, enabled_if: &i64, last_write: &i64) {
        if *enabled_if != 0 {
            self.memory_writes.insert(*address, *last_write);
        }
    }

    fn instruction_part(&self, part: InstructionPart) -> i64 {
        self.parts[part_index(part)]
    }

    fn add_lookup(&mut self, lookup: Lookup<i64>) {
        self.lookups.push(lookup);
    }

    fn increment_range_check_counter(&mut self, value: &i64) {
        self.range_checked.push(*value);
    }

    fn range_check_1(&mut self, value: &i64) {
        assert!(*value == 0 || *value == 1);
    }

    fn range_check_2(&mut self, value: &i64) {
        assert!(*value >= 0 && *value < 4);
    }

    fn decompose(&mut self, value: &i64, decomposition_little_endian: Vec<u32>, _outputs: Vec<usize>) -> Vec<i64> {
        let mut rest = *value;
        let mut limbs = Vec::new();
        for bits in decomposition_little_endian {
            limbs.push(rest & ((1i64 << bits) - 1));
            rest >>= bits;
        }
        limbs
    }

    fn div_rem(
        &mut self,
        numerator: &i64,
        denominator: &i64,
        _output_div: usize,
        _output_rem: usize,
        _output_divide_by_zero: usize,
    ) -> (i64, i64, i64) {
        if *denominator == 0 {
            (0, 0, 1)
        } else {
            (numerator / denominator, numerator % denominator, 0)
        }
    }

    fn and_xor(&mut self, lhs: &i64, rhs: &i64, _output_and: usize, _output_xor: usize) -> (i64, i64) {
        (lhs & rhs, lhs ^ rhs)
    }

    fn alloc_scratch(&mut self) -> usize {
        self.scratch += 1;
        self.scratch
    }

    fn decode(instruction: &i64) -> Option<InstructionSelector> {
        decode(*instruction as u32)
    }

    fn assert_(&mut self, value: &i64) {
        self.constraints.push(*value);
    }

    fn eq_zero_terms(&mut self, value: &i64, _res_output: usize, _inv_output: usize) -> (i64, i64) {
        if *value == 0 {
            (1, 0)
        } else if *value == 1 {
            (0, 1)
        } else {
            (0, 0)
        }
    }

    fn sign_extend(&mut self, value: &i64, _output: usize) -> i64 {
        if value & 0x8000 != 0 {
            value - 0x1_0000
        } else {
            *value
        }
    }
}

fn lookup(numerator: i64, table: TableID, value: Vec<i64>) -> Lookup<i64> {
    Lookup { numerator, table_id: table as i64, value }
}

const REG: TableID = TableID::Registers;
const MEM: TableID = TableID::Memory;
const RC: TableID = TableID::RangeCheck16;

#[test]
fn table_codes() {
    assert_eq!(TableID::Memory as u32, 0);
    assert_eq!(TableID::Registers as u32, 1);
    assert_eq!(TableID::RangeCheck16 as u32, 2);
}

#[test]
fn hi_and_lo_register_indices() {
    assert_eq!(TestEnv::hi_register_idx(), 32);
    assert_eq!(TestEnv::lo_register_idx(), 33);
}

#[test]
fn fetch_register_inserts_and_removes() {
    let mut env = TestEnv::new(10);
    env.registers[5] = 42;
    env.register_writes[5] = 3;
    let (value, last_write) = env.fetch_register(&5, 0, 1);
    assert_eq!((value, last_write), (42, 3));
    assert_eq!(env.lookups, vec![lookup(1, REG, vec![42, 5, 10]), lookup(-1, REG, vec![42, 5, 3])]);
    assert_eq!(env.register_writes[5], 10);
    assert_eq!(env.registers[5], 42);
    assert!(env.constraints.is_empty());
}

#[test]
fn overwrite_register_replaces_old_entry() {
    let mut env = TestEnv::new(20);
    env.registers[7] = 9;
    env.register_writes[7] = 4;
    let last_write = env.overwrite_register(&7, &100, 0);
    assert_eq!(last_write, 4);
    assert_eq!(env.lookups, vec![lookup(1, REG, vec![100, 7, 20]), lookup(-1, REG, vec![9, 7, 4])]);
    assert_eq!(env.registers[7], 100);
    assert_eq!(env.register_writes[7], 20);
}

#[test]
fn fetch_memory_weighted_by_enabled() {
    let mut env = TestEnv::new(8);
    env.memory.insert(100, 0xab);
    env.memory_writes.insert(100, 2);
    let (value, last_write) = env.fetch_memory(&100, &1, 0, 1);
    assert_eq!((value, last_write), (0xab, 2));
    assert_eq!(env.lookups, vec![lookup(1, MEM, vec![0xab, 100, 8]), lookup(-1, MEM, vec![0xab, 100, 2])]);

    let mut env = TestEnv::new(8);
    env.memory.insert(100, 0xab);
    let (value, last_write) = env.fetch_memory(&100, &0, 0, 1);
    assert_eq!((value, last_write), (0, 0));
    assert_eq!(env.lookups, vec![lookup(0, MEM, vec![0, 100, 8]), lookup(0, MEM, vec![0, 100, 0])]);
}

#[test]
fn overwrite_memory_replaces_old_entry() {
    let mut env = TestEnv::new(30);
    env.memory.insert(4, 1);
    env.memory_writes.insert(4, 12);
    let last_write = env.overwrite_memory(&4, &2, &1, 0);
    assert_eq!(last_write, 12);
    assert_eq!(env.lookups, vec![lookup(1, MEM, vec![2, 4, 30]), lookup(-1, MEM, vec![1, 4, 12])]);
    assert_eq!(env.memory[&4], 2);
}

#[test]
fn range_check_16_adds_one_lookup() {
    let mut env = TestEnv::new(0);
    env.range_check_16(&77);
    assert_eq!(env.lookups, vec![lookup(-1, RC, vec![77])]);
    assert_eq!(env.range_checked, vec![77]);
}

#[test]
fn range_check_scales_by_remaining_bits() {
    let mut env = TestEnv::new(0);
    env.range_check(&5, 14);
    assert_eq!(env.lookups, vec![lookup(-1, RC, vec![5]), lookup(-1, RC, vec![20])]);
    let mut env = TestEnv::new(0);
    env.range_check(&3, 0);
    assert_eq!(env.lookups, vec![lookup(-1, RC, vec![3]), lookup(-1, RC, vec![3 << 16])]);
}

#[test]
fn checked_accesses_range_check_distance() {
    let mut env = TestEnv::new(50);
    env.registers[3] = 8;
    env.register_writes[3] = 45;
    assert_eq!(env.fetch_register_checked(&3), 8);
    assert_eq!(
        env.lookups,
        vec![lookup(1, REG, vec![8, 3, 50]), lookup(-1, REG, vec![8, 3, 45]), lookup(-1, RC, vec![5])]
    );

    let mut env = TestEnv::new(50);
    env.registers[3] = 8;
    env.register_writes[3] = 40;
    env.overwrite_register_checked(&3, &9);
    assert_eq!(
        env.lookups,
        vec![lookup(1, REG, vec![9, 3, 50]), lookup(-1, REG, vec![8, 3, 40]), lookup(-1, RC, vec![10])]
    );

    let mut env = TestEnv::new(50);
    env.memory.insert(6, 1);
    env.memory_writes.insert(6, 49);
    assert_eq!(env.fetch_memory_checked(&6, &1), 1);
    assert_eq!(
        env.lookups,
        vec![lookup(1, MEM, vec![1, 6, 50]), lookup(-1, MEM, vec![1, 6, 49]), lookup(-1, RC, vec![1])]
    );

    let mut env = TestEnv::new(50);
    env.memory.insert(6, 1);
    env.memory_writes.insert(6, 0);
    env.overwrite_memory_checked(&6, &2, &1);
    assert_eq!(
        env.lookups,
        vec![lookup(1, MEM, vec![2, 6, 50]), lookup(-1, MEM, vec![1, 6, 0]), lookup(-1, RC, vec![50])]
    );
}

#[test]
fn immediate_from_parts() {
    let mut env = TestEnv::new(0);
    env.set_word(0x2484_8765);
    assert_eq!(env.immediate(), 0x8765);
    env.set_word(0x2402_000a);
    assert_eq!(env.immediate(), 10);
}

#[test]
fn is_zero_asserts_two_constraints() {
    let mut env = TestEnv::new(0);
    assert_eq!(env.is_zero(&0), 1);
    assert_eq!(env.constraints, vec![0, 0]);
    let mut env = TestEnv::new(0);
    assert_eq!(env.is_zero(&1), 0);
    assert_eq!(env.constraints, vec![0, 0]);
    let mut env = TestEnv::new(0);
    // 5 has no integer inverse: the first constraint is not met
    assert_eq!(env.is_zero(&5), 0);
    assert_eq!(env.constraints, vec![-1, 0]);
}

#[test]
fn decode_instruction_reads_big_endian_word() {
    let mut env = TestEnv::new(100);
    env.load_program(&[0x24, 0x0a, 0x00, 0x1a]);
    let (selector, word) = decode_instruction(&mut env);
    assert_eq!(word, 0x240a_001a);
    assert_eq!(selector, Some(InstructionSelector::IType(ITypeInstruction::AddImmediateUnsigned)));
    assert_eq!(env.lookups.len(), 12);
    assert_eq!(env.lookups[0], lookup(1, MEM, vec![0x24, 0, 100]));
    assert_eq!(env.lookups[3], lookup(1, MEM, vec![0x0a, 1, 100]));
    assert_eq!(env.lookups[11], lookup(-1, RC, vec![100]));
    assert_eq!(env.ip, 0);
}

#[test]
fn decode_instruction_when_halted_reads_nothing() {
    let mut env = TestEnv::new(100);
    env.load_program(&[0x24, 0x0a, 0x00, 0x1a]);
    env.halted = 1;
    let (selector, word) = decode_instruction(&mut env);
    assert_eq!(word, 0);
    assert_eq!(selector, Some(InstructionSelector::RType(RTypeInstruction::ShiftLeftLogical)));
    assert_eq!(env.lookups[0], lookup(0, MEM, vec![0, 0, 100]));
}

#[test]
fn no_op_instruction_advances() {
    let mut env = TestEnv::new(1);
    env.ip = 8;
    run_instruction(InstructionSelector::RType(RTypeInstruction::Add), &mut env);
    assert_eq!(env.ip, 12);
    assert!(env.lookups.is_empty());
    env.halted = 1;
    run_instruction(InstructionSelector::IType(ITypeInstruction::Load32), &mut env);
    assert_eq!(env.ip, 12);
}

#[test]
fn syscall_halts() {
    let mut env = TestEnv::new(1);
    env.ip = 8;
    run_instruction(InstructionSelector::RType(RTypeInstruction::Syscall), &mut env);
    assert_eq!(env.halted, 1);
    assert_eq!(env.ip, 8);
    assert!(env.lookups.is_empty());
}

#[test]
fn jump_and_comparisons_with_zero_do_nothing() {
    for s in [
        InstructionSelector::JType(JTypeInstruction::Jump),
        InstructionSelector::IType(ITypeInstruction::BranchLeqZero),
        InstructionSelector::IType(ITypeInstruction::BranchGtZero),
    ] {
        let mut env = TestEnv::new(1);
        env.ip = 8;
        run_instruction(s, &mut env);
        assert_eq!(env.ip, 8);
        assert!(env.lookups.is_empty());
    }
}

#[test]
fn jump_and_link_writes_return_address() {
    let mut env = TestEnv::new(7);
    env.ip = 16;
    run_instruction(InstructionSelector::JType(JTypeInstruction::JumpAndLink), &mut env);
    assert_eq!(env.registers[31], 24);
    assert_eq!(env.ip, 16);
    assert_eq!(
        env.lookups,
        vec![lookup(1, REG, vec![24, 31, 7]), lookup(-1, REG, vec![0, 31, 0]), lookup(-1, RC, vec![7])]
    );
}

#[test]
fn moves_between_hi_lo_and_registers() {
    let mut env = TestEnv::new(3);
    env.set_word(0x0080_0011); // mthi $4
    env.registers[4] = 77;
    run_instruction(InstructionSelector::RType(RTypeInstruction::MoveToHi), &mut env);
    assert_eq!(env.registers[32], 77);
    env.set_word(0x0000_2810); // mfhi $5
    run_instruction(InstructionSelector::RType(RTypeInstruction::MoveFromHi), &mut env);
    assert_eq!(env.registers[5], 77);
    env.set_word(0x0080_0013); // mtlo $4
    run_instruction(InstructionSelector::RType(RTypeInstruction::MoveToLo), &mut env);
    assert_eq!(env.registers[33], 77);
    env.set_word(0x0000_3012); // mflo $6
    run_instruction(InstructionSelector::RType(RTypeInstruction::MoveFromLo), &mut env);
    assert_eq!(env.registers[6], 77);
    assert_eq!(env.ip, 16);
    assert_eq!(env.lookups.len(), 4 * 6);
}

#[test]
fn load_immediate_shifts_by_16() {
    let mut env = TestEnv::new(2);
    env.set_word(0x3c0b_0012); // lui $t3, 0x12
    run_instruction(InstructionSelector::IType(ITypeInstruction::LoadImmediate), &mut env);
    assert_eq!(env.registers[11], 0x12_0000);
    assert_eq!(env.ip, 4);
}

#[test]
fn add_immediate_unsigned() {
    let mut env = TestEnv::new(2);
    env.registers[4] = 5;
    env.set_word(0x2484_0010); // addiu $a0, $a0, 16
    run_instruction(InstructionSelector::IType(ITypeInstruction::AddImmediateUnsigned), &mut env);
    assert_eq!(env.registers[4], 21);
    assert_eq!(
        env.lookups,
        vec![
            lookup(1, REG, vec![5, 4, 2]),
            lookup(-1, REG, vec![5, 4, 0]),
            lookup(-1, RC, vec![2]),
            lookup(1, REG, vec![21, 4, 2]),
            lookup(-1, REG, vec![5, 4, 2]),
            lookup(-1, RC, vec![0]),
        ]
    );
}

#[test]
fn arithmetic_and_logic() {
    let mut env = TestEnv::new(2);
    env.registers[10] = 0x1_0005;
    env.registers[11] = 3;
    env.set_word(0x014b_6021); // addu $t4, $t2, $t3
    run_instruction(InstructionSelector::RType(RTypeInstruction::AddUnsigned), &mut env);
    assert_eq!(env.registers[12], 0x1_0008);
    env.set_word(0x014b_6823); // subu $t5, $t2, $t3
    run_instruction(InstructionSelector::RType(RTypeInstruction::SubUnsigned), &mut env);
    assert_eq!(env.registers[13], 0x1_0002);
    env.set_word(0x014b_7024); // and $t6, $t2, $t3
    run_instruction(InstructionSelector::RType(RTypeInstruction::And), &mut env);
    assert_eq!(env.registers[14], 1);
    env.set_word(0x014b_7826); // xor $t7, $t2, $t3
    run_instruction(InstructionSelector::RType(RTypeInstruction::Xor), &mut env);
    assert_eq!(env.registers[15], 0x1_0006);
    env.set_word(0x314a_00ff); // andi $t2, $t2, 0xff
    run_instruction(InstructionSelector::IType(ITypeInstruction::AndImmediate), &mut env);
    assert_eq!(env.registers[10], 5);
    env.set_word(0x394a_000f); // xori $t2, $t2, 0xf
    run_instruction(InstructionSelector::IType(ITypeInstruction::XorImmediate), &mut env);
    assert_eq!(env.registers[10], 10);
    assert_eq!(env.ip, 24);
}

#[test]
fn multiply_and_divide_unsigned() {
    let mut env = TestEnv::new(2);
    env.registers[8] = 0x1_0001;
    env.registers[9] = 0x1_0000;
    env.set_word(0x0109_0019); // multu $t0, $t1
    run_instruction(InstructionSelector::RType(RTypeInstruction::MultiplyUnsigned), &mut env);
    assert_eq!(env.registers[32], 1);
    assert_eq!(env.registers[33], 0x1_0000);
    env.registers[9] = 7;
    env.set_word(0x0109_001b); // divu $t0, $t1
    run_instruction(InstructionSelector::RType(RTypeInstruction::DivUnsigned), &mut env);
    assert_eq!(env.registers[33], 0x1_0001 / 7);
    assert_eq!(env.registers[32], 0x1_0001 % 7);
    assert_eq!(env.halted, 0);
    assert_eq!(env.ip, 8);
    env.registers[9] = 0;
    run_instruction(InstructionSelector::RType(RTypeInstruction::DivUnsigned), &mut env);
    assert_eq!(env.halted, 1);
    assert_eq!(env.ip, 8);
}

#[test]
fn branches() {
    let mut env = TestEnv::new(2);
    env.ip = 100;
    env.registers[1] = 4;
    env.registers[2] = 4;
    env.set_word(0x1022_0003); // beq $1, $2, 3
    run_instruction(InstructionSelector::IType(ITypeInstruction::BranchEq), &mut env);
    assert_eq!(env.ip, 116);
    env.set_word(0x1422_0003); // bne $1, $2, 3
    run_instruction(InstructionSelector::IType(ITypeInstruction::BranchNeq), &mut env);
    assert_eq!(env.ip, 120);
    env.registers[2] = 5;
    env.set_word(0x1422_ffff); // bne $1, $2, -1
    run_instruction(InstructionSelector::IType(ITypeInstruction::BranchNeq), &mut env);
    assert_eq!(env.ip, 120);
}

#[test]
fn jump_register_checks_top_bits() {
    let mut env = TestEnv::new(2);
    env.ip = 40;
    env.registers[31] = 0x100;
    env.set_word(0x03e0_0008); // jr $ra
    run_instruction(InstructionSelector::RType(RTypeInstruction::JumpRegister), &mut env);
    // a target whose two top bits are clear keeps the machine running, and the
    // instruction pointer is only replaced by the target once halted
    assert_eq!(env.halted, 0);
    assert_eq!(env.ip, 40);
    env.registers[31] = 0xc000_0100;
    run_instruction(InstructionSelector::RType(RTypeInstruction::JumpRegister), &mut env);
    assert_eq!(env.halted, 1);
    assert_eq!(env.ip, 0xc000_0100);
}

#[test]
fn jump_and_link_register_links() {
    let mut env = TestEnv::new(2);
    env.ip = 40;
    env.registers[25] = 0x200;
    env.set_word(0x0320_f809); // jalr $t9
    run_instruction(InstructionSelector::RType(RTypeInstruction::JumpAndLinkRegister), &mut env);
    assert_eq!(env.registers[31], 48);
    assert_eq!(env.halted, 0);
}

#[test]
fn sample_program_first_steps() {
    let data = vec![
        0x24, 0x0a, 0x00, 0x1a, 0x3c, 0x0b, 0x00, 0x00, 0x8d, 0x6b, 0x00, 0x08, 0x00, 0x00, 0x00,
        0x00, 0x01, 0x4b, 0x60, 0x20, 0x08, 0x00, 0x00, 0x05, 0x01, 0x4b, 0x68, 0x22, 0x3c, 0x01,
        0x00, 0x00, 0xac, 0x2d, 0x00, 0x0c, 0x24, 0x02, 0x00, 0x04, 0x3c, 0x04, 0x00, 0x00, 0x24,
        0x84, 0x00, 0x10, 0x00, 0x00, 0x00, 0x0c, 0x24, 0x02, 0x00, 0x0a, 0x00, 0x00, 0x00, 0x0c,
        0x00, 0x00, 0x00, 0x00,
    ];
    let mut env = TestEnv::new(1);
    env.load_program(&data);
    let mut executed = 0;
    loop {
        let (selector, word) = decode_instruction(&mut env);
        env.set_word(word as u32);
        match selector {
            Some(s) => run_instruction(s, &mut env),
            None => break,
        }
        env.row += 1;
        executed += 1;
    }
    // addiu $t2, $zero, 26 and lui $t3, 0 run; the word at 8 has opcode 35
    assert_eq!(executed, 2);
    assert_eq!(env.registers[10], 26);
    assert_eq!(env.registers[11], 0);
    assert_eq!(env.ip, 8);
}

#[test]
fn add_unsigned_counts_its_range_checks() {
    let mut env = TestEnv::new(5);
    env.registers[8] = 0xffff_ffff;
    env.registers[9] = 0x2;
    env.set_word(0x0109_5021); // addu $t2, $t0, $t1
    run_instruction(InstructionSelector::RType(RTypeInstruction::AddUnsigned), &mut env);
    // The sum wraps: the carry limb is dropped and the two 16-bit limbs are joined.
    assert_eq!(env.registers[10], 0x1);
    // Distances of the two reads, the two 16-bit limbs, the distance of the write.
    assert_eq!(env.range_checked, vec![5, 5, 0x1, 0x0, 5]);
    assert_eq!(env.register_writes[10], 5);
}

#[test]
fn branch_not_equal_is_the_opposite_of_branch_equal() {
    let mut env = TestEnv::new(1);
    env.registers[8] = 3;
    env.registers[9] = 3;
    env.set_word(0x1509_0004); // bne $t0, $t1, 4
    run_instruction(InstructionSelector::IType(ITypeInstruction::BranchNeq), &mut env);
    assert_eq!(env.ip, 4);
    env.ip = 0;
    env.set_word(0x1109_0004); // beq $t0, $t1, 4
    run_instruction(InstructionSelector::IType(ITypeInstruction::BranchEq), &mut env);
    assert_eq!(env.ip, 4 + 16);
    // Each is_zero asserts its two constraints, which hold.
    assert_eq!(env.constraints, vec![0, 0, 0, 0]);
}

#[test]
fn register_read_after_write() {
    let mut env = TestEnv::new(9);
    env.overwrite_register(&12, &0x55, 0);
    let (value, last_write) = env.fetch_register(&12, 0, 0);
    assert_eq!(value, 0x55);
    assert_eq!(last_write, 9);
}

#[test]
fn memory_read_after_write() {
    let mut env = TestEnv::new(4);
    env.overwrite_memory(&0x100, &0x7f, &1, 0);
    let (value, last_write) = env.fetch_memory(&0x100, &1, 0, 0);
    assert_eq!(value, 0x7f);
    assert_eq!(last_write, 4);
}

#[test]
fn halted_machine_stays_halted() {
    let mut env = TestEnv::new(1);
    env.halted = 1;
    env.registers[8] = 0x40; // an aligned target
    env.set_word(0x0100_0008); // jr $t0
    run_instruction(InstructionSelector::RType(RTypeInstruction::JumpRegister), &mut env);
    assert_eq!(env.halted, 1);
    env.registers[9] = 5;
    env.set_word(0x0109_001b); // divu $t0, $t1
    run_instruction(InstructionSelector::RType(RTypeInstruction::DivUnsigned), &mut env);
    assert_eq!(env.halted, 1);
    env.set_word(0x0000_000c); // syscall
    run_instruction(InstructionSelector::RType(RTypeInstruction::Syscall), &mut env);
    assert_eq!(env.halted, 1);
}
