use vstd::prelude::*;
use vstd::std_specs::ops::{AddSpec, MulSpec, SubSpec};
use crate::columns::{
    ITypeInstruction, InstructionPart, InstructionSelector, JTypeInstruction, RTypeInstruction,
};
use vstd::arithmetic::div_mod::lemma_fundamental_div_mod_converse;
use vstd::arithmetic::power2::{lemma2_to64, pow2};
use crate::environment::{
    checked_access_lookups, ends_with, memory_fetch_accesses, memory_write_accesses,
    range_check_lookup, recorded, register_fetch_accesses, register_write_accesses, table_code,
    Access, Control, Gadget, InstructionEnvironment, TableID,
};

verus! {

/// A lookup entry as stored in an environment's log.
pub type LookupEntry<F> = (F, F, Seq<F>);

/// Sums, differences and products of variables are defined for all operands.
pub proof fn lemma_arithmetic_total<E: InstructionEnvironment>()
    ensures
        forall|a: E::Variable, b: E::Variable| #[trigger] a.add_req(b),
        forall|a: E::Variable, b: E::Variable| #[trigger] a.sub_req(b),
        forall|a: E::Variable, b: E::Variable| #[trigger] a.mul_req(b),
        <E::Variable as AddSpec>::obeys_add_spec(),
        <E::Variable as SubSpec>::obeys_sub_spec(),
        <E::Variable as MulSpec>::obeys_mul_spec(),
{
    assert forall|a: E::Variable, b: E::Variable| #[trigger] a.add_req(b) by {
        E::lemma_variable_arithmetic(a, b);
    }
    assert forall|a: E::Variable, b: E::Variable| #[trigger] a.sub_req(b) by {
        E::lemma_variable_arithmetic(a, b);
    }
    assert forall|a: E::Variable, b: E::Variable| #[trigger] a.mul_req(b) by {
        E::lemma_variable_arithmetic(a, b);
    }
    let a = E::spec_constant(0);
    E::lemma_variable_arithmetic(a, a);
}

/// The lookups of a checked read of the cell `address` of `table`, with weight
/// `weight`, that finds `value` last written at `last_write`: the access pair and
/// the range check of `row - last_write`.
pub open spec fn checked_read<E: InstructionEnvironment>(
    table: TableID,
    weight: E::Variable,
    row: E::Variable,
    address: E::Variable,
    value: E::Variable,
    last_write: E::Variable,
) -> Seq<LookupEntry<E::Fp>> {
    checked_write::<E>(table, weight, row, address, value, value, last_write)
}

/// The lookups of a checked write of `value` to the cell `address` of `table`,
/// with weight `weight`, replacing `old_value` last written at `last_write`: the
/// access pair and the range check of `row - last_write`.
pub open spec fn checked_write<E: InstructionEnvironment>(
    table: TableID,
    weight: E::Variable,
    row: E::Variable,
    address: E::Variable,
    value: E::Variable,
    old_value: E::Variable,
    last_write: E::Variable,
) -> Seq<LookupEntry<E::Fp>> {
    checked_access_lookups(
        E::spec_to_fp(E::spec_constant(1)),
        E::spec_to_fp(weight),
        E::spec_to_fp(E::spec_constant(table_code(table))),
        E::spec_to_fp(E::spec_constant(table_code(TableID::RangeCheck16))),
        E::spec_to_fp(address),
        E::spec_to_fp(value),
        E::spec_to_fp(row),
        E::spec_to_fp(old_value),
        E::spec_to_fp(last_write),
        E::spec_to_fp(row.sub_spec(last_write)),
    )
}

/// The lookups that the `k`-th gadget call in `f`'s log appended.
pub open spec fn gadget_lookups<E: InstructionEnvironment>(f: E, k: int) -> Seq<LookupEntry<E::Fp>> {
    f.emitted()[k].lookups
}

/// The constraints that the `k`-th gadget call in `f`'s log appended.
pub open spec fn gadget_constraints<E: InstructionEnvironment>(f: E, k: int) -> Seq<E::Variable> {
    f.emitted()[k].constraints
}

/// `f` logs `count` more gadget calls than `o`, after those of `o`.
pub open spec fn emitted_grew<E: InstructionEnvironment>(o: E, f: E, count: int) -> bool {
    &&& o.emitted().is_prefix_of(f.emitted())
    &&& f.emitted().len() == o.emitted().len() + count
}

/// A sequence extended by `suffix` ends with it.
pub proof fn lemma_ends_with_extension<A>(s: Seq<A>, suffix: Seq<A>)
    ensures
        ends_with(s + suffix, suffix),
{
    assert((s + suffix).subrange(s.len() as int, (s + suffix).len() as int) =~= suffix);
}

/// The address `ip + offset` of the `offset`-th byte of the instruction at `ip`.
pub open spec fn byte_address<E: InstructionEnvironment>(ip: E::Variable, offset: u32) -> E::Variable {
    if offset == 0 {
        ip
    } else {
        ip.add_spec(E::spec_constant(offset))
    }
}

/// The big-endian word made of four bytes: `b0 * 2^24 + b1 * 2^16 + b2 * 2^8 + b3`.
pub open spec fn big_endian_word<E: InstructionEnvironment>(
    b0: E::Variable,
    b1: E::Variable,
    b2: E::Variable,
    b3: E::Variable,
) -> E::Variable {
    E::spec_constant(0x100_0000).mul_spec(b0).add_spec(E::spec_constant(0x1_0000).mul_spec(b1)).add_spec(
        E::spec_constant(0x100).mul_spec(b2),
    ).add_spec(b3)
}

/// The lookups of reading the four bytes of the instruction at `ip`, with weight
/// `weight`: `bytes[k]` is read at `ip + k` and was last written at
/// `last_writes[k]`.
pub open spec fn instruction_reads<E: InstructionEnvironment>(
    weight: E::Variable,
    row: E::Variable,
    ip: E::Variable,
    bytes: Seq<E::Variable>,
    last_writes: Seq<E::Variable>,
) -> Seq<LookupEntry<E::Fp>> {
    checked_read::<E>(
        TableID::Memory,
        weight,
        row,
        byte_address::<E>(ip, 0),
        bytes[0],
        last_writes[0],
    ) + checked_read::<E>(
        TableID::Memory,
        weight,
        row,
        byte_address::<E>(ip, 1),
        bytes[1],
        last_writes[1],
    ) + checked_read::<E>(
        TableID::Memory,
        weight,
        row,
        byte_address::<E>(ip, 2),
        bytes[2],
        last_writes[2],
    ) + checked_read::<E>(
        TableID::Memory,
        weight,
        row,
        byte_address::<E>(ip, 3),
        bytes[3],
        last_writes[3],
    )
}

/// The previous write found by a checked read that took the environment from
/// `before` to `after`: the row recorded by its second access.
pub open spec fn read_last<E: InstructionEnvironment>(before: E, after: E) -> E::Variable {
    recorded(after.accesses()[before.accesses().len() + 1int])
}

/// The value replaced by a write that took the environment from `before` to
/// `after`: the value recorded by its first access.
pub open spec fn write_old<E: InstructionEnvironment>(before: E, after: E) -> E::Variable {
    recorded(after.accesses()[before.accesses().len() as int])
}

/// The previous write found by a write that took the environment from `before`
/// to `after`: the row recorded by its third access.
pub open spec fn write_last<E: InstructionEnvironment>(before: E, after: E) -> E::Variable {
    recorded(after.accesses()[before.accesses().len() + 2int])
}

/// The accesses of a checked read of the byte at `address`, with weight `weight`,
/// that finds `value` last written at `last_write`.
pub open spec fn checked_byte_accesses<E: InstructionEnvironment>(
    weight: E::Variable,
    row: E::Variable,
    address: E::Variable,
    value: E::Variable,
    last_write: E::Variable,
) -> Seq<Access<E::Variable>> {
    memory_fetch_accesses(address, weight, value, last_write, row).push(
        Access::CountRangeCheck { value: row.sub_spec(last_write) },
    )
}

/// The accesses of reading the four bytes of the instruction at `ip`.
pub open spec fn instruction_read_accesses<E: InstructionEnvironment>(
    weight: E::Variable,
    row: E::Variable,
    ip: E::Variable,
    bytes: Seq<E::Variable>,
    last_writes: Seq<E::Variable>,
) -> Seq<Access<E::Variable>> {
    checked_byte_accesses::<E>(weight, row, byte_address::<E>(ip, 0), bytes[0], last_writes[0])
        + checked_byte_accesses::<E>(weight, row, byte_address::<E>(ip, 1), bytes[1], last_writes[1])
        + checked_byte_accesses::<E>(weight, row, byte_address::<E>(ip, 2), bytes[2], last_writes[2])
        + checked_byte_accesses::<E>(weight, row, byte_address::<E>(ip, 3), bytes[3], last_writes[3])
}

/// Fetching the instruction word `word` took the environment from `o` to `f`:
/// `memory_accessible` was asked, with weight `1 - halted`, about the four byte
/// addresses `ip .. ip + 3` and answered `accessible`; then the four bytes were
/// read with that weight, `bytes[k]` at `ip + k` last written at
/// `last_writes[k]`; `word` is the bytes in big-endian order.
pub open spec fn instruction_fetch<E: InstructionEnvironment>(
    o: E,
    f: E,
    word: E::Variable,
    accessible: E::Variable,
    bytes: Seq<E::Variable>,
    last_writes: Seq<E::Variable>,
) -> bool {
    let row = o.control().row;
    let ip = o.control().ip;
    &&& bytes.len() == 4
    &&& last_writes.len() == 4
    &&& word == big_endian_word::<E>(bytes[0], bytes[1], bytes[2], bytes[3])
    &&& f.gadgets() == o.gadgets().push(
        Gadget::MemoryAccessible {
            enabled: E::spec_constant(1).sub_spec(o.control().halted),
            addresses: seq![
                byte_address::<E>(ip, 0),
                byte_address::<E>(ip, 1),
                byte_address::<E>(ip, 2),
                byte_address::<E>(ip, 3),
            ],
            accessible,
        },
    )
    &&& emitted_grew(o, f, 1)
    &&& f.lookups() == o.lookups() + gadget_lookups(f, o.emitted().len() as int)
        + instruction_reads::<E>(accessible, row, ip, bytes, last_writes)
    &&& f.accesses() == o.accesses() + instruction_read_accesses::<E>(
        accessible,
        row,
        ip,
        bytes,
        last_writes,
    )
    &&& f.constraints() == o.constraints() + gadget_constraints(f, o.emitted().len() as int)
    &&& f.control() == o.control()
}

/// Fetches and decodes the instruction at the instruction pointer: reads its four
/// bytes from memory (weighted by whether they are accessible and the machine
/// has not halted), assembles them into a big-endian word, and decodes it.
/// Returns the decoded instruction and the word.
#[verifier::spinoff_prover]
#[verifier::rlimit(100)]
pub fn decode_instruction<Env: InstructionEnvironment>(env: &mut Env) -> (r: (
    Option<InstructionSelector>,
    Env::Variable,
))
    ensures
        r.0 == Env::spec_decode(r.1),
        exists|accessible: Env::Variable, bytes: Seq<Env::Variable>, last_writes: Seq<Env::Variable>|
            #![trigger instruction_fetch::<Env>(*old(env), *final(env), r.1, accessible, bytes, last_writes)]
            instruction_fetch::<Env>(*old(env), *final(env), r.1, accessible, bytes, last_writes),
{
    broadcast use {lemma_prefix_of_extension, lemma_prefix_of_push, lemma_prefix_transitive};

    proof {
        lemma_arithmetic_total::<Env>();
    }
    let ghost start = *env;
    let a0 = env.instruction_pointer();
    let a1 = env.instruction_pointer() + Env::constant(1u32);
    let a2 = env.instruction_pointer() + Env::constant(2u32);
    let a3 = env.instruction_pointer() + Env::constant(3u32);
    let memory_accessible = {
        let scratch = env.alloc_scratch();
        let not_halted = Env::constant(1u32) - env.halted();
        let mut addresses: Vec<&Env::Variable> = Vec::new();
        addresses.push(&a0);
        addresses.push(&a1);
        addresses.push(&a2);
        addresses.push(&a3);
        assert(addresses@.map_values(|a: &Env::Variable| *a) =~= seq![a0, a1, a2, a3]);
        env.memory_accessible(&not_halted, scratch, addresses)
    };
    let may_read = memory_accessible;
    let ghost s0 = *env;
    let i0 = env.fetch_memory_checked(&a0, &may_read);
    let ghost s1 = *env;
    let i1 = env.fetch_memory_checked(&a1, &may_read);
    let ghost s2 = *env;
    let i2 = env.fetch_memory_checked(&a2, &may_read);
    let ghost s3 = *env;
    let i3 = env.fetch_memory_checked(&a3, &may_read);

    let instruction = (Env::constant(1u32 << 24u32) * i0) + (Env::constant(1u32 << 16u32) * i1) + (
    Env::constant(1u32 << 8u32) * i2) + i3;
    proof {
        assert(1u32 << 24u32 == 0x100_0000 && 1u32 << 16u32 == 0x1_0000 && 1u32 << 8u32 == 0x100)
            by (bit_vector);
        let row = start.control().row;
        let bytes = seq![i0, i1, i2, i3];
        let last_writes = seq![
            read_last::<Env>(s0, s1),
            read_last::<Env>(s1, s2),
            read_last::<Env>(s2, s3),
            read_last::<Env>(s3, *env),
        ];
        assert(instruction_fetch::<Env>(start, *env, instruction, may_read, bytes, last_writes)) by {
            let reads = instruction_reads::<Env>(may_read, row, start.control().ip, bytes, last_writes);
            assert(env.lookups() =~= s0.lookups() + reads);
            lemma_ends_with_extension(s0.lookups(), reads);
            let accesses = instruction_read_accesses::<Env>(
                may_read,
                row,
                start.control().ip,
                bytes,
                last_writes,
            );
            assert(s0.accesses() == start.accesses());
            assert(env.accesses() =~= start.accesses() + accesses);
        }
    }
    let decoded = Env::decode(&instruction);
    proof {
        assert(exists|accessible: Env::Variable, bytes: Seq<Env::Variable>, last_writes: Seq<Env::Variable>|
            #![trigger instruction_fetch::<Env>(start, *env, instruction, accessible, bytes, last_writes)]
            instruction_fetch::<Env>(start, *env, instruction, accessible, bytes, last_writes));
    }
    (decoded, instruction)
}

// ---------------------------------------------------------------------------
// Growth of the logs
// ---------------------------------------------------------------------------

/// A sequence is a prefix of itself extended by anything.
pub broadcast proof fn lemma_prefix_of_extension<A>(a: Seq<A>, b: Seq<A>)
    ensures
        a.is_prefix_of(#[trigger] (a + b)),
{
    assert((a + b).subrange(0, a.len() as int) =~= a);
}

/// A sequence is a prefix of itself extended by one element.
pub broadcast proof fn lemma_prefix_of_push<A>(a: Seq<A>, x: A)
    ensures
        a.is_prefix_of(#[trigger] a.push(x)),
{
    assert(a.push(x).subrange(0, a.len() as int) =~= a);
}

/// Being a prefix is transitive.
pub broadcast proof fn lemma_prefix_transitive<A>(a: Seq<A>, b: Seq<A>, c: Seq<A>)
    requires
        #[trigger] a.is_prefix_of(b),
        #[trigger] b.is_prefix_of(c),
    ensures
        a.is_prefix_of(c),
{
    assert(c.subrange(0, a.len() as int) =~= b.subrange(0, a.len() as int));
}

/// The lookups and the constraints of `b` extend those of `a`.
pub open spec fn logs_grow<E: InstructionEnvironment>(a: E, b: E) -> bool {
    &&& a.lookups().is_prefix_of(b.lookups())
    &&& a.constraints().is_prefix_of(b.constraints())
}


// ---------------------------------------------------------------------------
// The instruction step
// ---------------------------------------------------------------------------

/// `ip + 4 - halted * 4`: the next instruction, or the same one once halted.
pub open spec fn next_ip<E: InstructionEnvironment>(ip: E::Variable, halted: E::Variable) -> E::Variable {
    ip.add_spec(E::spec_constant(4)).sub_spec(halted.mul_spec(E::spec_constant(4)))
}

/// The immediate of an instruction with the given parts:
/// `rd * 2^11 + shamt * 2^6 + funct`.
pub open spec fn immediate_of<E: InstructionEnvironment>(
    parts: spec_fn(InstructionPart) -> E::Variable,
) -> E::Variable {
    parts(InstructionPart::RD).mul_spec(E::spec_constant(0x800)).add_spec(
        parts(InstructionPart::Shamt).mul_spec(E::spec_constant(0x40)),
    ).add_spec(parts(InstructionPart::Funct))
}

/// The 32-bit value made of two 16-bit limbs: `high * 2^16 + low`.
pub open spec fn join_limbs<E: InstructionEnvironment>(high: E::Variable, low: E::Variable) -> E::Variable {
    high.mul_spec(E::spec_constant(0x1_0000)).add_spec(low)
}

/// The lookups of a checked read of register `index`, finding `value` last
/// written at `last`.
pub open spec fn register_read_lookups<E: InstructionEnvironment>(
    row: E::Variable,
    index: E::Variable,
    value: E::Variable,
    last: E::Variable,
) -> Seq<LookupEntry<E::Fp>> {
    checked_read::<E>(TableID::Registers, E::spec_constant(1), row, index, value, last)
}

/// The lookups of a checked write of `value` to register `index`, replacing
/// `old_value` last written at `last`.
pub open spec fn register_write_lookups<E: InstructionEnvironment>(
    row: E::Variable,
    index: E::Variable,
    value: E::Variable,
    old_value: E::Variable,
    last: E::Variable,
) -> Seq<LookupEntry<E::Fp>> {
    checked_write::<E>(TableID::Registers, E::spec_constant(1), row, index, value, old_value, last)
}

/// The accesses of a checked read of register `index`: the register accesses of
/// the read, then the count of `row - last` in the range-check table.
pub open spec fn register_read_log<E: InstructionEnvironment>(
    row: E::Variable,
    index: E::Variable,
    value: E::Variable,
    last: E::Variable,
) -> Seq<Access<E::Variable>> {
    register_fetch_accesses(index, value, last, row).push(
        Access::CountRangeCheck { value: row.sub_spec(last) },
    )
}

/// The accesses of a checked write of register `index`: the register accesses
/// of the write, then the count of `row - last` in the range-check table.
pub open spec fn register_write_log<E: InstructionEnvironment>(
    row: E::Variable,
    index: E::Variable,
    value: E::Variable,
    old_value: E::Variable,
    last: E::Variable,
) -> Seq<Access<E::Variable>> {
    register_write_accesses(index, value, old_value, last, row).push(
        Access::CountRangeCheck { value: row.sub_spec(last) },
    )
}

/// The lookup of a 16-bit range check of `value`.
pub open spec fn range_check_entry<E: InstructionEnvironment>(value: E::Variable) -> LookupEntry<
    E::Fp,
> {
    range_check_lookup(
        E::spec_to_fp(E::spec_constant(1)),
        E::spec_to_fp(E::spec_constant(table_code(TableID::RangeCheck16))),
        E::spec_to_fp(value),
    )
}

/// Nothing but the instruction pointer moved on: it was set to
/// `ip + 4 - halted * 4`.
pub open spec fn advanced<E: InstructionEnvironment>(o: E, f: E) -> bool {
    f.control() == (Control {
        ip: f.control().ip,
        ip_updates: o.control().ip_updates.push(next_ip::<E>(o.control().ip, o.control().halted)),
        ..o.control()
    })
}

/// None of the logs changed.
pub open spec fn logs_unchanged<E: InstructionEnvironment>(o: E, f: E) -> bool {
    &&& f.lookups() == o.lookups()
    &&& f.constraints() == o.constraints()
    &&& f.accesses() == o.accesses()
    &&& f.gadgets() == o.gadgets()
    &&& f.emitted() == o.emitted()
}

/// The step read register `source` (finding `value`, last written at
/// `read_last`) and wrote `written` to register `target` (replacing
/// `old_value`, last written at `write_last`), and did nothing else to the logs.
pub open spec fn read_then_write<E: InstructionEnvironment>(
    o: E,
    f: E,
    source: E::Variable,
    value: E::Variable,
    read_last: E::Variable,
    target: E::Variable,
    written: E::Variable,
    old_value: E::Variable,
    write_last: E::Variable,
) -> bool {
    let row = o.control().row;
    &&& f.lookups() == o.lookups() + register_read_lookups::<E>(row, source, value, read_last)
        + register_write_lookups::<E>(row, target, written, old_value, write_last)
    &&& f.accesses() == o.accesses() + register_read_log::<E>(row, source, value, read_last)
        + register_write_log::<E>(row, target, written, old_value, write_last)
    &&& f.constraints() == o.constraints()
    &&& f.gadgets() == o.gadgets()
    &&& f.emitted() == o.emitted()
}

/// The step wrote `written` to register `target` (replacing `old_value`, last
/// written at `write_last`), and did nothing else to the logs.
pub open spec fn write_only<E: InstructionEnvironment>(
    o: E,
    f: E,
    target: E::Variable,
    written: E::Variable,
    old_value: E::Variable,
    write_last: E::Variable,
) -> bool {
    let row = o.control().row;
    &&& f.lookups() == o.lookups() + register_write_lookups::<E>(
        row,
        target,
        written,
        old_value,
        write_last,
    )
    &&& f.accesses() == o.accesses() + register_write_log::<E>(
        row,
        target,
        written,
        old_value,
        write_last,
    )
    &&& f.constraints() == o.constraints()
    &&& f.gadgets() == o.gadgets()
    &&& f.emitted() == o.emitted()
}

/// The step logged `count` gadget calls, opened with checked reads of `rs` and
/// `rt` (finding `a` and `b`) followed by the lookups `lookups`, and made no
/// other access than those reads followed by `accesses`.
pub open spec fn reads_pair_then<E: InstructionEnvironment>(
    o: E,
    f: E,
    a: E::Variable,
    a_last: E::Variable,
    b: E::Variable,
    b_last: E::Variable,
    count: int,
    lookups: Seq<LookupEntry<E::Fp>>,
    accesses: Seq<Access<E::Variable>>,
) -> bool {
    let row = o.control().row;
    let parts = o.control().parts;
    &&& emitted_grew(o, f, count)
    &&& f.lookups() == o.lookups() + register_read_lookups::<E>(
        row,
        parts(InstructionPart::RS),
        a,
        a_last,
    ) + register_read_lookups::<E>(row, parts(InstructionPart::RT), b, b_last) + lookups
    &&& f.accesses() == o.accesses() + register_read_log::<E>(
        row,
        parts(InstructionPart::RS),
        a,
        a_last,
    ) + register_read_log::<E>(row, parts(InstructionPart::RT), b, b_last) + accesses
}

/// `AddUnsigned` (or `SubUnsigned` when `subtract`): `a + b` (or `a - b`) is
/// split into limbs of 16, 16 and 1 bits, the two low limbs are range-checked
/// and the carry is checked to be a bit; `limbs[1] * 2^16 + limbs[0]` is written
/// to `rd`. The lookups and constraints are those of the reads, the two
/// gadgets, the range checks and the write, in that order.
pub open spec fn adds<E: InstructionEnvironment>(
    o: E,
    f: E,
    subtract: bool,
    a: E::Variable,
    a_last: E::Variable,
    b: E::Variable,
    b_last: E::Variable,
    limbs: Seq<E::Variable>,
    old_value: E::Variable,
    write_last: E::Variable,
) -> bool {
    let row = o.control().row;
    let n = o.emitted().len() as int;
    let rd = (o.control().parts)(InstructionPart::RD);
    let combined = if subtract {
        a.sub_spec(b)
    } else {
        a.add_spec(b)
    };
    let written = join_limbs::<E>(limbs[1], limbs[0]);
    &&& limbs.len() == 3
    &&& reads_pair_then::<E>(
        o,
        f,
        a,
        a_last,
        b,
        b_last,
        2,
        gadget_lookups(f, n) + seq![
            range_check_entry::<E>(limbs[0]),
            range_check_entry::<E>(limbs[1]),
        ] + gadget_lookups(f, n + 1) + register_write_lookups::<E>(
            row,
            rd,
            written,
            old_value,
            write_last,
        ),
        seq![
            Access::CountRangeCheck { value: limbs[0] },
            Access::CountRangeCheck { value: limbs[1] },
        ] + register_write_log::<E>(row, rd, written, old_value, write_last),
    )
    &&& f.constraints() == o.constraints() + gadget_constraints(f, n) + gadget_constraints(f, n + 1)
    &&& f.gadgets() == o.gadgets() + seq![
        Gadget::Decompose { value: combined, widths: seq![16u32, 16u32, 1u32], limbs },
        Gadget::RangeCheck1 { checked: limbs[2] },
    ]
    &&& advanced(o, f)
}

/// `And` (or `Xor` when `take_xor`): `and_xor` of `a` and `b`, and its `and`
/// (or `xor`) written to `rd`.
pub open spec fn combines_bits<E: InstructionEnvironment>(
    o: E,
    f: E,
    take_xor: bool,
    a: E::Variable,
    a_last: E::Variable,
    b: E::Variable,
    b_last: E::Variable,
    and: E::Variable,
    xor: E::Variable,
    old_value: E::Variable,
    write_last: E::Variable,
) -> bool {
    let row = o.control().row;
    let n = o.emitted().len() as int;
    let rd = (o.control().parts)(InstructionPart::RD);
    let written = if take_xor {
        xor
    } else {
        and
    };
    &&& reads_pair_then::<E>(
        o,
        f,
        a,
        a_last,
        b,
        b_last,
        1,
        gadget_lookups(f, n) + register_write_lookups::<E>(row, rd, written, old_value, write_last),
        register_write_log::<E>(row, rd, written, old_value, write_last),
    )
    &&& f.constraints() == o.constraints() + gadget_constraints(f, n)
    &&& f.gadgets() == o.gadgets().push(Gadget::AndXor { lhs: a, rhs: b, and, xor })
    &&& advanced(o, f)
}

/// `AndImmediate` (or `XorImmediate` when `take_xor`): `and_xor` of `a`, read
/// from `rs`, and the immediate, and its `and` (or `xor`) written to `rt`.
pub open spec fn combines_bits_immediate<E: InstructionEnvironment>(
    o: E,
    f: E,
    take_xor: bool,
    a: E::Variable,
    a_last: E::Variable,
    and: E::Variable,
    xor: E::Variable,
    old_value: E::Variable,
    write_last: E::Variable,
) -> bool {
    let row = o.control().row;
    let n = o.emitted().len() as int;
    let parts = o.control().parts;
    let rt = parts(InstructionPart::RT);
    let written = if take_xor {
        xor
    } else {
        and
    };
    &&& emitted_grew(o, f, 1)
    &&& f.lookups() == o.lookups() + register_read_lookups::<E>(
        row,
        parts(InstructionPart::RS),
        a,
        a_last,
    ) + gadget_lookups(f, n) + register_write_lookups::<E>(row, rt, written, old_value, write_last)
    &&& f.accesses() == o.accesses() + register_read_log::<E>(
        row,
        parts(InstructionPart::RS),
        a,
        a_last,
    ) + register_write_log::<E>(row, rt, written, old_value, write_last)
    &&& f.constraints() == o.constraints() + gadget_constraints(f, n)
    &&& f.gadgets() == o.gadgets().push(
        Gadget::AndXor { lhs: a, rhs: immediate_of::<E>(parts), and, xor },
    )
    &&& advanced(o, f)
}

/// `MultiplyUnsigned`: `a * b` is split into four 16-bit limbs, each
/// range-checked; `limbs[3] * 2^16 + limbs[2]` is written to `hi` and
/// `limbs[1] * 2^16 + limbs[0]` to `lo`.
pub open spec fn multiplies<E: InstructionEnvironment>(
    o: E,
    f: E,
    a: E::Variable,
    a_last: E::Variable,
    b: E::Variable,
    b_last: E::Variable,
    limbs: Seq<E::Variable>,
    old_hi: E::Variable,
    hi_last: E::Variable,
    old_lo: E::Variable,
    lo_last: E::Variable,
) -> bool {
    let row = o.control().row;
    let n = o.emitted().len() as int;
    let hi = join_limbs::<E>(limbs[3], limbs[2]);
    let lo = join_limbs::<E>(limbs[1], limbs[0]);
    &&& limbs.len() == 4
    &&& reads_pair_then::<E>(
        o,
        f,
        a,
        a_last,
        b,
        b_last,
        1,
        gadget_lookups(f, n) + seq![
            range_check_entry::<E>(limbs[0]),
            range_check_entry::<E>(limbs[1]),
            range_check_entry::<E>(limbs[2]),
            range_check_entry::<E>(limbs[3]),
        ] + register_write_lookups::<E>(row, E::spec_constant(32), hi, old_hi, hi_last)
            + register_write_lookups::<E>(row, E::spec_constant(33), lo, old_lo, lo_last),
        seq![
            Access::CountRangeCheck { value: limbs[0] },
            Access::CountRangeCheck { value: limbs[1] },
            Access::CountRangeCheck { value: limbs[2] },
            Access::CountRangeCheck { value: limbs[3] },
        ] + register_write_log::<E>(row, E::spec_constant(32), hi, old_hi, hi_last)
            + register_write_log::<E>(row, E::spec_constant(33), lo, old_lo, lo_last),
    )
    &&& f.constraints() == o.constraints() + gadget_constraints(f, n)
    &&& f.gadgets() == o.gadgets().push(
        Gadget::Decompose {
            value: a.mul_spec(b),
            widths: seq![16u32, 16u32, 16u32, 16u32],
            limbs,
        },
    )
    &&& advanced(o, f)
}

/// `DivUnsigned`: `div_rem` of `a` by `b` gives `quotient`, `remainder` and the
/// flag `by_zero`, which is checked to be a bit; both results are split into two
/// range-checked 16-bit limbs; the remainder is written to `hi`, the quotient to
/// `lo`; the machine halts on a division by zero
/// (`halted := 1 - (1 - by_zero) * (1 - halted)`), then moves on.
pub open spec fn divides<E: InstructionEnvironment>(
    o: E,
    f: E,
    a: E::Variable,
    a_last: E::Variable,
    b: E::Variable,
    b_last: E::Variable,
    quotient: E::Variable,
    remainder: E::Variable,
    by_zero: E::Variable,
    quotient_limbs: Seq<E::Variable>,
    remainder_limbs: Seq<E::Variable>,
    old_hi: E::Variable,
    hi_last: E::Variable,
    old_lo: E::Variable,
    lo_last: E::Variable,
) -> bool {
    let row = o.control().row;
    let n = o.emitted().len() as int;
    let one = E::spec_constant(1);
    let hi = join_limbs::<E>(remainder_limbs[1], remainder_limbs[0]);
    let lo = join_limbs::<E>(quotient_limbs[1], quotient_limbs[0]);
    &&& quotient_limbs.len() == 2
    &&& remainder_limbs.len() == 2
    &&& reads_pair_then::<E>(
        o,
        f,
        a,
        a_last,
        b,
        b_last,
        4,
        gadget_lookups(f, n) + gadget_lookups(f, n + 1) + gadget_lookups(f, n + 2)
            + gadget_lookups(f, n + 3) + seq![
            range_check_entry::<E>(quotient_limbs[0]),
            range_check_entry::<E>(quotient_limbs[1]),
            range_check_entry::<E>(remainder_limbs[0]),
            range_check_entry::<E>(remainder_limbs[1]),
        ] + register_write_lookups::<E>(row, E::spec_constant(32), hi, old_hi, hi_last)
            + register_write_lookups::<E>(row, E::spec_constant(33), lo, old_lo, lo_last),
        seq![
            Access::CountRangeCheck { value: quotient_limbs[0] },
            Access::CountRangeCheck { value: quotient_limbs[1] },
            Access::CountRangeCheck { value: remainder_limbs[0] },
            Access::CountRangeCheck { value: remainder_limbs[1] },
        ] + register_write_log::<E>(row, E::spec_constant(32), hi, old_hi, hi_last)
            + register_write_log::<E>(row, E::spec_constant(33), lo, old_lo, lo_last),
    )
    &&& f.constraints() == o.constraints() + gadget_constraints(f, n) + gadget_constraints(f, n + 1)
        + gadget_constraints(f, n + 2) + gadget_constraints(f, n + 3)
    &&& f.gadgets() == o.gadgets() + seq![
        Gadget::DivRem { numerator: a, denominator: b, quotient, remainder, divide_by_zero: by_zero },
        Gadget::RangeCheck1 { checked: by_zero },
        Gadget::Decompose { value: quotient, widths: seq![16u32, 16u32], limbs: quotient_limbs },
        Gadget::Decompose { value: remainder, widths: seq![16u32, 16u32], limbs: remainder_limbs },
    ]
    &&& f.control() == (Control {
        ip: f.control().ip,
        halted: f.control().halted,
        ip_updates: o.control().ip_updates.push(next_ip::<E>(o.control().ip, f.control().halted)),
        halted_updates: o.control().halted_updates.push(
            one.sub_spec(one.sub_spec(by_zero).mul_spec(one.sub_spec(o.control().halted))),
        ),
        ..o.control()
    })
}

/// `JumpRegister`, and `JumpAndLinkRegister` when `link_lookups` and
/// `link_accesses` hold the write of the return address: the target `a`, read
/// from `rs`, is split into limbs of 16, 14 and 2 bits, which are range-checked;
/// `aligned` is whether the low limb is zero (fixed by the two `is_zero`
/// constraints with `inverse`); the machine halts on an unaligned target
/// (`halted := 1 - aligned * (1 - halted)`) and the instruction pointer is set to
/// `halted * a + (1 - halted) * ip`.
pub open spec fn jumps_to_register<E: InstructionEnvironment>(
    o: E,
    f: E,
    a: E::Variable,
    a_last: E::Variable,
    link_lookups: Seq<LookupEntry<E::Fp>>,
    link_accesses: Seq<Access<E::Variable>>,
    limbs: Seq<E::Variable>,
    aligned: E::Variable,
    inverse: E::Variable,
) -> bool {
    let row = o.control().row;
    let n = o.emitted().len() as int;
    let parts = o.control().parts;
    let one = E::spec_constant(1);
    let halted = f.control().halted;
    &&& limbs.len() == 3
    &&& emitted_grew(o, f, 3)
    &&& f.lookups() == o.lookups() + register_read_lookups::<E>(
        row,
        parts(InstructionPart::RS),
        a,
        a_last,
    ) + link_lookups + gadget_lookups(f, n) + seq![
        range_check_entry::<E>(limbs[0]),
        range_check_entry::<E>(limbs[1]),
        range_check_entry::<E>(limbs[1].mul_spec(E::spec_constant(4))),
    ] + gadget_lookups(f, n + 1) + gadget_lookups(f, n + 2)
    &&& f.accesses() == o.accesses() + register_read_log::<E>(
        row,
        parts(InstructionPart::RS),
        a,
        a_last,
    ) + link_accesses + seq![
        Access::CountRangeCheck { value: limbs[0] },
        Access::CountRangeCheck { value: limbs[1] },
        Access::CountRangeCheck { value: limbs[1].mul_spec(E::spec_constant(4)) },
    ]
    &&& f.gadgets() == o.gadgets() + seq![
        Gadget::Decompose { value: a, widths: seq![16u32, 14u32, 2u32], limbs },
        Gadget::RangeCheck2 { checked: limbs[2] },
        Gadget::EqZeroTerms { tested: limbs[2], is_zero: aligned, inverse },
    ]
    &&& f.constraints() == o.constraints() + gadget_constraints(f, n) + gadget_constraints(
        f,
        n + 1,
    ) + seq![
        inverse.mul_spec(limbs[2]).sub_spec(one.sub_spec(aligned)),
        aligned.mul_spec(limbs[2]),
    ]
    &&& f.control() == (Control {
        ip: f.control().ip,
        halted,
        ip_updates: o.control().ip_updates.push(
            halted.mul_spec(a).add_spec(one.sub_spec(halted).mul_spec(o.control().ip)),
        ),
        halted_updates: o.control().halted_updates.push(
            one.sub_spec(aligned.mul_spec(one.sub_spec(o.control().halted))),
        ),
        ..o.control()
    })
}

/// `BranchEq` (or `BranchNeq` when `!on_equal`): `equal` is whether `a - b` is
/// zero (fixed by the two `is_zero` constraints with `inverse`), `offset` the
/// sign extension of the immediate; the step jumps to
/// `ip + 4 + equal * offset * 4` (or `ip + 4 + (1 - equal) * offset * 4`).
pub open spec fn branches<E: InstructionEnvironment>(
    o: E,
    f: E,
    on_equal: bool,
    a: E::Variable,
    a_last: E::Variable,
    b: E::Variable,
    b_last: E::Variable,
    equal: E::Variable,
    inverse: E::Variable,
    offset: E::Variable,
) -> bool {
    let n = o.emitted().len() as int;
    let parts = o.control().parts;
    let one = E::spec_constant(1);
    let difference = a.sub_spec(b);
    let taken = if on_equal {
        equal
    } else {
        one.sub_spec(equal)
    };
    &&& reads_pair_then::<E>(
        o,
        f,
        a,
        a_last,
        b,
        b_last,
        2,
        gadget_lookups(f, n) + gadget_lookups(f, n + 1),
        Seq::empty(),
    )
    &&& f.gadgets() == o.gadgets() + seq![
        Gadget::EqZeroTerms { tested: difference, is_zero: equal, inverse },
        Gadget::SignExtend { unextended: immediate_of::<E>(parts), extended: offset },
    ]
    &&& f.constraints() == o.constraints() + seq![
        inverse.mul_spec(difference).sub_spec(one.sub_spec(equal)),
        equal.mul_spec(difference),
    ] + gadget_constraints(f, n + 1)
    &&& f.control() == (Control {
        ip: f.control().ip,
        ip_updates: o.control().ip_updates.push(
            o.control().ip.add_spec(E::spec_constant(4)).add_spec(
                taken.mul_spec(offset).mul_spec(E::spec_constant(4)),
            ),
        ),
        ..o.control()
    })
}

/// What executing `instr` does to an environment, taking it from `o` to `f`.
///
/// The instructions that are not implemented only move on to the next
/// instruction; `Jump`, `BranchLeqZero` and `BranchGtZero` do nothing at all. For
/// the others, the values that the step reads (registers, previous writes,
/// gadget results) are bound by one existential, so that what is written, where
/// the step jumps and whether it halts are given in terms of what was read.
pub open spec fn executes<E: InstructionEnvironment>(instr: InstructionSelector, o: E, f: E) -> bool {
    let row = o.control().row;
    let parts = o.control().parts;
    let ip = o.control().ip;
    match instr {
        InstructionSelector::RType(RTypeInstruction::JumpRegister) => exists|
            a: E::Variable,
            a_last: E::Variable,
            limbs: Seq<E::Variable>,
            aligned: E::Variable,
            inverse: E::Variable,
        |
            #![trigger jumps_to_register::<E>(o, f, a, a_last, Seq::empty(), Seq::empty(), limbs, aligned, inverse)]
            jumps_to_register::<E>(
                o,
                f,
                a,
                a_last,
                Seq::empty(),
                Seq::empty(),
                limbs,
                aligned,
                inverse,
            ),
        InstructionSelector::RType(RTypeInstruction::JumpAndLinkRegister) => exists|
            a: E::Variable,
            a_last: E::Variable,
            old_value: E::Variable,
            write_last: E::Variable,
            limbs: Seq<E::Variable>,
            aligned: E::Variable,
            inverse: E::Variable,
        |
            #![trigger jumps_to_register::<E>(o, f, a, a_last, register_write_lookups::<E>(row, parts(InstructionPart::RD), ip.add_spec(E::spec_constant(8)), old_value, write_last), register_write_log::<E>(row, parts(InstructionPart::RD), ip.add_spec(E::spec_constant(8)), old_value, write_last), limbs, aligned, inverse)]
            jumps_to_register::<E>(
                o,
                f,
                a,
                a_last,
                register_write_lookups::<E>(
                    row,
                    parts(InstructionPart::RD),
                    ip.add_spec(E::spec_constant(8)),
                    old_value,
                    write_last,
                ),
                register_write_log::<E>(
                    row,
                    parts(InstructionPart::RD),
                    ip.add_spec(E::spec_constant(8)),
                    old_value,
                    write_last,
                ),
                limbs,
                aligned,
                inverse,
            ),
        InstructionSelector::RType(RTypeInstruction::Syscall) => {
            &&& logs_unchanged(o, f)
            &&& f.control() == (Control {
                ip: f.control().ip,
                halted: f.control().halted,
                ip_updates: o.control().ip_updates.push(next_ip::<E>(ip, f.control().halted)),
                halted_updates: o.control().halted_updates.push(E::spec_constant(1)),
                ..o.control()
            })
        },
        InstructionSelector::RType(RTypeInstruction::MoveFromHi) => advanced(o, f) && exists|
            value: E::Variable,
            read_last: E::Variable,
            old_value: E::Variable,
            write_last: E::Variable,
        |
            #![trigger read_then_write::<E>(o, f, E::spec_constant(32), value, read_last, parts(InstructionPart::RD), value, old_value, write_last)]
            read_then_write::<E>(
                o,
                f,
                E::spec_constant(32),
                value,
                read_last,
                parts(InstructionPart::RD),
                value,
                old_value,
                write_last,
            ),
        InstructionSelector::RType(RTypeInstruction::MoveToHi) => advanced(o, f) && exists|
            value: E::Variable,
            read_last: E::Variable,
            old_value: E::Variable,
            write_last: E::Variable,
        |
            #![trigger read_then_write::<E>(o, f, parts(InstructionPart::RS), value, read_last, E::spec_constant(32), value, old_value, write_last)]
            read_then_write::<E>(
                o,
                f,
                parts(InstructionPart::RS),
                value,
                read_last,
                E::spec_constant(32),
                value,
                old_value,
                write_last,
            ),
        InstructionSelector::RType(RTypeInstruction::MoveFromLo) => advanced(o, f) && exists|
            value: E::Variable,
            read_last: E::Variable,
            old_value: E::Variable,
            write_last: E::Variable,
        |
            #![trigger read_then_write::<E>(o, f, E::spec_constant(33), value, read_last, parts(InstructionPart::RD), value, old_value, write_last)]
            read_then_write::<E>(
                o,
                f,
                E::spec_constant(33),
                value,
                read_last,
                parts(InstructionPart::RD),
                value,
                old_value,
                write_last,
            ),
        InstructionSelector::RType(RTypeInstruction::MoveToLo) => advanced(o, f) && exists|
            value: E::Variable,
            read_last: E::Variable,
            old_value: E::Variable,
            write_last: E::Variable,
        |
            #![trigger read_then_write::<E>(o, f, parts(InstructionPart::RS), value, read_last, E::spec_constant(33), value, old_value, write_last)]
            read_then_write::<E>(
                o,
                f,
                parts(InstructionPart::RS),
                value,
                read_last,
                E::spec_constant(33),
                value,
                old_value,
                write_last,
            ),
        InstructionSelector::RType(RTypeInstruction::MultiplyUnsigned) => exists|
            a: E::Variable,
            a_last: E::Variable,
            b: E::Variable,
            b_last: E::Variable,
            limbs: Seq<E::Variable>,
            old_hi: E::Variable,
            hi_last: E::Variable,
            old_lo: E::Variable,
            lo_last: E::Variable,
        |
            #![trigger multiplies::<E>(o, f, a, a_last, b, b_last, limbs, old_hi, hi_last, old_lo, lo_last)]
            multiplies::<E>(o, f, a, a_last, b, b_last, limbs, old_hi, hi_last, old_lo, lo_last),
        InstructionSelector::RType(RTypeInstruction::DivUnsigned) => exists|
            a: E::Variable,
            a_last: E::Variable,
            b: E::Variable,
            b_last: E::Variable,
            quotient: E::Variable,
            remainder: E::Variable,
            by_zero: E::Variable,
            quotient_limbs: Seq<E::Variable>,
            remainder_limbs: Seq<E::Variable>,
            old_hi: E::Variable,
            hi_last: E::Variable,
            old_lo: E::Variable,
            lo_last: E::Variable,
        |
            #![trigger divides::<E>(o, f, a, a_last, b, b_last, quotient, remainder, by_zero, quotient_limbs, remainder_limbs, old_hi, hi_last, old_lo, lo_last)]
            divides::<E>(
                o,
                f,
                a,
                a_last,
                b,
                b_last,
                quotient,
                remainder,
                by_zero,
                quotient_limbs,
                remainder_limbs,
                old_hi,
                hi_last,
                old_lo,
                lo_last,
            ),
        InstructionSelector::RType(RTypeInstruction::AddUnsigned) => exists|
            a: E::Variable,
            a_last: E::Variable,
            b: E::Variable,
            b_last: E::Variable,
            limbs: Seq<E::Variable>,
            old_value: E::Variable,
            write_last: E::Variable,
        |
            #![trigger adds::<E>(o, f, false, a, a_last, b, b_last, limbs, old_value, write_last)]
            adds::<E>(o, f, false, a, a_last, b, b_last, limbs, old_value, write_last),
        InstructionSelector::RType(RTypeInstruction::SubUnsigned) => exists|
            a: E::Variable,
            a_last: E::Variable,
            b: E::Variable,
            b_last: E::Variable,
            limbs: Seq<E::Variable>,
            old_value: E::Variable,
            write_last: E::Variable,
        |
            #![trigger adds::<E>(o, f, true, a, a_last, b, b_last, limbs, old_value, write_last)]
            adds::<E>(o, f, true, a, a_last, b, b_last, limbs, old_value, write_last),
        InstructionSelector::RType(RTypeInstruction::And) => exists|
            a: E::Variable,
            a_last: E::Variable,
            b: E::Variable,
            b_last: E::Variable,
            and: E::Variable,
            xor: E::Variable,
            old_value: E::Variable,
            write_last: E::Variable,
        |
            #![trigger combines_bits::<E>(o, f, false, a, a_last, b, b_last, and, xor, old_value, write_last)]
            combines_bits::<E>(o, f, false, a, a_last, b, b_last, and, xor, old_value, write_last),
        InstructionSelector::RType(RTypeInstruction::Xor) => exists|
            a: E::Variable,
            a_last: E::Variable,
            b: E::Variable,
            b_last: E::Variable,
            and: E::Variable,
            xor: E::Variable,
            old_value: E::Variable,
            write_last: E::Variable,
        |
            #![trigger combines_bits::<E>(o, f, true, a, a_last, b, b_last, and, xor, old_value, write_last)]
            combines_bits::<E>(o, f, true, a, a_last, b, b_last, and, xor, old_value, write_last),
        InstructionSelector::JType(JTypeInstruction::Jump) => logs_unchanged(o, f) && f.control()
            == o.control(),
        InstructionSelector::JType(JTypeInstruction::JumpAndLink) => f.control() == o.control()
            && exists|old_value: E::Variable, write_last: E::Variable|
            #![trigger write_only::<E>(o, f, E::spec_constant(31), ip.add_spec(E::spec_constant(8)), old_value, write_last)]
            write_only::<E>(
                o,
                f,
                E::spec_constant(31),
                ip.add_spec(E::spec_constant(8)),
                old_value,
                write_last,
            ),
        InstructionSelector::IType(ITypeInstruction::BranchEq) => exists|
            a: E::Variable,
            a_last: E::Variable,
            b: E::Variable,
            b_last: E::Variable,
            equal: E::Variable,
            inverse: E::Variable,
            offset: E::Variable,
        |
            #![trigger branches::<E>(o, f, true, a, a_last, b, b_last, equal, inverse, offset)]
            branches::<E>(o, f, true, a, a_last, b, b_last, equal, inverse, offset),
        InstructionSelector::IType(ITypeInstruction::BranchNeq) => exists|
            a: E::Variable,
            a_last: E::Variable,
            b: E::Variable,
            b_last: E::Variable,
            equal: E::Variable,
            inverse: E::Variable,
            offset: E::Variable,
        |
            #![trigger branches::<E>(o, f, false, a, a_last, b, b_last, equal, inverse, offset)]
            branches::<E>(o, f, false, a, a_last, b, b_last, equal, inverse, offset),
        InstructionSelector::IType(ITypeInstruction::BranchLeqZero) => logs_unchanged(o, f)
            && f.control() == o.control(),
        InstructionSelector::IType(ITypeInstruction::BranchGtZero) => logs_unchanged(o, f)
            && f.control() == o.control(),
        InstructionSelector::IType(ITypeInstruction::AddImmediateUnsigned) => advanced(o, f)
            && exists|
            value: E::Variable,
            read_last: E::Variable,
            old_value: E::Variable,
            write_last: E::Variable,
        |
            #![trigger read_then_write::<E>(o, f, parts(InstructionPart::RS), value, read_last, parts(InstructionPart::RT), value.add_spec(immediate_of::<E>(parts)), old_value, write_last)]
            read_then_write::<E>(
                o,
                f,
                parts(InstructionPart::RS),
                value,
                read_last,
                parts(InstructionPart::RT),
                value.add_spec(immediate_of::<E>(parts)),
                old_value,
                write_last,
            ),
        InstructionSelector::IType(ITypeInstruction::AndImmediate) => exists|
            a: E::Variable,
            a_last: E::Variable,
            and: E::Variable,
            xor: E::Variable,
            old_value: E::Variable,
            write_last: E::Variable,
        |
            #![trigger combines_bits_immediate::<E>(o, f, false, a, a_last, and, xor, old_value, write_last)]
            combines_bits_immediate::<E>(o, f, false, a, a_last, and, xor, old_value, write_last),
        InstructionSelector::IType(ITypeInstruction::XorImmediate) => exists|
            a: E::Variable,
            a_last: E::Variable,
            and: E::Variable,
            xor: E::Variable,
            old_value: E::Variable,
            write_last: E::Variable,
        |
            #![trigger combines_bits_immediate::<E>(o, f, true, a, a_last, and, xor, old_value, write_last)]
            combines_bits_immediate::<E>(o, f, true, a, a_last, and, xor, old_value, write_last),
        InstructionSelector::IType(ITypeInstruction::LoadImmediate) => advanced(o, f) && exists|
            old_value: E::Variable,
            write_last: E::Variable,
        |
            #![trigger write_only::<E>(o, f, parts(InstructionPart::RT), immediate_of::<E>(parts).mul_spec(E::spec_constant(0x1_0000)), old_value, write_last)]
            write_only::<E>(
                o,
                f,
                parts(InstructionPart::RT),
                immediate_of::<E>(parts).mul_spec(E::spec_constant(0x1_0000)),
                old_value,
                write_last,
            ),
        _ => logs_unchanged(o, f) && advanced(o, f),
    }
}

/// `count` fresh scratch columns.
fn alloc_scratches<Env: InstructionEnvironment>(env: &mut Env, count: usize) -> (r: Vec<Env::Column>)
    ensures
        r.len() == count,
        final(env).control() == old(env).control(),
        logs_unchanged(*old(env), *final(env)),
{
    let mut columns: Vec<Env::Column> = Vec::new();
    let mut i: usize = 0;
    while i < count
        invariant
            i <= count,
            columns.len() == i,
            env.control() == old(env).control(),
            logs_unchanged(*old(env), *env),
        decreases count - i,
    {
        columns.push(env.alloc_scratch());
        i = i + 1;
    }
    columns
}

/// Moves on to the next instruction: sets the instruction pointer to
/// `ip + 4 - halted * 4`.
fn advance<Env: InstructionEnvironment>(env: &mut Env)
    ensures
        advanced(*old(env), *final(env)),
        logs_unchanged(*old(env), *final(env)),
{
    proof {
        lemma_arithmetic_total::<Env>();
    }
    let ip = env.instruction_pointer();
    let next = ip + Env::constant(4) - env.halted() * Env::constant(4);
    env.set_instruction_pointer(&next);
}

/// Copies register `source` into register `target`, then moves on.
fn copy_register<Env: InstructionEnvironment>(
    env: &mut Env,
    source: &Env::Variable,
    target: &Env::Variable,
)
    ensures
        advanced(*old(env), *final(env)),
        exists|
            value: Env::Variable,
            read_last: Env::Variable,
            old_value: Env::Variable,
            write_last: Env::Variable,
        |
            #![trigger read_then_write::<Env>(*old(env), *final(env), *source, value, read_last, *target, value, old_value, write_last)]
            read_then_write::<Env>(
                *old(env),
                *final(env),
                *source,
                value,
                read_last,
                *target,
                value,
                old_value,
                write_last,
            ),
{
    let ghost s0 = *env;
    let value = env.fetch_register_checked(source);
    let ghost s1 = *env;
    env.overwrite_register_checked(target, &value);
    let ghost s2 = *env;
    advance(env);
    proof {
        let row = s0.control().row;
        assert(env.lookups() =~= s0.lookups() + register_read_lookups::<Env>(
            row,
            *source,
            value,
            read_last(s0, s1),
        ) + register_write_lookups::<Env>(row, *target, value, write_old(s1, s2), write_last(s1, s2)));
        assert(env.accesses() =~= s0.accesses() + register_read_log::<Env>(
            row,
            *source,
            value,
            read_last(s0, s1),
        ) + register_write_log::<Env>(row, *target, value, write_old(s1, s2), write_last(s1, s2)));
        assert(read_then_write::<Env>(
            s0,
            *env,
            *source,
            value,
            read_last(s0, s1),
            *target,
            value,
            write_old(s1, s2),
            write_last(s1, s2),
        ));
    }
}

/// `AddImmediateUnsigned`: writes `rs + immediate` to `rt`, then moves on.
fn run_add_immediate<Env: InstructionEnvironment>(env: &mut Env)
    ensures
        advanced(*old(env), *final(env)),
        exists|
            value: Env::Variable,
            read_last: Env::Variable,
            old_value: Env::Variable,
            write_last: Env::Variable,
        |
            #![trigger read_then_write::<Env>(*old(env), *final(env), (old(env).control().parts)(InstructionPart::RS), value, read_last, (old(env).control().parts)(InstructionPart::RT), value.add_spec(immediate_of::<Env>(old(env).control().parts)), old_value, write_last)]
            read_then_write::<Env>(
                *old(env),
                *final(env),
                (old(env).control().parts)(InstructionPart::RS),
                value,
                read_last,
                (old(env).control().parts)(InstructionPart::RT),
                value.add_spec(immediate_of::<Env>(old(env).control().parts)),
                old_value,
                write_last,
            ),
{
    proof {
        lemma_arithmetic_total::<Env>();
    }
    let ghost s0 = *env;
    let rs = env.instruction_part(InstructionPart::RS);
    let register_rs = env.fetch_register_checked(&rs);
    let ghost a = register_rs;
    let ghost s1 = *env;
    let imm = env.immediate();
    let res = register_rs + imm;
    let rt = env.instruction_part(InstructionPart::RT);
    env.overwrite_register_checked(&rt, &res);
    let ghost s2 = *env;
    advance(env);
    proof {
        let row = s0.control().row;
        assert(env.lookups() =~= s0.lookups() + register_read_lookups::<Env>(
            row,
            rs,
            a,
            read_last(s0, s1),
        ) + register_write_lookups::<Env>(row, rt, res, write_old(s1, s2), write_last(s1, s2)));
        assert(env.accesses() =~= s0.accesses() + register_read_log::<Env>(
            row,
            rs,
            a,
            read_last(s0, s1),
        ) + register_write_log::<Env>(row, rt, res, write_old(s1, s2), write_last(s1, s2)));
        assert(res == a.add_spec(immediate_of::<Env>(s0.control().parts)));
        assert(read_then_write::<Env>(
            s0,
            *env,
            (s0.control().parts)(InstructionPart::RS),
            a,
            read_last(s0, s1),
            (s0.control().parts)(InstructionPart::RT),
            a.add_spec(immediate_of::<Env>(s0.control().parts)),
            write_old(s1, s2),
            write_last(s1, s2),
        ));
    }
}

/// `LoadImmediate`: writes `immediate * 2^16` to `rt`, then moves on.
fn run_load_immediate<Env: InstructionEnvironment>(env: &mut Env)
    ensures
        advanced(*old(env), *final(env)),
        exists|old_value: Env::Variable, write_last: Env::Variable|
            #![trigger write_only::<Env>(*old(env), *final(env), (old(env).control().parts)(InstructionPart::RT), immediate_of::<Env>(old(env).control().parts).mul_spec(Env::spec_constant(0x1_0000)), old_value, write_last)]
            write_only::<Env>(
                *old(env),
                *final(env),
                (old(env).control().parts)(InstructionPart::RT),
                immediate_of::<Env>(old(env).control().parts).mul_spec(
                    Env::spec_constant(0x1_0000),
                ),
                old_value,
                write_last,
            ),
{
    proof {
        lemma_arithmetic_total::<Env>();
        assert(1u32 << 16u32 == 0x1_0000) by (bit_vector);
    }
    let ghost s0 = *env;
    let rt = env.instruction_part(InstructionPart::RT);
    let imm = env.immediate();
    let value = imm * Env::constant(1u32 << 16u32);
    env.overwrite_register_checked(&rt, &value);
    let ghost s1 = *env;
    advance(env);
    proof {
        assert(value == immediate_of::<Env>(s0.control().parts).mul_spec(Env::spec_constant(0x1_0000)));
        assert(write_only::<Env>(
            s0,
            *env,
            (s0.control().parts)(InstructionPart::RT),
            immediate_of::<Env>(s0.control().parts).mul_spec(Env::spec_constant(0x1_0000)),
            write_old(s0, s1),
            write_last(s0, s1),
        ));
    }
}

/// `JumpAndLink`: writes the return address `ip + 8` to register 31.
fn run_jump_and_link<Env: InstructionEnvironment>(env: &mut Env)
    ensures
        final(env).control() == old(env).control(),
        exists|old_value: Env::Variable, write_last: Env::Variable|
            #![trigger write_only::<Env>(*old(env), *final(env), Env::spec_constant(31), old(env).control().ip.add_spec(Env::spec_constant(8)), old_value, write_last)]
            write_only::<Env>(
                *old(env),
                *final(env),
                Env::spec_constant(31),
                old(env).control().ip.add_spec(Env::spec_constant(8)),
                old_value,
                write_last,
            ),
{
    proof {
        lemma_arithmetic_total::<Env>();
    }
    let ghost s0 = *env;
    let value = env.instruction_pointer() + Env::constant(8);
    env.overwrite_register_checked(&Env::constant(31), &value);
    proof {
        assert(write_only::<Env>(
            s0,
            *env,
            Env::spec_constant(31),
            value,
            write_old(s0, *env),
            write_last(s0, *env),
        ));
    }
}

/// `AddUnsigned`, or `SubUnsigned` when `subtract`: writes the low 32 bits of
/// `rs + rt` (or `rs - rt`) to `rd`, then moves on.
#[verifier::rlimit(50)]
fn run_add_sub<Env: InstructionEnvironment>(env: &mut Env, subtract: bool)
    ensures
        exists|
            a: Env::Variable,
            a_last: Env::Variable,
            b: Env::Variable,
            b_last: Env::Variable,
            limbs: Seq<Env::Variable>,
            old_value: Env::Variable,
            write_last: Env::Variable,
        |
            #![trigger adds::<Env>(*old(env), *final(env), subtract, a, a_last, b, b_last, limbs, old_value, write_last)]
            adds::<Env>(*old(env), *final(env), subtract, a, a_last, b, b_last, limbs, old_value, write_last),
{
    broadcast use {lemma_prefix_of_extension, lemma_prefix_of_push, lemma_prefix_transitive};

    proof {
        lemma_arithmetic_total::<Env>();
        assert(1u32 << 16u32 == 0x1_0000) by (bit_vector);
    }
    let ghost s0 = *env;
    let rs = env.instruction_part(InstructionPart::RS);
    let rt = env.instruction_part(InstructionPart::RT);
    let register_rs = env.fetch_register_checked(&rs);
    let ghost s1 = *env;
    let register_rt = env.fetch_register_checked(&rt);
    let ghost s2 = *env;
    let ghost a = register_rs;
    let ghost b = register_rt;
    let combined = if subtract {
        register_rs - register_rt
    } else {
        register_rs + register_rt
    };
    let widths: Vec<u32> = vec![16, 16, 1];
    assert(widths@ =~= seq![16u32, 16u32, 1u32]);
    let scratch = alloc_scratches(env, 3);
    let decomposition = env.decompose(&combined, widths, scratch);
    let ghost s3 = *env;
    env.range_check_16(&decomposition[0]);
    env.range_check_16(&decomposition[1]);
    let ghost s4 = *env;
    env.range_check_1(&decomposition[2]);
    let ghost s4b = *env;
    let high = decomposition[1].clone();
    let low = decomposition[0].clone();
    proof {
        Env::lemma_variable_clone(decomposition@[1], high);
        Env::lemma_variable_clone(decomposition@[0], low);
    }
    let value = high * Env::constant(1u32 << 16u32) + low;
    let rd = env.instruction_part(InstructionPart::RD);
    let ghost s5 = *env;
    env.overwrite_register_checked(&rd, &value);
    let ghost s6 = *env;
    advance(env);
    proof {
        let row = s0.control().row;
        let limbs = decomposition@;
        assert(s2.lookups() =~= s0.lookups() + register_read_lookups::<Env>(row, rs, a, read_last(s0, s1))
            + register_read_lookups::<Env>(row, rt, b, read_last(s1, s2)));
        assert(s2.accesses() =~= s0.accesses() + register_read_log::<Env>(row, rs, a, read_last(s0, s1))
            + register_read_log::<Env>(row, rt, b, read_last(s1, s2)));
        let n = s0.emitted().len() as int;
        let g0 = s3.emitted().last();
        let g1 = s4b.emitted().last();
        assert(env.emitted() =~= s0.emitted() + seq![g0, g1]);
        assert(gadget_lookups(*env, n) == g0.lookups && gadget_lookups(*env, n + 1) == g1.lookups);
        assert(gadget_constraints(*env, n) == g0.constraints && gadget_constraints(*env, n + 1)
            == g1.constraints);
        let checks = seq![range_check_entry::<Env>(limbs[0]), range_check_entry::<Env>(limbs[1])];
        assert(env.lookups() =~= s2.lookups() + (g0.lookups + checks + g1.lookups
            + register_write_lookups::<Env>(row, rd, value, write_old(s5, s6), write_last(s5, s6))));
        assert(env.constraints() =~= s0.constraints() + g0.constraints + g1.constraints);
        let counts = seq![
            Access::CountRangeCheck { value: limbs[0] },
            Access::CountRangeCheck { value: limbs[1] },
        ];
        assert(env.accesses() =~= s2.accesses() + (counts + register_write_log::<Env>(
            row,
            rd,
            value,
            write_old(s5, s6),
            write_last(s5, s6),
        )));
        assert(env.gadgets() =~= s0.gadgets() + seq![
            Gadget::Decompose { value: combined, widths: seq![16u32, 16u32, 1u32], limbs },
            Gadget::RangeCheck1 { checked: limbs[2] },
        ]);
        assert(value == join_limbs::<Env>(limbs[1], limbs[0]));
        assert(adds::<Env>(
            s0,
            *env,
            subtract,
            a,
            read_last(s0, s1),
            b,
            read_last(s1, s2),
            limbs,
            write_old(s5, s6),
            write_last(s5, s6),
        ));
    }
}

/// `And`, or `Xor` when `take_xor`: writes `rs & rt` (or `rs ^ rt`) to `rd`,
/// then moves on.
fn run_bitwise<Env: InstructionEnvironment>(env: &mut Env, take_xor: bool)
    ensures
        exists|
            a: Env::Variable,
            a_last: Env::Variable,
            b: Env::Variable,
            b_last: Env::Variable,
            and: Env::Variable,
            xor: Env::Variable,
            old_value: Env::Variable,
            write_last: Env::Variable,
        |
            #![trigger combines_bits::<Env>(*old(env), *final(env), take_xor, a, a_last, b, b_last, and, xor, old_value, write_last)]
            combines_bits::<Env>(*old(env), *final(env), take_xor, a, a_last, b, b_last, and, xor, old_value, write_last),
{
    broadcast use {lemma_prefix_of_extension, lemma_prefix_of_push, lemma_prefix_transitive};

    let ghost s0 = *env;
    let rs = env.instruction_part(InstructionPart::RS);
    let rt = env.instruction_part(InstructionPart::RT);
    let register_rs = env.fetch_register_checked(&rs);
    let ghost s1 = *env;
    let register_rt = env.fetch_register_checked(&rt);
    let ghost s2 = *env;
    let (and, xor) = {
        let output_and = env.alloc_scratch();
        let output_xor = env.alloc_scratch();
        env.and_xor(&register_rs, &register_rt, output_and, output_xor)
    };
    let ghost (and_value, xor_value) = (and, xor);
    let rd = env.instruction_part(InstructionPart::RD);
    let written = if take_xor {
        xor
    } else {
        and
    };
    let ghost s3 = *env;
    env.overwrite_register_checked(&rd, &written);
    let ghost s4 = *env;
    advance(env);
    proof {
        let row = s0.control().row;
        assert(s2.lookups() =~= s0.lookups() + register_read_lookups::<Env>(
            row,
            rs,
            register_rs,
            read_last(s0, s1),
        ) + register_read_lookups::<Env>(row, rt, register_rt, read_last(s1, s2)));
        assert(s2.accesses() =~= s0.accesses() + register_read_log::<Env>(
            row,
            rs,
            register_rs,
            read_last(s0, s1),
        ) + register_read_log::<Env>(row, rt, register_rt, read_last(s1, s2)));
        let n = s0.emitted().len() as int;
        let g0 = s3.emitted().last();
        assert(env.emitted() =~= s0.emitted().push(g0));
        assert(gadget_lookups(*env, n) == g0.lookups && gadget_constraints(*env, n)
            == g0.constraints);
        assert(env.lookups() =~= s2.lookups() + (g0.lookups + register_write_lookups::<Env>(
            row,
            rd,
            written,
            write_old(s3, s4),
            write_last(s3, s4),
        )));
        assert(env.constraints() =~= s0.constraints() + g0.constraints);
        assert(env.accesses() =~= s2.accesses() + register_write_log::<Env>(
            row,
            rd,
            written,
            write_old(s3, s4),
            write_last(s3, s4),
        ));
        assert(combines_bits::<Env>(
            s0,
            *env,
            take_xor,
            register_rs,
            read_last(s0, s1),
            register_rt,
            read_last(s1, s2),
            and_value,
            xor_value,
            write_old(s3, s4),
            write_last(s3, s4),
        ));
    }
}

/// `AndImmediate`, or `XorImmediate` when `take_xor`: writes `rs & immediate`
/// (or `rs ^ immediate`) to `rt`, then moves on.
fn run_bitwise_immediate<Env: InstructionEnvironment>(env: &mut Env, take_xor: bool)
    ensures
        exists|
            a: Env::Variable,
            a_last: Env::Variable,
            and: Env::Variable,
            xor: Env::Variable,
            old_value: Env::Variable,
            write_last: Env::Variable,
        |
            #![trigger combines_bits_immediate::<Env>(*old(env), *final(env), take_xor, a, a_last, and, xor, old_value, write_last)]
            combines_bits_immediate::<Env>(*old(env), *final(env), take_xor, a, a_last, and, xor, old_value, write_last),
{
    broadcast use {lemma_prefix_of_extension, lemma_prefix_of_push, lemma_prefix_transitive};

    let ghost s0 = *env;
    let rs = env.instruction_part(InstructionPart::RS);
    let register_rs = env.fetch_register_checked(&rs);
    let ghost s1 = *env;
    let imm = env.immediate();
    let (and, xor) = {
        let output_and = env.alloc_scratch();
        let output_xor = env.alloc_scratch();
        env.and_xor(&register_rs, &imm, output_and, output_xor)
    };
    let ghost (and_value, xor_value) = (and, xor);
    let rt = env.instruction_part(InstructionPart::RT);
    let written = if take_xor {
        xor
    } else {
        and
    };
    let ghost s2 = *env;
    env.overwrite_register_checked(&rt, &written);
    let ghost s3 = *env;
    advance(env);
    proof {
        let row = s0.control().row;
        lemma_ends_with_extension(
            s2.lookups(),
            register_write_lookups::<Env>(row, rt, written, write_old(s2, s3), write_last(s2, s3)),
        );
        assert(env.accesses() =~= s0.accesses() + register_read_log::<Env>(
            row,
            (s0.control().parts)(InstructionPart::RS),
            register_rs,
            read_last(s0, s1),
        ) + register_write_log::<Env>(row, rt, written, write_old(s2, s3), write_last(s2, s3)));
        assert(imm == immediate_of::<Env>(s0.control().parts));
        assert(combines_bits_immediate::<Env>(
            s0,
            *env,
            take_xor,
            register_rs,
            read_last(s0, s1),
            and_value,
            xor_value,
            write_old(s2, s3),
            write_last(s2, s3),
        ));
    }
}

/// `MultiplyUnsigned`: writes the high 32 bits of `rs * rt` to `hi` and the low
/// 32 bits to `lo`, then moves on.
#[verifier::rlimit(50)]
fn run_multiply<Env: InstructionEnvironment>(env: &mut Env)
    ensures
        exists|
            a: Env::Variable,
            a_last: Env::Variable,
            b: Env::Variable,
            b_last: Env::Variable,
            limbs: Seq<Env::Variable>,
            old_hi: Env::Variable,
            hi_last: Env::Variable,
            old_lo: Env::Variable,
            lo_last: Env::Variable,
        |
            #![trigger multiplies::<Env>(*old(env), *final(env), a, a_last, b, b_last, limbs, old_hi, hi_last, old_lo, lo_last)]
            multiplies::<Env>(*old(env), *final(env), a, a_last, b, b_last, limbs, old_hi, hi_last, old_lo, lo_last),
{
    broadcast use {lemma_prefix_of_extension, lemma_prefix_of_push, lemma_prefix_transitive};

    proof {
        lemma_arithmetic_total::<Env>();
        assert(1u32 << 16u32 == 0x1_0000) by (bit_vector);
    }
    let ghost s0 = *env;
    let rs = env.instruction_part(InstructionPart::RS);
    let rt = env.instruction_part(InstructionPart::RT);
    let register_rs = env.fetch_register_checked(&rs);
    let ghost s1 = *env;
    let register_rt = env.fetch_register_checked(&rt);
    let ghost s2 = *env;
    let ghost a = register_rs;
    let ghost b = register_rt;
    let product = register_rs * register_rt;
    let widths: Vec<u32> = vec![16, 16, 16, 16];
    assert(widths@ =~= seq![16u32, 16u32, 16u32, 16u32]);
    let scratch = alloc_scratches(env, 4);
    let decomposition = env.decompose(&product, widths, scratch);
    let ghost s3 = *env;
    env.range_check_16(&decomposition[0]);
    env.range_check_16(&decomposition[1]);
    env.range_check_16(&decomposition[2]);
    env.range_check_16(&decomposition[3]);
    let l3 = decomposition[3].clone();
    let l2 = decomposition[2].clone();
    let l1 = decomposition[1].clone();
    let l0 = decomposition[0].clone();
    proof {
        Env::lemma_variable_clone(decomposition@[3], l3);
        Env::lemma_variable_clone(decomposition@[2], l2);
        Env::lemma_variable_clone(decomposition@[1], l1);
        Env::lemma_variable_clone(decomposition@[0], l0);
    }
    let hi = l3 * Env::constant(1u32 << 16u32) + l2;
    let lo = l1 * Env::constant(1u32 << 16u32) + l0;
    let ghost s4 = *env;
    env.overwrite_register_checked(&Env::hi_register_idx(), &hi);
    let ghost s5 = *env;
    env.overwrite_register_checked(&Env::lo_register_idx(), &lo);
    let ghost s6 = *env;
    advance(env);
    proof {
        let row = s0.control().row;
        let limbs = decomposition@;
        assert(s2.lookups() =~= s0.lookups() + register_read_lookups::<Env>(row, rs, a, read_last(s0, s1))
            + register_read_lookups::<Env>(row, rt, b, read_last(s1, s2)));
        assert(s2.accesses() =~= s0.accesses() + register_read_log::<Env>(row, rs, a, read_last(s0, s1))
            + register_read_log::<Env>(row, rt, b, read_last(s1, s2)));
        let checks = seq![
            range_check_entry::<Env>(limbs[0]),
            range_check_entry::<Env>(limbs[1]),
            range_check_entry::<Env>(limbs[2]),
            range_check_entry::<Env>(limbs[3]),
        ];
        let write_hi = register_write_lookups::<Env>(
            row,
            Env::spec_constant(32),
            hi,
            write_old(s4, s5),
            write_last(s4, s5),
        );
        let write_lo = register_write_lookups::<Env>(
            row,
            Env::spec_constant(33),
            lo,
            write_old(s5, s6),
            write_last(s5, s6),
        );
        let lookups = checks + write_hi + write_lo;
        let n = s0.emitted().len() as int;
        let g0 = s3.emitted().last();
        assert(env.emitted() =~= s0.emitted().push(g0));
        assert(gadget_lookups(*env, n) == g0.lookups && gadget_constraints(*env, n)
            == g0.constraints);
        assert(env.lookups() =~= s2.lookups() + (g0.lookups + lookups));
        assert(env.constraints() =~= s0.constraints() + g0.constraints);
        let accesses = seq![
            Access::CountRangeCheck { value: limbs[0] },
            Access::CountRangeCheck { value: limbs[1] },
            Access::CountRangeCheck { value: limbs[2] },
            Access::CountRangeCheck { value: limbs[3] },
        ] + register_write_log::<Env>(
            row,
            Env::spec_constant(32),
            hi,
            write_old(s4, s5),
            write_last(s4, s5),
        ) + register_write_log::<Env>(
            row,
            Env::spec_constant(33),
            lo,
            write_old(s5, s6),
            write_last(s5, s6),
        );
        assert(env.accesses() =~= s2.accesses() + accesses);
        assert(env.lookups() =~= s2.lookups() + (gadget_lookups(*env, n) + checks + write_hi
            + write_lo));
        assert(hi == join_limbs::<Env>(limbs[3], limbs[2]));
        assert(lo == join_limbs::<Env>(limbs[1], limbs[0]));
        assert(multiplies::<Env>(
            s0,
            *env,
            a,
            read_last(s0, s1),
            b,
            read_last(s1, s2),
            limbs,
            write_old(s4, s5),
            write_last(s4, s5),
            write_old(s5, s6),
            write_last(s5, s6),
        ));
    }
}

/// `DivUnsigned`: writes `rs % rt` to `hi` and `rs / rt` to `lo`, halts on a
/// division by zero, then moves on.
#[verifier::rlimit(100)]
#[verifier::spinoff_prover]
fn run_divide<Env: InstructionEnvironment>(env: &mut Env)
    ensures
        exists|
            a: Env::Variable,
            a_last: Env::Variable,
            b: Env::Variable,
            b_last: Env::Variable,
            quotient: Env::Variable,
            remainder: Env::Variable,
            by_zero: Env::Variable,
            quotient_limbs: Seq<Env::Variable>,
            remainder_limbs: Seq<Env::Variable>,
            old_hi: Env::Variable,
            hi_last: Env::Variable,
            old_lo: Env::Variable,
            lo_last: Env::Variable,
        |
            #![trigger divides::<Env>(*old(env), *final(env), a, a_last, b, b_last, quotient, remainder, by_zero, quotient_limbs, remainder_limbs, old_hi, hi_last, old_lo, lo_last)]
            divides::<Env>(
                *old(env),
                *final(env),
                a,
                a_last,
                b,
                b_last,
                quotient,
                remainder,
                by_zero,
                quotient_limbs,
                remainder_limbs,
                old_hi,
                hi_last,
                old_lo,
                lo_last,
            ),
{
    broadcast use {lemma_prefix_of_extension, lemma_prefix_of_push, lemma_prefix_transitive};

    proof {
        lemma_arithmetic_total::<Env>();
        assert(1u32 << 16u32 == 0x1_0000) by (bit_vector);
    }
    let ghost s0 = *env;
    let rs = env.instruction_part(InstructionPart::RS);
    let rt = env.instruction_part(InstructionPart::RT);
    let register_rs = env.fetch_register_checked(&rs);
    let ghost s1 = *env;
    let register_rt = env.fetch_register_checked(&rt);
    let ghost s2 = *env;
    let (div, rem, divide_by_zero) = {
        let output_div = env.alloc_scratch();
        let output_rem = env.alloc_scratch();
        let output_divide_by_zero = env.alloc_scratch();
        env.div_rem(&register_rs, &register_rt, output_div, output_rem, output_divide_by_zero)
    };
    let ghost t0 = *env;
    env.range_check_1(&divide_by_zero);
    let ghost t1 = *env;
    let div_widths: Vec<u32> = vec![16, 16];
    assert(div_widths@ =~= seq![16u32, 16u32]);
    let div_scratch = alloc_scratches(env, 2);
    let decomposition_div = env.decompose(&div, div_widths, div_scratch);
    let ghost t2 = *env;
    let rem_widths: Vec<u32> = vec![16, 16];
    assert(rem_widths@ =~= seq![16u32, 16u32]);
    let rem_scratch = alloc_scratches(env, 2);
    let decomposition_rem = env.decompose(&rem, rem_widths, rem_scratch);
    let ghost s3 = *env;
    env.range_check_16(&decomposition_div[0]);
    env.range_check_16(&decomposition_div[1]);
    env.range_check_16(&decomposition_rem[0]);
    env.range_check_16(&decomposition_rem[1]);
    let r1 = decomposition_rem[1].clone();
    let r0 = decomposition_rem[0].clone();
    let q1 = decomposition_div[1].clone();
    let q0 = decomposition_div[0].clone();
    proof {
        Env::lemma_variable_clone(decomposition_rem@[1], r1);
        Env::lemma_variable_clone(decomposition_rem@[0], r0);
        Env::lemma_variable_clone(decomposition_div@[1], q1);
        Env::lemma_variable_clone(decomposition_div@[0], q0);
    }
    let hi = r1 * Env::constant(1u32 << 16u32) + r0;
    let lo = q1 * Env::constant(1u32 << 16u32) + q0;
    let ghost s4 = *env;
    env.overwrite_register_checked(&Env::hi_register_idx(), &hi);
    let ghost s5 = *env;
    env.overwrite_register_checked(&Env::lo_register_idx(), &lo);
    let ghost s6 = *env;
    let ghost by_zero = divide_by_zero;
    let should_halt = Env::constant(1) - (Env::constant(1) - divide_by_zero) * (Env::constant(1)
        - env.halted());
    env.set_halted(&should_halt);
    advance(env);
    proof {
        let row = s0.control().row;
        let q_limbs = decomposition_div@;
        let r_limbs = decomposition_rem@;
        assert(s2.lookups() =~= s0.lookups() + register_read_lookups::<Env>(
            row,
            rs,
            register_rs,
            read_last(s0, s1),
        ) + register_read_lookups::<Env>(row, rt, register_rt, read_last(s1, s2)));
        assert(s2.accesses() =~= s0.accesses() + register_read_log::<Env>(
            row,
            rs,
            register_rs,
            read_last(s0, s1),
        ) + register_read_log::<Env>(row, rt, register_rt, read_last(s1, s2)));
        let checks = seq![
            range_check_entry::<Env>(q_limbs[0]),
            range_check_entry::<Env>(q_limbs[1]),
            range_check_entry::<Env>(r_limbs[0]),
            range_check_entry::<Env>(r_limbs[1]),
        ];
        let write_hi = register_write_lookups::<Env>(
            row,
            Env::spec_constant(32),
            hi,
            write_old(s4, s5),
            write_last(s4, s5),
        );
        let write_lo = register_write_lookups::<Env>(
            row,
            Env::spec_constant(33),
            lo,
            write_old(s5, s6),
            write_last(s5, s6),
        );
        let lookups = checks + write_hi + write_lo;
        let n = s0.emitted().len() as int;
        let (g0, g1, g2, g3) = (
            t0.emitted().last(),
            t1.emitted().last(),
            t2.emitted().last(),
            s3.emitted().last(),
        );
        assert(gadget_lookups(*env, n) == g0.lookups && gadget_lookups(*env, n + 1) == g1.lookups
            && gadget_lookups(*env, n + 2) == g2.lookups && gadget_lookups(*env, n + 3)
            == g3.lookups && gadget_constraints(*env, n) == g0.constraints && gadget_constraints(
            *env,
            n + 1,
        ) == g1.constraints && gadget_constraints(*env, n + 2) == g2.constraints
            && gadget_constraints(*env, n + 3) == g3.constraints && emitted_grew(s0, *env, 4)) by {
            assert(env.emitted() =~= s0.emitted() + seq![g0, g1, g2, g3]);
        }
        assert(env.lookups() =~= s2.lookups() + (g0.lookups + g1.lookups + g2.lookups + g3.lookups
            + lookups));
        assert(env.constraints() =~= s0.constraints() + g0.constraints + g1.constraints
            + g2.constraints + g3.constraints);
        let accesses = seq![
            Access::CountRangeCheck { value: q_limbs[0] },
            Access::CountRangeCheck { value: q_limbs[1] },
            Access::CountRangeCheck { value: r_limbs[0] },
            Access::CountRangeCheck { value: r_limbs[1] },
        ] + register_write_log::<Env>(
            row,
            Env::spec_constant(32),
            hi,
            write_old(s4, s5),
            write_last(s4, s5),
        ) + register_write_log::<Env>(
            row,
            Env::spec_constant(33),
            lo,
            write_old(s5, s6),
            write_last(s5, s6),
        );
        assert(env.accesses() =~= s2.accesses() + accesses);
        assert(env.gadgets() =~= s0.gadgets() + seq![
            Gadget::DivRem {
                numerator: register_rs,
                denominator: register_rt,
                quotient: div,
                remainder: rem,
                divide_by_zero: by_zero,
            },
            Gadget::RangeCheck1 { checked: by_zero },
            Gadget::Decompose { value: div, widths: seq![16u32, 16u32], limbs: q_limbs },
            Gadget::Decompose { value: rem, widths: seq![16u32, 16u32], limbs: r_limbs },
        ]);
        assert(env.lookups() =~= s2.lookups() + (gadget_lookups(*env, n) + gadget_lookups(*env, n + 1) + gadget_lookups(*env, n + 2)
            + gadget_lookups(*env, n + 3) + checks + write_hi
            + write_lo));
        assert(hi == join_limbs::<Env>(r_limbs[1], r_limbs[0]));
        assert(lo == join_limbs::<Env>(q_limbs[1], q_limbs[0]));
        assert(divides::<Env>(
            s0,
            *env,
            register_rs,
            read_last(s0, s1),
            register_rt,
            read_last(s1, s2),
            div,
            rem,
            by_zero,
            q_limbs,
            r_limbs,
            write_old(s4, s5),
            write_last(s4, s5),
            write_old(s5, s6),
            write_last(s5, s6),
        ));
    }
}

/// `JumpRegister`, or `JumpAndLinkRegister` when `link`: after writing the
/// return address `ip + 8` to `rd` when `link`, halts when the address held by
/// `rs` is not a multiple of 4, then sets the instruction pointer to
/// `halted * rs + (1 - halted) * ip`: that address once halted, the current
/// instruction otherwise.
#[verifier::rlimit(80)]
fn run_jump_register<Env: InstructionEnvironment>(env: &mut Env, link: bool)
    ensures
        !link ==> exists|
            a: Env::Variable,
            a_last: Env::Variable,
            limbs: Seq<Env::Variable>,
            aligned: Env::Variable,
            inverse: Env::Variable,
        |
            #![trigger jumps_to_register::<Env>(*old(env), *final(env), a, a_last, Seq::empty(), Seq::empty(), limbs, aligned, inverse)]
            jumps_to_register::<Env>(
                *old(env),
                *final(env),
                a,
                a_last,
                Seq::empty(),
                Seq::empty(),
                limbs,
                aligned,
                inverse,
            ),
        link ==> exists|
            a: Env::Variable,
            a_last: Env::Variable,
            old_value: Env::Variable,
            write_last: Env::Variable,
            limbs: Seq<Env::Variable>,
            aligned: Env::Variable,
            inverse: Env::Variable,
        |
            #![trigger jumps_to_register::<Env>(*old(env), *final(env), a, a_last, register_write_lookups::<Env>(old(env).control().row, (old(env).control().parts)(InstructionPart::RD), old(env).control().ip.add_spec(Env::spec_constant(8)), old_value, write_last), register_write_log::<Env>(old(env).control().row, (old(env).control().parts)(InstructionPart::RD), old(env).control().ip.add_spec(Env::spec_constant(8)), old_value, write_last), limbs, aligned, inverse)]
            jumps_to_register::<Env>(
                *old(env),
                *final(env),
                a,
                a_last,
                register_write_lookups::<Env>(
                    old(env).control().row,
                    (old(env).control().parts)(InstructionPart::RD),
                    old(env).control().ip.add_spec(Env::spec_constant(8)),
                    old_value,
                    write_last,
                ),
                register_write_log::<Env>(
                    old(env).control().row,
                    (old(env).control().parts)(InstructionPart::RD),
                    old(env).control().ip.add_spec(Env::spec_constant(8)),
                    old_value,
                    write_last,
                ),
                limbs,
                aligned,
                inverse,
            ),
{
    broadcast use {lemma_prefix_of_extension, lemma_prefix_of_push, lemma_prefix_transitive};

    proof {
        lemma_arithmetic_total::<Env>();
        assert((1u32 << (16 - 14u32) as u32) as u32 == 4u32) by (bit_vector);
    }
    let ghost s0 = *env;
    let rs = env.instruction_part(InstructionPart::RS);
    let register_rs = env.fetch_register_checked(&rs);
    let ghost s1 = *env;
    let ghost link_value = s0.control().ip.add_spec(Env::spec_constant(8));
    if link {
        let rd = env.instruction_part(InstructionPart::RD);
        let return_address = env.instruction_pointer() + Env::constant(8);
        env.overwrite_register_checked(&rd, &return_address);
    }
    let ghost s2 = *env;
    let widths: Vec<u32> = vec![16, 14, 2];
    assert(widths@ =~= seq![16u32, 14u32, 2u32]);
    let scratch = alloc_scratches(env, 3);
    let decomposition = env.decompose(&register_rs, widths, scratch);
    let ghost s3 = *env;
    env.range_check_16(&decomposition[0]);
    env.range_check(&decomposition[1], 14);
    let ghost s4 = *env;
    env.range_check_2(&decomposition[2]);
    let ghost before_test = *env;
    let is_aligned = env.is_zero(&decomposition[2]);
    let ghost s5 = *env;
    let should_halt = Env::constant(1) - is_aligned * (Env::constant(1) - env.halted());
    env.set_halted(&should_halt);
    let halted = env.halted();
    let halted_copy = halted.clone();
    proof {
        Env::lemma_variable_clone(halted, halted_copy);
    }
    let ghost a = register_rs;
    env.set_instruction_pointer(
        &(halted_copy * register_rs + (Env::constant(1) - halted) * env.instruction_pointer()),
    );
    proof {
        let row = s0.control().row;
        let rd = (s0.control().parts)(InstructionPart::RD);
        let limbs = decomposition@;
        let inverse = s5.gadgets().last()->inverse;
        let link_lookups = if link {
            register_write_lookups::<Env>(row, rd, link_value, write_old(s1, s2), write_last(s1, s2))
        } else {
            Seq::empty()
        };
        let link_accesses = if link {
            register_write_log::<Env>(row, rd, link_value, write_old(s1, s2), write_last(s1, s2))
        } else {
            Seq::empty()
        };
        assert(s2.lookups() =~= s0.lookups() + register_read_lookups::<Env>(
            row,
            rs,
            a,
            read_last(s0, s1),
        ) + link_lookups);
        assert(s2.accesses() =~= s0.accesses() + register_read_log::<Env>(
            row,
            rs,
            a,
            read_last(s0, s1),
        ) + link_accesses);
        let checks = seq![
            range_check_entry::<Env>(limbs[0]),
            range_check_entry::<Env>(limbs[1]),
            range_check_entry::<Env>(limbs[1].mul_spec(Env::spec_constant(4))),
        ];
        let n = s0.emitted().len() as int;
        let g0 = s3.emitted().last();
        let g1 = before_test.emitted().last();
        let g2 = s5.emitted().last();
        assert(env.emitted() =~= s0.emitted() + seq![g0, g1, g2]);
        assert(gadget_lookups(*env, n) == g0.lookups && gadget_lookups(*env, n + 1) == g1.lookups
            && gadget_lookups(*env, n + 2) == g2.lookups);
        assert(gadget_constraints(*env, n) == g0.constraints && gadget_constraints(*env, n + 1)
            == g1.constraints);
        assert(env.lookups() =~= s0.lookups() + register_read_lookups::<Env>(
            row,
            rs,
            a,
            read_last(s0, s1),
        ) + link_lookups + g0.lookups + checks + g1.lookups + g2.lookups);
        let pair = seq![
            inverse.mul_spec(limbs[2]).sub_spec(Env::spec_constant(1).sub_spec(is_aligned)),
            is_aligned.mul_spec(limbs[2]),
        ];
        assert(env.constraints() =~= s0.constraints() + g0.constraints + g1.constraints + pair);
        let counts = seq![
            Access::CountRangeCheck { value: limbs[0] },
            Access::CountRangeCheck { value: limbs[1] },
            Access::CountRangeCheck { value: limbs[1].mul_spec(Env::spec_constant(4)) },
        ];
        assert(env.accesses() =~= s0.accesses() + register_read_log::<Env>(
            row,
            rs,
            a,
            read_last(s0, s1),
        ) + link_accesses + counts);
        assert(env.gadgets() =~= s0.gadgets() + seq![
            Gadget::Decompose { value: a, widths: seq![16u32, 14u32, 2u32], limbs },
            Gadget::RangeCheck2 { checked: limbs[2] },
            Gadget::EqZeroTerms { tested: limbs[2], is_zero: is_aligned, inverse },
        ]);
        assert(jumps_to_register::<Env>(
            s0,
            *env,
            a,
            read_last(s0, s1),
            link_lookups,
            link_accesses,
            limbs,
            is_aligned,
            inverse,
        ));
    }
}

/// `BranchEq`, or `BranchNeq` when `!on_equal`: jumps by the sign-extended
/// immediate times 4 past the next instruction when `rs == rt` (or
/// `rs != rt`), and to the next instruction otherwise.
#[verifier::rlimit(50)]
fn run_branch<Env: InstructionEnvironment>(env: &mut Env, on_equal: bool)
    ensures
        exists|
            a: Env::Variable,
            a_last: Env::Variable,
            b: Env::Variable,
            b_last: Env::Variable,
            equal: Env::Variable,
            inverse: Env::Variable,
            offset: Env::Variable,
        |
            #![trigger branches::<Env>(*old(env), *final(env), on_equal, a, a_last, b, b_last, equal, inverse, offset)]
            branches::<Env>(*old(env), *final(env), on_equal, a, a_last, b, b_last, equal, inverse, offset),
{
    broadcast use {lemma_prefix_of_extension, lemma_prefix_of_push, lemma_prefix_transitive};

    proof {
        lemma_arithmetic_total::<Env>();
    }
    let ghost s0 = *env;
    let rs = env.instruction_part(InstructionPart::RS);
    let register_rs = env.fetch_register_checked(&rs);
    let ghost s1 = *env;
    let rt = env.instruction_part(InstructionPart::RT);
    let register_rt = env.fetch_register_checked(&rt);
    let ghost s2 = *env;
    let ghost a = register_rs;
    let ghost b = register_rt;
    let equal = env.is_zero(&(register_rs - register_rt));
    let ghost s3 = *env;
    let imm = env.immediate();
    let offset = {
        let offset_output = env.alloc_scratch();
        env.sign_extend(&imm, offset_output)
    };
    let ghost offset_value = offset;
    let ghost equal_value = equal;
    let ip = env.instruction_pointer();
    let target = if on_equal {
        ip + Env::constant(4) + equal * offset * Env::constant(4)
    } else {
        ip + Env::constant(4) + (Env::constant(1) - equal) * offset * Env::constant(4)
    };
    env.set_instruction_pointer(&target);
    proof {
        let row = s0.control().row;
        let inverse = s3.gadgets().last()->inverse;
        assert(s2.lookups() =~= s0.lookups() + register_read_lookups::<Env>(row, rs, a, read_last(s0, s1))
            + register_read_lookups::<Env>(row, rt, b, read_last(s1, s2)));
        assert(s2.accesses() =~= s0.accesses() + register_read_log::<Env>(row, rs, a, read_last(s0, s1))
            + register_read_log::<Env>(row, rt, b, read_last(s1, s2)));
        let pair = seq![
            inverse.mul_spec(a.sub_spec(b)).sub_spec(Env::spec_constant(1).sub_spec(equal_value)),
            equal_value.mul_spec(a.sub_spec(b)),
        ];
        assert(s3.constraints() =~= s0.constraints() + pair);
        let n = s0.emitted().len() as int;
        let g0 = s3.emitted().last();
        let g1 = env.emitted().last();
        assert(env.emitted() =~= s0.emitted() + seq![g0, g1]);
        assert(gadget_lookups(*env, n) == g0.lookups && gadget_lookups(*env, n + 1) == g1.lookups
            && gadget_constraints(*env, n + 1) == g1.constraints);
        assert(env.lookups() =~= s2.lookups() + (g0.lookups + g1.lookups));
        assert(env.constraints() =~= s0.constraints() + pair + g1.constraints);
        assert(env.accesses() =~= s2.accesses() + Seq::<Access<Env::Variable>>::empty());
        assert(imm == immediate_of::<Env>(s0.control().parts));
        assert(env.gadgets() =~= s0.gadgets() + seq![
            Gadget::EqZeroTerms { tested: a.sub_spec(b), is_zero: equal_value, inverse },
            Gadget::SignExtend { unextended: imm, extended: offset_value },
        ]);
        assert(branches::<Env>(
            s0,
            *env,
            on_equal,
            a,
            read_last(s0, s1),
            b,
            read_last(s1, s2),
            equal_value,
            inverse,
            offset_value,
        ));
    }
}

/// Executes one instruction in the environment: what it does is `executes`.
///
/// The row and the instruction parts are left alone, and lookups and
/// constraints are only appended.
#[verifier::rlimit(50)]
pub fn run_instruction<Env: InstructionEnvironment>(instr: InstructionSelector, env: &mut Env)
    ensures
        executes::<Env>(instr, *old(env), *final(env)),
        final(env).control().row == old(env).control().row,
        final(env).control().parts == old(env).control().parts,
        logs_grow(*old(env), *final(env)),
{
    broadcast use {lemma_prefix_of_extension, lemma_prefix_of_push, lemma_prefix_transitive};

    match instr {
        InstructionSelector::RType(RTypeInstruction::ShiftLeftLogical) => advance(env),
        InstructionSelector::RType(RTypeInstruction::ShiftRightLogical) => advance(env),
        InstructionSelector::RType(RTypeInstruction::ShiftRightArithmetic) => advance(env),
        InstructionSelector::RType(RTypeInstruction::ShiftLeftLogicalVariable) => advance(env),
        InstructionSelector::RType(RTypeInstruction::ShiftRightLogicalVariable) => advance(env),
        InstructionSelector::RType(RTypeInstruction::ShiftRightArithmeticVariable) => advance(env),
        InstructionSelector::RType(RTypeInstruction::JumpRegister) => run_jump_register(env, false),
        InstructionSelector::RType(RTypeInstruction::JumpAndLinkRegister) => run_jump_register(
            env,
            true,
        ),
        InstructionSelector::RType(RTypeInstruction::Syscall) => {
            // Treat as an effective halt
            env.set_halted(&Env::constant(1u32));
            advance(env);
        },
        InstructionSelector::RType(RTypeInstruction::MoveFromHi) => {
            let hi = Env::hi_register_idx();
            let rd = env.instruction_part(InstructionPart::RD);
            copy_register(env, &hi, &rd);
        },
        InstructionSelector::RType(RTypeInstruction::MoveToHi) => {
            let rs = env.instruction_part(InstructionPart::RS);
            let hi = Env::hi_register_idx();
            copy_register(env, &rs, &hi);
        },
        InstructionSelector::RType(RTypeInstruction::MoveFromLo) => {
            let lo = Env::lo_register_idx();
            let rd = env.instruction_part(InstructionPart::RD);
            copy_register(env, &lo, &rd);
        },
        InstructionSelector::RType(RTypeInstruction::MoveToLo) => {
            let rs = env.instruction_part(InstructionPart::RS);
            let lo = Env::lo_register_idx();
            copy_register(env, &rs, &lo);
        },
        InstructionSelector::RType(RTypeInstruction::Multiply) => advance(env),
        InstructionSelector::RType(RTypeInstruction::MultiplyUnsigned) => run_multiply(env),
        InstructionSelector::RType(RTypeInstruction::Div) => advance(env),
        InstructionSelector::RType(RTypeInstruction::DivUnsigned) => run_divide(env),
        InstructionSelector::RType(RTypeInstruction::Add) => advance(env),
        InstructionSelector::RType(RTypeInstruction::AddUnsigned) => run_add_sub(env, false),
        InstructionSelector::RType(RTypeInstruction::Sub) => advance(env),
        InstructionSelector::RType(RTypeInstruction::SubUnsigned) => run_add_sub(env, true),
        InstructionSelector::RType(RTypeInstruction::And) => run_bitwise(env, false),
        InstructionSelector::RType(RTypeInstruction::Or) => advance(env),
        InstructionSelector::RType(RTypeInstruction::Xor) => run_bitwise(env, true),
        InstructionSelector::RType(RTypeInstruction::Nor) => advance(env),
        InstructionSelector::RType(RTypeInstruction::SetLessThan) => advance(env),
        InstructionSelector::RType(RTypeInstruction::SetLessThanUnsigned) => advance(env),
        InstructionSelector::JType(JTypeInstruction::Jump) => (),
        InstructionSelector::JType(JTypeInstruction::JumpAndLink) => run_jump_and_link(env),
        InstructionSelector::IType(ITypeInstruction::BranchEq) => run_branch(env, true),
        InstructionSelector::IType(ITypeInstruction::BranchNeq) => run_branch(env, false),
        InstructionSelector::IType(ITypeInstruction::BranchLeqZero) => (),
        InstructionSelector::IType(ITypeInstruction::BranchGtZero) => (),
        InstructionSelector::IType(ITypeInstruction::AddImmediate) => advance(env),
        InstructionSelector::IType(ITypeInstruction::AddImmediateUnsigned) => run_add_immediate(env),
        InstructionSelector::IType(ITypeInstruction::SetLessThanImmediate) => advance(env),
        InstructionSelector::IType(ITypeInstruction::SetLessThanImmediateUnsigned) => advance(env),
        InstructionSelector::IType(ITypeInstruction::AndImmediate) => run_bitwise_immediate(
            env,
            false,
        ),
        InstructionSelector::IType(ITypeInstruction::OrImmediate) => advance(env),
        InstructionSelector::IType(ITypeInstruction::XorImmediate) => run_bitwise_immediate(
            env,
            true,
        ),
        InstructionSelector::IType(ITypeInstruction::LoadImmediate) => run_load_immediate(env),
        InstructionSelector::IType(ITypeInstruction::Load8) => advance(env),
        InstructionSelector::IType(ITypeInstruction::Load16) => advance(env),
        InstructionSelector::IType(ITypeInstruction::Load32) => advance(env),
        InstructionSelector::IType(ITypeInstruction::Load8Unsigned) => advance(env),
        InstructionSelector::IType(ITypeInstruction::Load16Unsigned) => advance(env),
        InstructionSelector::IType(ITypeInstruction::Store8) => advance(env),
        InstructionSelector::IType(ITypeInstruction::Store16) => advance(env),
        InstructionSelector::IType(ITypeInstruction::Store32) => advance(env),
    }
}

// ---------------------------------------------------------------------------
// Registers as the access log shows them
// ---------------------------------------------------------------------------

/// What the accesses `log` last read from or wrote to register `index`, if it
/// touched that register at all.
pub open spec fn last_register_value<V>(log: Seq<Access<V>>, index: V) -> Option<V>
    decreases log.len(),
{
    if log.len() == 0 {
        None
    } else {
        let earlier = last_register_value(log.drop_last(), index);
        match log.last() {
            Access::ReadRegister { index: i, value } => if i == index {
                Some(value)
            } else {
                earlier
            },
            Access::WriteRegister { index: i, value } => if i == index {
                Some(value)
            } else {
                earlier
            },
            _ => earlier,
        }
    }
}

/// Every register read in `log` gives back what the log last read from or wrote
/// to that register before it, when it touched that register before: the log of
/// an environment that runs the program.
pub open spec fn register_reads_faithful<V>(log: Seq<Access<V>>) -> bool {
    forall|k: int|
        #![trigger log[k]]
        0 <= k < log.len() ==> match log[k] {
            Access::ReadRegister { index, value } => match last_register_value(log.take(k), index) {
                Some(previous) => previous == value,
                None => true,
            },
            _ => true,
        }
}

/// The register seen through `s + t` is the one seen through `t`, when `t`
/// touches it, and the one seen through `s` otherwise.
pub proof fn lemma_last_register_value_append<V>(s: Seq<Access<V>>, t: Seq<Access<V>>, index: V)
    ensures
        last_register_value(s + t, index) == match last_register_value(t, index) {
            Some(value) => Some(value),
            None => last_register_value(s, index),
        },
    decreases t.len(),
{
    if t.len() == 0 {
        assert(s + t =~= s);
    } else {
        assert((s + t).drop_last() =~= s + t.drop_last());
        lemma_last_register_value_append(s, t.drop_last(), index);
    }
}

/// A checked read of register `index` shows `value` for it and nothing for the
/// other registers.
pub proof fn lemma_read_log_value<E: InstructionEnvironment>(
    row: E::Variable,
    index: E::Variable,
    value: E::Variable,
    last: E::Variable,
    other: E::Variable,
)
    ensures
        last_register_value(register_read_log::<E>(row, index, value, last), other) == if other
            == index {
            Some(value)
        } else {
            None
        },
{
    reveal_with_fuel(last_register_value, 5);
}

/// A checked write of `value` to register `index` shows `value` for it and
/// nothing for the other registers.
pub proof fn lemma_write_log_value<E: InstructionEnvironment>(
    row: E::Variable,
    index: E::Variable,
    value: E::Variable,
    old_value: E::Variable,
    last: E::Variable,
    other: E::Variable,
)
    ensures
        last_register_value(register_write_log::<E>(row, index, value, old_value, last), other)
            == if other == index {
            Some(value)
        } else {
            None
        },
{
    reveal_with_fuel(last_register_value, 6);
}

/// No access of `log` between positions `from` and `to` writes register `index`.
pub open spec fn leaves_register<V>(log: Seq<Access<V>>, from: int, to: int, index: V) -> bool {
    forall|k: int|
        #![trigger log[k]]
        from <= k < to ==> match log[k] {
            Access::WriteRegister { index: i, .. } => i != index,
            _ => true,
        }
}

/// With reads that give back what was last written, a register that the log
/// showed holding `value` at position `from` still shows `value` at `to` when
/// nothing in between writes it.
pub proof fn lemma_register_kept<V>(log: Seq<Access<V>>, from: int, to: int, index: V, value: V)
    requires
        0 <= from <= to <= log.len(),
        last_register_value(log.take(from), index) == Some(value),
        leaves_register(log, from, to, index),
        register_reads_faithful(log),
    ensures
        last_register_value(log.take(to), index) == Some(value),
    decreases to - from,
{
    if to > from {
        lemma_register_kept(log, from, to - 1, index, value);
        assert(log.take(to).drop_last() =~= log.take(to - 1));
        assert(log.take(to).last() == log[to - 1]);
        let _ = log[to - 1];
    }
}

/// Copying register `source` to `middle` (from `e0` to `e1`), then steps that
/// do not write `middle` (from `e1` to `e2`), then copying `middle` to `target`
/// (from `e2` to `e3`), with reads that give back what was last written: both
/// `middle` and `target` end up holding what `source` held.
proof fn lemma_copy_through<E: InstructionEnvironment>(
    e0: E,
    e1: E,
    e2: E,
    e3: E,
    source: E::Variable,
    middle: E::Variable,
    target: E::Variable,
)
    requires
        exists|v: E::Variable, l1: E::Variable, old1: E::Variable, l2: E::Variable|
            #![trigger read_then_write::<E>(e0, e1, source, v, l1, middle, v, old1, l2)]
            read_then_write::<E>(e0, e1, source, v, l1, middle, v, old1, l2),
        e1.accesses().is_prefix_of(e2.accesses()),
        leaves_register(e2.accesses(), e1.accesses().len() as int, e2.accesses().len() as int, middle),
        exists|w: E::Variable, l3: E::Variable, old2: E::Variable, l4: E::Variable|
            #![trigger read_then_write::<E>(e2, e3, middle, w, l3, target, w, old2, l4)]
            read_then_write::<E>(e2, e3, middle, w, l3, target, w, old2, l4),
        register_reads_faithful(e3.accesses()),
    ensures
        last_register_value(e1.accesses(), source) is Some,
        last_register_value(e3.accesses(), target) == last_register_value(e1.accesses(), source),
        last_register_value(e3.accesses(), middle) == last_register_value(e1.accesses(), source),
{
    let row0 = e0.control().row;
    let row2 = e2.control().row;
    let (v, l1, old1, l2) = choose|v: E::Variable, l1: E::Variable, old1: E::Variable, l2: E::Variable|
        read_then_write::<E>(e0, e1, source, v, l1, middle, v, old1, l2);
    let (w, l3, old2, l4) = choose|w: E::Variable, l3: E::Variable, old2: E::Variable, l4: E::Variable|
        read_then_write::<E>(e2, e3, middle, w, l3, target, w, old2, l4);
    let read_source = register_read_log::<E>(row0, source, v, l1);
    let write_middle = register_write_log::<E>(row0, middle, v, old1, l2);
    let read_middle = register_read_log::<E>(row2, middle, w, l3);
    let write_target = register_write_log::<E>(row2, target, w, old2, l4);
    let log = e3.accesses();
    let n1 = e1.accesses().len() as int;
    let n2 = e2.accesses().len() as int;
    assert(e1.accesses() == e0.accesses() + read_source + write_middle);
    assert(log == e2.accesses() + read_middle + write_target);
    assert(log.take(n2) =~= e2.accesses());
    assert(log.take(n1) =~= e1.accesses()) by {
        assert(e2.accesses().subrange(0, n1) =~= e1.accesses());
    }
    assert(last_register_value(e1.accesses(), middle) == Some(v)) by {
        lemma_write_log_value::<E>(row0, middle, v, old1, l2, middle);
        lemma_last_register_value_append(e0.accesses() + read_source, write_middle, middle);
    }
    assert(last_register_value(e2.accesses(), middle) == Some(v)) by {
        assert forall|k: int| n1 <= k < n2 implies match #[trigger] log[k] {
            Access::WriteRegister { index: i, .. } => i != middle,
            _ => true,
        } by {
            assert(log[k] == e2.accesses()[k]);
            let _ = e2.accesses()[k];
        }
        lemma_register_kept(log, n1, n2, middle, v);
    }
    assert(w == v) by {
        assert(log[n2] == Access::ReadRegister { index: middle, value: w });
    }
    assert(last_register_value(log, target) == Some(w)) by {
        lemma_write_log_value::<E>(row2, target, w, old2, l4, target);
        lemma_last_register_value_append(e2.accesses() + read_middle, write_target, target);
    }
    assert(last_register_value(log, middle) == Some(w)) by {
        lemma_write_log_value::<E>(row2, target, w, old2, l4, middle);
        lemma_read_log_value::<E>(row2, middle, w, l3, middle);
        lemma_last_register_value_append(e2.accesses() + read_middle, write_target, middle);
        lemma_last_register_value_append(e2.accesses(), read_middle, middle);
    }
    assert(last_register_value(e1.accesses(), source) == Some(v)) by {
        lemma_write_log_value::<E>(row0, middle, v, old1, l2, source);
        lemma_read_log_value::<E>(row0, source, v, l1, source);
        lemma_last_register_value_append(e0.accesses() + read_source, write_middle, source);
        lemma_last_register_value_append(e0.accesses(), read_source, source);
    }
}

/// `MoveToHi` (from `e0` to `e1`), then steps that do not write `hi` (from `e1`
/// to `e2`), then `MoveFromHi` (from `e2` to `e3`), in an environment whose
/// register reads give back what was last written: `hi` and the last step's
/// `rd` end up holding what the first step's `rs` held.
pub proof fn lemma_move_through_hi<E: InstructionEnvironment>(e0: E, e1: E, e2: E, e3: E)
    requires
        executes::<E>(InstructionSelector::RType(RTypeInstruction::MoveToHi), e0, e1),
        e1.accesses().is_prefix_of(e2.accesses()),
        leaves_register(
            e2.accesses(),
            e1.accesses().len() as int,
            e2.accesses().len() as int,
            E::spec_constant(32),
        ),
        executes::<E>(InstructionSelector::RType(RTypeInstruction::MoveFromHi), e2, e3),
        register_reads_faithful(e3.accesses()),
    ensures
        last_register_value(e1.accesses(), (e0.control().parts)(InstructionPart::RS)) is Some,
        last_register_value(e3.accesses(), (e2.control().parts)(InstructionPart::RD))
            == last_register_value(e1.accesses(), (e0.control().parts)(InstructionPart::RS)),
        last_register_value(e3.accesses(), E::spec_constant(32)) == last_register_value(
            e1.accesses(),
            (e0.control().parts)(InstructionPart::RS),
        ),
{
    lemma_copy_through(
        e0,
        e1,
        e2,
        e3,
        (e0.control().parts)(InstructionPart::RS),
        E::spec_constant(32),
        (e2.control().parts)(InstructionPart::RD),
    );
}

/// `MoveToLo` (from `e0` to `e1`), then steps that do not write `lo` (from `e1`
/// to `e2`), then `MoveFromLo` (from `e2` to `e3`), in an environment whose
/// register reads give back what was last written: `lo` and the last step's
/// `rd` end up holding what the first step's `rs` held.
pub proof fn lemma_move_through_lo<E: InstructionEnvironment>(e0: E, e1: E, e2: E, e3: E)
    requires
        executes::<E>(InstructionSelector::RType(RTypeInstruction::MoveToLo), e0, e1),
        e1.accesses().is_prefix_of(e2.accesses()),
        leaves_register(
            e2.accesses(),
            e1.accesses().len() as int,
            e2.accesses().len() as int,
            E::spec_constant(33),
        ),
        executes::<E>(InstructionSelector::RType(RTypeInstruction::MoveFromLo), e2, e3),
        register_reads_faithful(e3.accesses()),
    ensures
        last_register_value(e1.accesses(), (e0.control().parts)(InstructionPart::RS)) is Some,
        last_register_value(e3.accesses(), (e2.control().parts)(InstructionPart::RD))
            == last_register_value(e1.accesses(), (e0.control().parts)(InstructionPart::RS)),
        last_register_value(e3.accesses(), E::spec_constant(33)) == last_register_value(
            e1.accesses(),
            (e0.control().parts)(InstructionPart::RS),
        ),
{
    lemma_copy_through(
        e0,
        e1,
        e2,
        e3,
        (e0.control().parts)(InstructionPart::RS),
        E::spec_constant(33),
        (e2.control().parts)(InstructionPart::RD),
    );
}

/// A register read right after a write to the same register, in an environment
/// whose register reads give back what was last written: the read gives the
/// value written. The two steps are those of `overwrite_register` and
/// `fetch_register`, as their contracts log them.
pub proof fn lemma_register_read_after_write<E: InstructionEnvironment>(
    e0: E,
    e1: E,
    e2: E,
    index: E::Variable,
    value: E::Variable,
    read: E::Variable,
)
    requires
        exists|old_value: E::Variable, last: E::Variable|
            #![trigger register_write_accesses(index, value, old_value, last, e0.control().row)]
            e1.accesses() == e0.accesses() + register_write_accesses(
                index,
                value,
                old_value,
                last,
                e0.control().row,
            ),
        exists|last: E::Variable|
            #![trigger register_fetch_accesses(index, read, last, e1.control().row)]
            e2.accesses() == e1.accesses() + register_fetch_accesses(
                index,
                read,
                last,
                e1.control().row,
            ),
        register_reads_faithful(e2.accesses()),
    ensures
        read == value,
{
    let (old_value, last) = choose|old_value: E::Variable, last: E::Variable|
        e1.accesses() == e0.accesses() + register_write_accesses(
            index,
            value,
            old_value,
            last,
            e0.control().row,
        );
    let write = register_write_accesses(index, value, old_value, last, e0.control().row);
    assert(last_register_value(e1.accesses(), index) == Some(value)) by {
        reveal_with_fuel(last_register_value, 5);
        lemma_last_register_value_append(e0.accesses(), write, index);
    }
    let k = e1.accesses().len() as int;
    assert(e2.accesses().take(k) =~= e1.accesses());
    assert(e2.accesses()[k] == Access::ReadRegister { index, value: read });
}

// ---------------------------------------------------------------------------
// Halting and branching
// ---------------------------------------------------------------------------

/// The variables compute `1 - x * (1 - 1) = 1` for every `x`, as the elements of
/// a ring do.
pub open spec fn halting_absorbs<E: InstructionEnvironment>() -> bool {
    forall|x: E::Variable|
        #[trigger] E::spec_constant(1).sub_spec(
            x.mul_spec(E::spec_constant(1).sub_spec(E::spec_constant(1))),
        ) == E::spec_constant(1)
}

/// A halted machine stays halted: when the halted flag reads 1 before a step,
/// every value that the step writes to it is 1, and the flag still reads 1 when
/// the step writes none. This holds of variables that compute
/// `1 - x * (1 - 1) = 1`.
pub proof fn lemma_halted_stays_halted<E: InstructionEnvironment>(
    instr: InstructionSelector,
    o: E,
    f: E,
)
    requires
        executes::<E>(instr, o, f),
        o.control().halted == E::spec_constant(1),
        halting_absorbs::<E>(),
    ensures
        o.control().halted_updates.is_prefix_of(f.control().halted_updates),
        forall|k: int|
            o.control().halted_updates.len() <= k < f.control().halted_updates.len()
                ==> #[trigger] f.control().halted_updates[k] == E::spec_constant(1),
        f.control().halted_updates.len() == o.control().halted_updates.len()
            ==> f.control().halted == E::spec_constant(1),
{
    broadcast use {lemma_prefix_of_push};

    let one = E::spec_constant(1);
    let updates = o.control().halted_updates;
    match instr {
        InstructionSelector::RType(RTypeInstruction::JumpRegister) => {},
        InstructionSelector::RType(RTypeInstruction::JumpAndLinkRegister) => {},
        InstructionSelector::RType(RTypeInstruction::DivUnsigned) => {},
        InstructionSelector::RType(RTypeInstruction::Syscall) => {
            assert(f.control().halted_updates == updates.push(one));
        },
        _ => {
            assert(f.control().halted_updates == updates);
            assert(updates.is_prefix_of(updates)) by {
                assert(updates.subrange(0, updates.len() as int) =~= updates);
            }
        },
    }
}

/// The branch condition that a branch step from `o` to `f` logged: the result of
/// its `is_zero` call.
pub open spec fn branch_equal<E: InstructionEnvironment>(o: E, f: E) -> E::Variable {
    f.gadgets()[o.gadgets().len() as int]->is_zero
}

/// The offset that a branch step from `o` to `f` logged: the result of its
/// `sign_extend` call.
pub open spec fn branch_offset<E: InstructionEnvironment>(o: E, f: E) -> E::Variable {
    f.gadgets()[o.gadgets().len() + 1int]->extended
}

/// `BranchEq` and `BranchNeq` taken from the same state, with gadgets that give
/// both steps the same answers: their branch conditions are complementary, one
/// jumping by `equal * offset * 4` past the next instruction and the other by
/// `(1 - equal) * offset * 4`, for the same `equal` and `offset`.
pub proof fn lemma_branches_complementary<E: InstructionEnvironment>(o: E, on_equal: E, on_not_equal: E)
    requires
        executes::<E>(InstructionSelector::IType(ITypeInstruction::BranchEq), o, on_equal),
        executes::<E>(InstructionSelector::IType(ITypeInstruction::BranchNeq), o, on_not_equal),
        on_equal.gadgets() == on_not_equal.gadgets(),
    ensures
        on_equal.control().ip_updates == o.control().ip_updates.push(
            o.control().ip.add_spec(E::spec_constant(4)).add_spec(
                branch_equal(o, on_equal).mul_spec(branch_offset(o, on_equal)).mul_spec(
                    E::spec_constant(4),
                ),
            ),
        ),
        on_not_equal.control().ip_updates == o.control().ip_updates.push(
            o.control().ip.add_spec(E::spec_constant(4)).add_spec(
                E::spec_constant(1).sub_spec(branch_equal(o, on_equal)).mul_spec(
                    branch_offset(o, on_equal),
                ).mul_spec(E::spec_constant(4)),
            ),
        ),
{
    let (a1, l1, b1, m1, e1, i1, off1) = choose|
        a: E::Variable,
        a_last: E::Variable,
        b: E::Variable,
        b_last: E::Variable,
        equal: E::Variable,
        inverse: E::Variable,
        offset: E::Variable,
    | branches::<E>(o, on_equal, true, a, a_last, b, b_last, equal, inverse, offset);
    let (a2, l2, b2, m2, e2, i2, off2) = choose|
        a: E::Variable,
        a_last: E::Variable,
        b: E::Variable,
        b_last: E::Variable,
        equal: E::Variable,
        inverse: E::Variable,
        offset: E::Variable,
    | branches::<E>(o, on_not_equal, false, a, a_last, b, b_last, equal, inverse, offset);
    let n = o.gadgets().len() as int;
    let parts = o.control().parts;
    assert(on_equal.gadgets()[n] == Gadget::EqZeroTerms {
        tested: a1.sub_spec(b1),
        is_zero: e1,
        inverse: i1,
    });
    assert(on_not_equal.gadgets()[n] == Gadget::EqZeroTerms {
        tested: a2.sub_spec(b2),
        is_zero: e2,
        inverse: i2,
    });
    assert(on_equal.gadgets()[n + 1] == Gadget::SignExtend {
        unextended: immediate_of::<E>(parts),
        extended: off1,
    });
    assert(on_not_equal.gadgets()[n + 1] == Gadget::SignExtend {
        unextended: immediate_of::<E>(parts),
        extended: off2,
    });
}

/// Exactly one of `BranchEq` and `BranchNeq`, taken from the same state with
/// gadgets that answer alike, takes the branch. When the `is_zero` result reads
/// as a bit and `value` reads the two targets as numbers, one target is
/// `ip + 4` and the other `ip + 4 + 4 * offset`, so that they sum to
/// `2 * ip + 8 + 4 * offset`.
pub proof fn lemma_exactly_one_branch_taken<E: InstructionEnvironment>(
    o: E,
    on_equal: E,
    on_not_equal: E,
    value: spec_fn(E::Variable) -> int,
)
    requires
        executes::<E>(InstructionSelector::IType(ITypeInstruction::BranchEq), o, on_equal),
        executes::<E>(InstructionSelector::IType(ITypeInstruction::BranchNeq), o, on_not_equal),
        on_equal.gadgets() == on_not_equal.gadgets(),
        value(branch_equal(o, on_equal)) == 0 || value(branch_equal(o, on_equal)) == 1,
        value(
            o.control().ip.add_spec(E::spec_constant(4)).add_spec(
                branch_equal(o, on_equal).mul_spec(branch_offset(o, on_equal)).mul_spec(
                    E::spec_constant(4),
                ),
            ),
        ) == value(o.control().ip) + 4 + value(branch_equal(o, on_equal)) * value(
            branch_offset(o, on_equal),
        ) * 4,
        value(
            o.control().ip.add_spec(E::spec_constant(4)).add_spec(
                E::spec_constant(1).sub_spec(branch_equal(o, on_equal)).mul_spec(
                    branch_offset(o, on_equal),
                ).mul_spec(E::spec_constant(4)),
            ),
        ) == value(o.control().ip) + 4 + (1 - value(branch_equal(o, on_equal))) * value(
            branch_offset(o, on_equal),
        ) * 4,
    ensures
        value(on_equal.control().ip_updates.last()) + value(
            on_not_equal.control().ip_updates.last(),
        ) == 2 * value(o.control().ip) + 8 + 4 * value(branch_offset(o, on_equal)),
        (value(on_equal.control().ip_updates.last()) == value(o.control().ip) + 4 && value(
            on_not_equal.control().ip_updates.last(),
        ) == value(o.control().ip) + 4 + 4 * value(branch_offset(o, on_equal))) || (value(
            on_equal.control().ip_updates.last(),
        ) == value(o.control().ip) + 4 + 4 * value(branch_offset(o, on_equal)) && value(
            on_not_equal.control().ip_updates.last(),
        ) == value(o.control().ip) + 4),
{
    lemma_branches_complementary(o, on_equal, on_not_equal);
    let e = value(branch_equal(o, on_equal));
    let d = value(branch_offset(o, on_equal));
    assert(e * d * 4 + (1 - e) * d * 4 == 4 * d) by (nonlinear_arith);
    assert(e == 0 ==> e * d * 4 == 0 && (1 - e) * d * 4 == 4 * d) by (nonlinear_arith);
    assert(e == 1 ==> e * d * 4 == 4 * d && (1 - e) * d * 4 == 0) by (nonlinear_arith);
}

// ---------------------------------------------------------------------------
// Reading variables as numbers
// ---------------------------------------------------------------------------

// The laws below read variables as numbers through a `value` function, and ask
// of that reading only what the terms of the step need: that it respects the
// sums and products that the step forms. A witness over a prime field larger
// than the numbers involved gives such a reading, by the canonical
// representative of each element.

/// `value` reads `high * 2^16 + low` as the number that the two limbs make.
pub open spec fn reads_join<E: InstructionEnvironment>(
    value: spec_fn(E::Variable) -> int,
    high: E::Variable,
    low: E::Variable,
) -> bool {
    value(join_limbs::<E>(high, low)) == value(high) * 0x1_0000 + value(low)
}

/// The number that little-endian `digits` of the given bit widths stand for.
pub open spec fn digits_number(widths: Seq<u32>, digits: Seq<int>) -> int
    decreases widths.len(),
{
    if widths.len() == 0 || digits.len() == 0 {
        0
    } else {
        digits[0] + pow2(widths[0] as nat) * digits_number(widths.drop_first(), digits.drop_first())
    }
}

/// Under `value`, a `decompose` call answered with the digits of the value that
/// it split: each limb lies below `2^width`, and together they give the value.
pub open spec fn decomposition_sound<E: InstructionEnvironment>(
    value: spec_fn(E::Variable) -> int,
    gadget: Gadget<E::Variable>,
) -> bool {
    match gadget {
        Gadget::Decompose { value: split, widths, limbs } => {
            &&& limbs.len() == widths.len()
            &&& forall|i: int|
                0 <= i < limbs.len() ==> 0 <= #[trigger] value(limbs[i]) < pow2(widths[i] as nat)
            &&& value(split) == digits_number(widths, limbs.map_values(|l: E::Variable| value(l)))
        },
        _ => true,
    }
}

/// `AddUnsigned` writes the low 32 bits of `rs + rt`: when the two registers
/// read hold 32-bit numbers, `value` reads their sum and the joined limbs as
/// numbers, and `decompose` answers soundly, the value written to `rd` is
/// `(rs + rt) mod 2^32`.
pub proof fn lemma_add_unsigned_wraps<E: InstructionEnvironment>(
    o: E,
    f: E,
    value: spec_fn(E::Variable) -> int,
    a: E::Variable,
    a_last: E::Variable,
    b: E::Variable,
    b_last: E::Variable,
    limbs: Seq<E::Variable>,
    old_value: E::Variable,
    write_last: E::Variable,
)
    requires
        adds::<E>(o, f, false, a, a_last, b, b_last, limbs, old_value, write_last),
        value(a.add_spec(b)) == value(a) + value(b),
        reads_join::<E>(value, limbs[1], limbs[0]),
        decomposition_sound::<E>(value, f.gadgets()[o.gadgets().len() as int]),
        0 <= value(a) < 0x1_0000_0000,
        0 <= value(b) < 0x1_0000_0000,
    ensures
        value(join_limbs::<E>(limbs[1], limbs[0])) == (value(a) + value(b)) % 0x1_0000_0000,
{
    lemma2_to64();
    let widths = seq![16u32, 16u32, 1u32];
    let digits = limbs.map_values(|l: E::Variable| value(l));
    assert(f.gadgets()[o.gadgets().len() as int] == Gadget::Decompose {
        value: a.add_spec(b),
        widths,
        limbs,
    });
    let (d0, d1, d2) = (value(limbs[0]), value(limbs[1]), value(limbs[2]));
    assert(0 <= d0 < 0x1_0000 && 0 <= d1 < 0x1_0000 && 0 <= d2 < 2) by {
        assert(0 <= value(limbs[0]) < pow2(widths[0] as nat));
        assert(0 <= value(limbs[1]) < pow2(widths[1] as nat));
        assert(0 <= value(limbs[2]) < pow2(widths[2] as nat));
    }
    assert(digits_number(widths, digits) == d0 + 0x1_0000 * (d1 + 0x1_0000 * d2)) by {
        reveal_with_fuel(digits_number, 4);
        assert(widths.drop_first() =~= seq![16u32, 1u32]);
        assert(widths.drop_first().drop_first() =~= seq![1u32]);
        assert(widths.drop_first().drop_first().drop_first() =~= Seq::<u32>::empty());
    }
    let written = d1 * 0x1_0000 + d0;
    assert(value(join_limbs::<E>(limbs[1], limbs[0])) == written);
    assert(value(a) + value(b) == d2 * 0x1_0000_0000 + written) by (nonlinear_arith)
        requires
            value(a) + value(b) == d0 + 0x1_0000 * (d1 + 0x1_0000 * d2),
            written == d1 * 0x1_0000 + d0,
    ;
    assert(0 <= written < 0x1_0000_0000) by (nonlinear_arith)
        requires
            written == d1 * 0x1_0000 + d0,
            0 <= d0 < 0x1_0000,
            0 <= d1 < 0x1_0000,
    ;
    lemma_fundamental_div_mod_converse(value(a) + value(b), 0x1_0000_0000, d2, written);
}

/// `MultiplyUnsigned` writes the two halves of the 64-bit product: when `value`
/// reads the product and the joined limbs as numbers and `decompose` answers
/// soundly, `hi` gets `(rs * rt) / 2^32` and `lo` gets `(rs * rt) mod 2^32`.
pub proof fn lemma_multiply_unsigned_splits<E: InstructionEnvironment>(
    o: E,
    f: E,
    value: spec_fn(E::Variable) -> int,
    a: E::Variable,
    a_last: E::Variable,
    b: E::Variable,
    b_last: E::Variable,
    limbs: Seq<E::Variable>,
    old_hi: E::Variable,
    hi_last: E::Variable,
    old_lo: E::Variable,
    lo_last: E::Variable,
)
    requires
        multiplies::<E>(o, f, a, a_last, b, b_last, limbs, old_hi, hi_last, old_lo, lo_last),
        value(a.mul_spec(b)) == value(a) * value(b),
        reads_join::<E>(value, limbs[3], limbs[2]),
        reads_join::<E>(value, limbs[1], limbs[0]),
        decomposition_sound::<E>(value, f.gadgets()[o.gadgets().len() as int]),
    ensures
        value(join_limbs::<E>(limbs[3], limbs[2])) == (value(a) * value(b)) / 0x1_0000_0000,
        value(join_limbs::<E>(limbs[1], limbs[0])) == (value(a) * value(b)) % 0x1_0000_0000,
{
    lemma2_to64();
    let widths = seq![16u32, 16u32, 16u32, 16u32];
    let digits = limbs.map_values(|l: E::Variable| value(l));
    assert(f.gadgets()[o.gadgets().len() as int] == Gadget::Decompose {
        value: a.mul_spec(b),
        widths,
        limbs,
    });
    let (d0, d1, d2, d3) = (value(limbs[0]), value(limbs[1]), value(limbs[2]), value(limbs[3]));
    assert(0 <= d0 < 0x1_0000 && 0 <= d1 < 0x1_0000 && 0 <= d2 < 0x1_0000 && 0 <= d3 < 0x1_0000)
        by {
        assert(0 <= value(limbs[0]) < pow2(widths[0] as nat));
        assert(0 <= value(limbs[1]) < pow2(widths[1] as nat));
        assert(0 <= value(limbs[2]) < pow2(widths[2] as nat));
        assert(0 <= value(limbs[3]) < pow2(widths[3] as nat));
    }
    assert(digits_number(widths, digits) == d0 + 0x1_0000 * (d1 + 0x1_0000 * (d2 + 0x1_0000
        * d3))) by {
        reveal_with_fuel(digits_number, 5);
        assert(widths.drop_first() =~= seq![16u32, 16u32, 16u32]);
        assert(widths.drop_first().drop_first() =~= seq![16u32, 16u32]);
        assert(widths.drop_first().drop_first().drop_first() =~= seq![16u32]);
        assert(widths.drop_first().drop_first().drop_first().drop_first() =~= Seq::<u32>::empty());
    }
    let hi = d3 * 0x1_0000 + d2;
    let lo = d1 * 0x1_0000 + d0;
    assert(value(join_limbs::<E>(limbs[3], limbs[2])) == hi);
    assert(value(join_limbs::<E>(limbs[1], limbs[0])) == lo);
    assert(value(a) * value(b) == hi * 0x1_0000_0000 + lo) by (nonlinear_arith)
        requires
            value(a) * value(b) == d0 + 0x1_0000 * (d1 + 0x1_0000 * (d2 + 0x1_0000 * d3)),
            hi == d3 * 0x1_0000 + d2,
            lo == d1 * 0x1_0000 + d0,
    ;
    assert(0 <= lo < 0x1_0000_0000) by (nonlinear_arith)
        requires
            lo == d1 * 0x1_0000 + d0,
            0 <= d0 < 0x1_0000,
            0 <= d1 < 0x1_0000,
    ;
    lemma_fundamental_div_mod_converse(value(a) * value(b), 0x1_0000_0000, hi, lo);
}

/// Under `value`, a `div_rem` call answered soundly: on a zero divisor it
/// raised its flag, and otherwise it gave the quotient and the remainder and
/// left its flag down.
pub open spec fn div_rem_sound<E: InstructionEnvironment>(
    value: spec_fn(E::Variable) -> int,
    gadget: Gadget<E::Variable>,
) -> bool {
    match gadget {
        Gadget::DivRem { numerator, denominator, quotient, remainder, divide_by_zero } => {
            if value(denominator) == 0 {
                value(divide_by_zero) == 1
            } else {
                &&& value(divide_by_zero) == 0
                &&& value(quotient) == value(numerator) / value(denominator)
                &&& value(remainder) == value(numerator) % value(denominator)
            }
        },
        _ => true,
    }
}

/// Two sound 16-bit limbs put together give the value that they split.
proof fn lemma_two_limbs<E: InstructionEnvironment>(
    value: spec_fn(E::Variable) -> int,
    split: E::Variable,
    limbs: Seq<E::Variable>,
)
    requires
        reads_join::<E>(value, limbs[1], limbs[0]),
        limbs.len() == 2,
        decomposition_sound::<E>(
            value,
            Gadget::Decompose { value: split, widths: seq![16u32, 16u32], limbs },
        ),
    ensures
        value(join_limbs::<E>(limbs[1], limbs[0])) == value(split),
{
    lemma2_to64();
    let widths = seq![16u32, 16u32];
    let digits = limbs.map_values(|l: E::Variable| value(l));
    assert(digits_number(widths, digits) == value(limbs[0]) + 0x1_0000 * value(limbs[1])) by {
        reveal_with_fuel(digits_number, 3);
        assert(widths.drop_first() =~= seq![16u32]);
        assert(widths.drop_first().drop_first() =~= Seq::<u32>::empty());
    }
}

/// `DivUnsigned` divides: when `value` reads the joined limbs and the halted
/// value written as numbers, and `div_rem` and `decompose` answer soundly, a
/// nonzero divisor gives `lo = rs / rt` and `hi = rs mod rt` and leaves the
/// halted flag as it was, and a zero divisor sets the flag to 1.
pub proof fn lemma_divide_unsigned<E: InstructionEnvironment>(
    o: E,
    f: E,
    value: spec_fn(E::Variable) -> int,
    a: E::Variable,
    a_last: E::Variable,
    b: E::Variable,
    b_last: E::Variable,
    quotient: E::Variable,
    remainder: E::Variable,
    by_zero: E::Variable,
    quotient_limbs: Seq<E::Variable>,
    remainder_limbs: Seq<E::Variable>,
    old_hi: E::Variable,
    hi_last: E::Variable,
    old_lo: E::Variable,
    lo_last: E::Variable,
)
    requires
        divides::<E>(
            o,
            f,
            a,
            a_last,
            b,
            b_last,
            quotient,
            remainder,
            by_zero,
            quotient_limbs,
            remainder_limbs,
            old_hi,
            hi_last,
            old_lo,
            lo_last,
        ),
        reads_join::<E>(value, quotient_limbs[1], quotient_limbs[0]),
        reads_join::<E>(value, remainder_limbs[1], remainder_limbs[0]),
        value(f.control().halted_updates.last()) == 1 - (1 - value(by_zero)) * (1 - value(
            o.control().halted,
        )),
        div_rem_sound::<E>(value, f.gadgets()[o.gadgets().len() as int]),
        decomposition_sound::<E>(value, f.gadgets()[o.gadgets().len() + 2int]),
        decomposition_sound::<E>(value, f.gadgets()[o.gadgets().len() + 3int]),
    ensures
        value(b) != 0 ==> value(join_limbs::<E>(quotient_limbs[1], quotient_limbs[0])) == value(a)
            / value(b),
        value(b) != 0 ==> value(join_limbs::<E>(remainder_limbs[1], remainder_limbs[0])) == value(
            a,
        ) % value(b),
        value(f.control().halted_updates.last()) == if value(b) == 0 {
            1
        } else {
            value(o.control().halted)
        },
{
    let n = o.gadgets().len() as int;
    assert(f.gadgets()[n] == Gadget::DivRem {
        numerator: a,
        denominator: b,
        quotient,
        remainder,
        divide_by_zero: by_zero,
    });
    assert(f.gadgets()[n + 2] == Gadget::Decompose {
        value: quotient,
        widths: seq![16u32, 16u32],
        limbs: quotient_limbs,
    });
    assert(f.gadgets()[n + 3] == Gadget::Decompose {
        value: remainder,
        widths: seq![16u32, 16u32],
        limbs: remainder_limbs,
    });
    lemma_two_limbs::<E>(value, quotient, quotient_limbs);
    lemma_two_limbs::<E>(value, remainder, remainder_limbs);
    let one = E::spec_constant(1);
    let h = o.control().halted;
    assert(f.control().halted_updates.last() == one.sub_spec(
        one.sub_spec(by_zero).mul_spec(one.sub_spec(h)),
    ));
    let z = value(by_zero);
    let hv = value(h);
    assert(value(f.control().halted_updates.last()) == 1 - (1 - z) * (1 - hv));
    assert(z == 1 ==> 1 - (1 - z) * (1 - hv) == 1) by (nonlinear_arith);
    assert(z == 0 ==> 1 - (1 - z) * (1 - hv) == hv) by (nonlinear_arith);
}

// ---------------------------------------------------------------------------
// Memory as the access log shows it
// ---------------------------------------------------------------------------

/// What the accesses `log` last read from or wrote to `address` with weight 1,
/// if it did at all.
pub open spec fn last_memory_value<E: InstructionEnvironment>(
    log: Seq<Access<E::Variable>>,
    address: E::Variable,
) -> Option<E::Variable>
    decreases log.len(),
{
    if log.len() == 0 {
        None
    } else {
        let earlier = last_memory_value::<E>(log.drop_last(), address);
        match log.last() {
            Access::ReadMemory { address: a, enabled, value } => if a == address && enabled
                == E::spec_constant(1) {
                Some(value)
            } else {
                earlier
            },
            Access::WriteMemory { address: a, enabled, value } => if a == address && enabled
                == E::spec_constant(1) {
                Some(value)
            } else {
                earlier
            },
            _ => earlier,
        }
    }
}

/// Every memory read with weight 1 in `log` gives back what the log last read
/// from or wrote to that address with weight 1 before it, when it did: the log
/// of an environment that runs the program.
pub open spec fn memory_reads_faithful<E: InstructionEnvironment>(log: Seq<Access<E::Variable>>) -> bool {
    forall|k: int|
        #![trigger log[k]]
        0 <= k < log.len() ==> match log[k] {
            Access::ReadMemory { address, enabled, value } => enabled == E::spec_constant(1) ==> match last_memory_value::<E>(log.take(k), address) {
                Some(previous) => previous == value,
                None => true,
            },
            _ => true,
        }
}

/// The memory cell seen through `s + t` is the one seen through `t`, when `t`
/// touches it with weight 1, and the one seen through `s` otherwise.
pub proof fn lemma_last_memory_value_append<E: InstructionEnvironment>(
    s: Seq<Access<E::Variable>>,
    t: Seq<Access<E::Variable>>,
    address: E::Variable,
)
    ensures
        last_memory_value::<E>(s + t, address) == match last_memory_value::<E>(t, address) {
            Some(value) => Some(value),
            None => last_memory_value::<E>(s, address),
        },
    decreases t.len(),
{
    if t.len() == 0 {
        assert(s + t =~= s);
    } else {
        assert((s + t).drop_last() =~= s + t.drop_last());
        lemma_last_memory_value_append::<E>(s, t.drop_last(), address);
    }
}

/// A memory read with weight 1 right after a write with weight 1 to the same
/// address, in an environment whose memory reads give back what was last
/// written: the read gives the value written. The two steps are those of
/// `overwrite_memory` and `fetch_memory`, as their contracts log them.
pub proof fn lemma_memory_read_after_write<E: InstructionEnvironment>(
    e0: E,
    e1: E,
    e2: E,
    address: E::Variable,
    value: E::Variable,
    read: E::Variable,
)
    requires
        exists|old_value: E::Variable, last: E::Variable|
            #![trigger memory_write_accesses(address, E::spec_constant(1), value, old_value, last, e0.control().row)]
            e1.accesses() == e0.accesses() + memory_write_accesses(
                address,
                E::spec_constant(1),
                value,
                old_value,
                last,
                e0.control().row,
            ),
        exists|last: E::Variable|
            #![trigger memory_fetch_accesses(address, E::spec_constant(1), read, last, e1.control().row)]
            e2.accesses() == e1.accesses() + memory_fetch_accesses(
                address,
                E::spec_constant(1),
                read,
                last,
                e1.control().row,
            ),
        memory_reads_faithful::<E>(e2.accesses()),
    ensures
        read == value,
{
    let (old_value, last) = choose|old_value: E::Variable, last: E::Variable|
        e1.accesses() == e0.accesses() + memory_write_accesses(
            address,
            E::spec_constant(1),
            value,
            old_value,
            last,
            e0.control().row,
        );
    let write = memory_write_accesses(
        address,
        E::spec_constant(1),
        value,
        old_value,
        last,
        e0.control().row,
    );
    assert(last_memory_value::<E>(e1.accesses(), address) == Some(value)) by {
        reveal_with_fuel(last_memory_value, 5);
        lemma_last_memory_value_append::<E>(e0.accesses(), write, address);
    }
    let k = e1.accesses().len() as int;
    assert(e2.accesses().take(k) =~= e1.accesses());
    assert(e2.accesses()[k] == Access::ReadMemory {
        address,
        enabled: E::spec_constant(1),
        value: read,
    });
}


/// A read with weight 1 that gave back what `prefix` showed at its address
/// leaves what the log shows of every address as it was.
proof fn lemma_read_keeps_memory<E: InstructionEnvironment>(
    prefix: Seq<Access<E::Variable>>,
    address: E::Variable,
    byte: E::Variable,
    last_write: E::Variable,
    row: E::Variable,
    other: E::Variable,
)
    requires
        last_memory_value::<E>(prefix, address) == Some(byte),
    ensures
        last_memory_value::<E>(
            prefix + checked_byte_accesses::<E>(E::spec_constant(1), row, address, byte, last_write),
            other,
        ) == last_memory_value::<E>(prefix, other),
{
    let read = checked_byte_accesses::<E>(E::spec_constant(1), row, address, byte, last_write);
    assert(last_memory_value::<E>(read, other) == if other == address {
        Some(byte)
    } else {
        None::<E::Variable>
    }) by {
        reveal_with_fuel(last_memory_value, 5);
    }
    lemma_last_memory_value_append::<E>(prefix, read, other);
}

/// Fetching an instruction with weight 1 from an environment whose memory reads
/// give back what was last written reads memory as it was: the word fetched is
/// the big-endian word of the four bytes that the log showed at `ip .. ip + 3`
/// before the fetch.
#[verifier::spinoff_prover]
#[verifier::rlimit(50)]
pub proof fn lemma_fetch_reads_memory<E: InstructionEnvironment>(
    o: E,
    f: E,
    word: E::Variable,
    accessible: E::Variable,
    bytes: Seq<E::Variable>,
    last_writes: Seq<E::Variable>,
    memory: Seq<E::Variable>,
)
    requires
        instruction_fetch::<E>(o, f, word, accessible, bytes, last_writes),
        accessible == E::spec_constant(1),
        memory_reads_faithful::<E>(f.accesses()),
        memory.len() == 4,
        last_memory_value::<E>(o.accesses(), byte_address::<E>(o.control().ip, 0)) == Some(memory[0]),
        last_memory_value::<E>(o.accesses(), byte_address::<E>(o.control().ip, 1)) == Some(memory[1]),
        last_memory_value::<E>(o.accesses(), byte_address::<E>(o.control().ip, 2)) == Some(memory[2]),
        last_memory_value::<E>(o.accesses(), byte_address::<E>(o.control().ip, 3)) == Some(memory[3]),
    ensures
        word == big_endian_word::<E>(memory[0], memory[1], memory[2], memory[3]),
{
    let one = E::spec_constant(1);
    let row = o.control().row;
    let ip = o.control().ip;
    let log = f.accesses();
    let a0 = byte_address::<E>(ip, 0);
    let a1 = byte_address::<E>(ip, 1);
    let a2 = byte_address::<E>(ip, 2);
    let a3 = byte_address::<E>(ip, 3);
    let c0 = checked_byte_accesses::<E>(one, row, a0, bytes[0], last_writes[0]);
    let c1 = checked_byte_accesses::<E>(one, row, a1, bytes[1], last_writes[1]);
    let c2 = checked_byte_accesses::<E>(one, row, a2, bytes[2], last_writes[2]);
    let c3 = checked_byte_accesses::<E>(one, row, a3, bytes[3], last_writes[3]);
    let p0 = o.accesses();
    let p1 = p0 + c0;
    let p2 = p1 + c1;
    let p3 = p2 + c2;
    assert(log == p3 + c3);
    // Byte 0.
    assert(log.take(p0.len() as int) =~= p0);
    assert(log[p0.len() as int] == Access::ReadMemory { address: a0, enabled: one, value: bytes[0] });
    assert(bytes[0] == memory[0]);
    // Byte 1.
    lemma_read_keeps_memory::<E>(p0, a0, bytes[0], last_writes[0], row, a1);
    assert(log.take(p1.len() as int) =~= p1);
    assert(log[p1.len() as int] == Access::ReadMemory { address: a1, enabled: one, value: bytes[1] });
    assert(bytes[1] == memory[1]);
    // Byte 2.
    lemma_read_keeps_memory::<E>(p0, a0, bytes[0], last_writes[0], row, a2);
    lemma_read_keeps_memory::<E>(p1, a1, bytes[1], last_writes[1], row, a2);
    assert(log.take(p2.len() as int) =~= p2);
    assert(log[p2.len() as int] == Access::ReadMemory { address: a2, enabled: one, value: bytes[2] });
    assert(bytes[2] == memory[2]);
    // Byte 3.
    lemma_read_keeps_memory::<E>(p0, a0, bytes[0], last_writes[0], row, a3);
    lemma_read_keeps_memory::<E>(p1, a1, bytes[1], last_writes[1], row, a3);
    lemma_read_keeps_memory::<E>(p2, a2, bytes[2], last_writes[2], row, a3);
    assert(log.take(p3.len() as int) =~= p3);
    assert(log[p3.len() as int] == Access::ReadMemory { address: a3, enabled: one, value: bytes[3] });
    assert(bytes[3] == memory[3]);
}


// ---------------------------------------------------------------------------
// What the steps compute, register by register
// ---------------------------------------------------------------------------
//
// The laws below speak of registers as the access log shows them
// (`last_register_value`), in an environment whose register reads give back
// what was last written: the registers before a step are what the log showed
// before it, and those after are what it shows after.

/// A checked read that starts where `prefix` ends, in a log whose reads give
/// back what was last written, reads what `prefix` showed for the register.
pub proof fn lemma_checked_read_sees<E: InstructionEnvironment>(
    log: Seq<Access<E::Variable>>,
    prefix: Seq<Access<E::Variable>>,
    row: E::Variable,
    index: E::Variable,
    read: E::Variable,
    last: E::Variable,
    held: E::Variable,
)
    requires
        register_reads_faithful(log),
        (prefix + register_read_log::<E>(row, index, read, last)).is_prefix_of(log),
        last_register_value(prefix, index) == Some(held),
    ensures
        read == held,
{
    let k = prefix.len() as int;
    let whole = prefix + register_read_log::<E>(row, index, read, last);
    assert(log.take(k) =~= prefix) by {
        assert forall|i: int| 0 <= i < k implies log.take(k)[i] == prefix[i] by {
            assert(log.subrange(0, whole.len() as int)[i] == whole[i]);
        }
    }
    assert(log[k] == Access::ReadRegister { index, value: read }) by {
        assert(log.subrange(0, whole.len() as int)[k] == whole[k]);
    }
}

/// After a checked read, the log shows the value read for that register and
/// what it showed before for the others.
pub proof fn lemma_after_checked_read<E: InstructionEnvironment>(
    prefix: Seq<Access<E::Variable>>,
    row: E::Variable,
    index: E::Variable,
    read: E::Variable,
    last: E::Variable,
    other: E::Variable,
)
    ensures
        last_register_value(prefix + register_read_log::<E>(row, index, read, last), other) == if other
            == index {
            Some(read)
        } else {
            last_register_value(prefix, other)
        },
{
    lemma_read_log_value::<E>(row, index, read, last, other);
    lemma_last_register_value_append(prefix, register_read_log::<E>(row, index, read, last), other);
}

/// Two checked reads of `first` then `second` at the start of the accesses after
/// `prefix`, in a log whose reads give back what was last written, read what
/// `prefix` showed for the two registers.
pub proof fn lemma_checked_reads_see<E: InstructionEnvironment>(
    log: Seq<Access<E::Variable>>,
    prefix: Seq<Access<E::Variable>>,
    row: E::Variable,
    first: E::Variable,
    a: E::Variable,
    a_last: E::Variable,
    second: E::Variable,
    b: E::Variable,
    b_last: E::Variable,
    x: E::Variable,
    y: E::Variable,
)
    requires
        register_reads_faithful(log),
        (prefix + register_read_log::<E>(row, first, a, a_last) + register_read_log::<E>(
            row,
            second,
            b,
            b_last,
        )).is_prefix_of(log),
        last_register_value(prefix, first) == Some(x),
        last_register_value(prefix, second) == Some(y),
    ensures
        a == x,
        b == y,
{
    broadcast use {lemma_prefix_of_extension, lemma_prefix_transitive};

    let p1 = prefix + register_read_log::<E>(row, first, a, a_last);
    lemma_checked_read_sees::<E>(log, prefix, row, first, a, a_last, x);
    lemma_after_checked_read::<E>(prefix, row, first, a, a_last, second);
    lemma_checked_read_sees::<E>(log, p1, row, second, b, b_last, y);
}

/// After the writes `tail`, which end with a checked write of `value` to
/// register `index`, the log shows `value` for that register.
pub proof fn lemma_written_last<E: InstructionEnvironment>(
    prefix: Seq<Access<E::Variable>>,
    row: E::Variable,
    index: E::Variable,
    value: E::Variable,
    old_value: E::Variable,
    last: E::Variable,
)
    ensures
        last_register_value(
            prefix + register_write_log::<E>(row, index, value, old_value, last),
            index,
        ) == Some(value),
{
    lemma_write_log_value::<E>(row, index, value, old_value, last, index);
    lemma_last_register_value_append(
        prefix,
        register_write_log::<E>(row, index, value, old_value, last),
        index,
    );
}

/// After a checked write to register `index`, the log shows for any other
/// register what it showed before.
pub proof fn lemma_write_leaves_others<E: InstructionEnvironment>(
    prefix: Seq<Access<E::Variable>>,
    row: E::Variable,
    index: E::Variable,
    value: E::Variable,
    old_value: E::Variable,
    last: E::Variable,
    other: E::Variable,
)
    requires
        other != index,
    ensures
        last_register_value(
            prefix + register_write_log::<E>(row, index, value, old_value, last),
            other,
        ) == last_register_value(prefix, other),
{
    lemma_write_log_value::<E>(row, index, value, old_value, last, other);
    lemma_last_register_value_append(
        prefix,
        register_write_log::<E>(row, index, value, old_value, last),
        other,
    );
}

/// Under `value`, the limbs of a `decompose` call read as numbers when joined
/// in pairs: `value(high * 2^16 + low) == value(high) * 2^16 + value(low)`.
pub open spec fn limb_joins_read<E: InstructionEnvironment>(
    value: spec_fn(E::Variable) -> int,
    gadget: Gadget<E::Variable>,
) -> bool {
    match gadget {
        Gadget::Decompose { limbs, .. } => forall|i: int, j: int|
            0 <= i < limbs.len() && 0 <= j < limbs.len() ==> #[trigger] reads_join::<E>(
                value,
                limbs[i],
                limbs[j],
            ),
        _ => true,
    }
}

/// `DivUnsigned` on registers: with reads that give back what was last
/// written, `rs` holding `x` and `rt` holding `y` before the step, and `div_rem`
/// and `decompose` answering soundly, a nonzero `y` leaves `lo` (register 33)
/// holding a value that reads as `x / y` and `hi` (register 32) one that reads
/// as `x mod y`; and the halted flag is set to 1 exactly when `y` is 0 or the
/// machine had halted.
#[verifier::spinoff_prover]
pub proof fn lemma_divu_registers<E: InstructionEnvironment>(
    o: E,
    f: E,
    value: spec_fn(E::Variable) -> int,
    x: E::Variable,
    y: E::Variable,
)
    requires
        executes::<E>(InstructionSelector::RType(RTypeInstruction::DivUnsigned), o, f),
        register_reads_faithful(f.accesses()),
        last_register_value(o.accesses(), (o.control().parts)(InstructionPart::RS)) == Some(x),
        last_register_value(o.accesses(), (o.control().parts)(InstructionPart::RT)) == Some(y),
        E::spec_constant(32) != E::spec_constant(33),
        div_rem_sound::<E>(value, f.gadgets()[o.gadgets().len() as int]),
        decomposition_sound::<E>(value, f.gadgets()[o.gadgets().len() + 2int]),
        decomposition_sound::<E>(value, f.gadgets()[o.gadgets().len() + 3int]),
        limb_joins_read::<E>(value, f.gadgets()[o.gadgets().len() + 2int]),
        limb_joins_read::<E>(value, f.gadgets()[o.gadgets().len() + 3int]),
        value(
            E::spec_constant(1).sub_spec(
                E::spec_constant(1).sub_spec(
                    f.gadgets()[o.gadgets().len() as int]->divide_by_zero,
                ).mul_spec(E::spec_constant(1).sub_spec(o.control().halted)),
            ),
        ) == 1 - (1 - value(f.gadgets()[o.gadgets().len() as int]->divide_by_zero)) * (1
            - value(o.control().halted)),
    ensures
        last_register_value(f.accesses(), E::spec_constant(33)) is Some,
        last_register_value(f.accesses(), E::spec_constant(32)) is Some,
        value(y) != 0 ==> value(last_register_value(f.accesses(), E::spec_constant(33))->0)
            == value(x) / value(y),
        value(y) != 0 ==> value(last_register_value(f.accesses(), E::spec_constant(32))->0)
            == value(x) % value(y),
        value(f.control().halted_updates.last()) == if value(y) == 0 {
            1
        } else {
            value(o.control().halted)
        },
{
    let (a, a_last, b, b_last, q, r, z, ql, rl, oh, hl, ol, ll) = choose|
        a: E::Variable,
        a_last: E::Variable,
        b: E::Variable,
        b_last: E::Variable,
        q: E::Variable,
        r: E::Variable,
        z: E::Variable,
        ql: Seq<E::Variable>,
        rl: Seq<E::Variable>,
        oh: E::Variable,
        hl: E::Variable,
        ol: E::Variable,
        ll: E::Variable,
    | divides::<E>(o, f, a, a_last, b, b_last, q, r, z, ql, rl, oh, hl, ol, ll);
    let row = o.control().row;
    let parts = o.control().parts;
    let hi_index = E::spec_constant(32);
    let lo_index = E::spec_constant(33);
    let hi = join_limbs::<E>(rl[1], rl[0]);
    let lo = join_limbs::<E>(ql[1], ql[0]);
    let counts = seq![
        Access::CountRangeCheck { value: ql[0] },
        Access::CountRangeCheck { value: ql[1] },
        Access::CountRangeCheck { value: rl[0] },
        Access::CountRangeCheck { value: rl[1] },
    ];
    let reads = o.accesses() + register_read_log::<E>(row, parts(InstructionPart::RS), a, a_last)
        + register_read_log::<E>(row, parts(InstructionPart::RT), b, b_last);
    let before_hi = reads + counts;
    let before_lo = before_hi + register_write_log::<E>(row, hi_index, hi, oh, hl);
    assert(f.accesses() =~= before_lo + register_write_log::<E>(row, lo_index, lo, ol, ll));
    assert(reads.is_prefix_of(f.accesses())) by {
        assert(f.accesses().subrange(0, reads.len() as int) =~= reads);
    }
    lemma_checked_reads_see::<E>(
        f.accesses(),
        o.accesses(),
        row,
        parts(InstructionPart::RS),
        a,
        a_last,
        parts(InstructionPart::RT),
        b,
        b_last,
        x,
        y,
    );
    // What the two writes leave in `lo` and `hi`.
    lemma_written_last::<E>(before_lo, row, lo_index, lo, ol, ll);
    lemma_written_last::<E>(before_hi, row, hi_index, hi, oh, hl);
    lemma_write_leaves_others::<E>(before_lo, row, lo_index, lo, ol, ll, hi_index);
    // What those values read as.
    let n = o.gadgets().len() as int;
    assert(f.gadgets()[n] == Gadget::DivRem {
        numerator: a,
        denominator: b,
        quotient: q,
        remainder: r,
        divide_by_zero: z,
    });
    assert(f.gadgets()[n + 2] == Gadget::Decompose {
        value: q,
        widths: seq![16u32, 16u32],
        limbs: ql,
    });
    assert(f.gadgets()[n + 3] == Gadget::Decompose {
        value: r,
        widths: seq![16u32, 16u32],
        limbs: rl,
    });
    assert(reads_join::<E>(value, ql[1], ql[0]));
    assert(reads_join::<E>(value, rl[1], rl[0]));
    lemma_two_limbs::<E>(value, q, ql);
    lemma_two_limbs::<E>(value, r, rl);
    let one = E::spec_constant(1);
    let h = o.control().halted;
    let zv = value(z);
    let hv = value(h);
    assert(zv == 1 ==> 1 - (1 - zv) * (1 - hv) == 1) by (nonlinear_arith);
    assert(zv == 0 ==> 1 - (1 - zv) * (1 - hv) == hv) by (nonlinear_arith);
}


/// `MultiplyUnsigned` on registers: with reads that give back what was last
/// written, `rs` holding `x` and `rt` holding `y` before the step, `value`
/// reading their product as the product of their readings, and `decompose`
/// answering soundly, `hi` (register 32) ends up holding a value that reads as
/// `(x * y) / 2^32` and `lo` (register 33) one that reads as `(x * y) mod 2^32`.
#[verifier::spinoff_prover]
pub proof fn lemma_multu_registers<E: InstructionEnvironment>(
    o: E,
    f: E,
    value: spec_fn(E::Variable) -> int,
    x: E::Variable,
    y: E::Variable,
)
    requires
        executes::<E>(InstructionSelector::RType(RTypeInstruction::MultiplyUnsigned), o, f),
        register_reads_faithful(f.accesses()),
        last_register_value(o.accesses(), (o.control().parts)(InstructionPart::RS)) == Some(x),
        last_register_value(o.accesses(), (o.control().parts)(InstructionPart::RT)) == Some(y),
        E::spec_constant(32) != E::spec_constant(33),
        value(x.mul_spec(y)) == value(x) * value(y),
        decomposition_sound::<E>(value, f.gadgets()[o.gadgets().len() as int]),
        limb_joins_read::<E>(value, f.gadgets()[o.gadgets().len() as int]),
    ensures
        last_register_value(f.accesses(), E::spec_constant(32)) is Some,
        last_register_value(f.accesses(), E::spec_constant(33)) is Some,
        value(last_register_value(f.accesses(), E::spec_constant(32))->0) == (value(x) * value(y))
            / 0x1_0000_0000,
        value(last_register_value(f.accesses(), E::spec_constant(33))->0) == (value(x) * value(y))
            % 0x1_0000_0000,
{
    let (a, a_last, b, b_last, limbs, oh, hl, ol, ll) = choose|
        a: E::Variable,
        a_last: E::Variable,
        b: E::Variable,
        b_last: E::Variable,
        limbs: Seq<E::Variable>,
        oh: E::Variable,
        hl: E::Variable,
        ol: E::Variable,
        ll: E::Variable,
    | multiplies::<E>(o, f, a, a_last, b, b_last, limbs, oh, hl, ol, ll);
    let row = o.control().row;
    let parts = o.control().parts;
    let hi_index = E::spec_constant(32);
    let lo_index = E::spec_constant(33);
    let hi_written = join_limbs::<E>(limbs[3], limbs[2]);
    let lo_written = join_limbs::<E>(limbs[1], limbs[0]);
    let counts = seq![
        Access::CountRangeCheck { value: limbs[0] },
        Access::CountRangeCheck { value: limbs[1] },
        Access::CountRangeCheck { value: limbs[2] },
        Access::CountRangeCheck { value: limbs[3] },
    ];
    let reads = o.accesses() + register_read_log::<E>(row, parts(InstructionPart::RS), a, a_last)
        + register_read_log::<E>(row, parts(InstructionPart::RT), b, b_last);
    let before_hi = reads + counts;
    let before_lo = before_hi + register_write_log::<E>(row, hi_index, hi_written, oh, hl);
    assert(f.accesses() =~= before_lo + register_write_log::<E>(row, lo_index, lo_written, ol, ll));
    assert(reads.is_prefix_of(f.accesses())) by {
        assert(f.accesses().subrange(0, reads.len() as int) =~= reads);
    }
    lemma_checked_reads_see::<E>(
        f.accesses(),
        o.accesses(),
        row,
        parts(InstructionPart::RS),
        a,
        a_last,
        parts(InstructionPart::RT),
        b,
        b_last,
        x,
        y,
    );
    lemma_written_last::<E>(before_lo, row, lo_index, lo_written, ol, ll);
    lemma_written_last::<E>(before_hi, row, hi_index, hi_written, oh, hl);
    lemma_write_leaves_others::<E>(before_lo, row, lo_index, lo_written, ol, ll, hi_index);
    let n = o.gadgets().len() as int;
    assert(f.gadgets()[n] == Gadget::Decompose {
        value: a.mul_spec(b),
        widths: seq![16u32, 16u32, 16u32, 16u32],
        limbs,
    });
    assert(reads_join::<E>(value, limbs[3], limbs[2]));
    assert(reads_join::<E>(value, limbs[1], limbs[0]));
    lemma_multiply_unsigned_splits::<E>(o, f, value, a, a_last, b, b_last, limbs, oh, hl, ol, ll);
}


/// The low two limbs of a sound 16, 16, 1-bit split, joined, read as a 32-bit
/// number that agrees with the split value modulo 2^32.
proof fn lemma_low_word<E: InstructionEnvironment>(
    value: spec_fn(E::Variable) -> int,
    split: E::Variable,
    limbs: Seq<E::Variable>,
)
    requires
        limbs.len() == 3,
        decomposition_sound::<E>(
            value,
            Gadget::Decompose { value: split, widths: seq![16u32, 16u32, 1u32], limbs },
        ),
        reads_join::<E>(value, limbs[1], limbs[0]),
    ensures
        0 <= value(join_limbs::<E>(limbs[1], limbs[0])) < 0x1_0000_0000,
        value(split) == value(join_limbs::<E>(limbs[1], limbs[0])) + 0x1_0000_0000 * value(
            limbs[2],
        ),
{
    lemma2_to64();
    let widths = seq![16u32, 16u32, 1u32];
    let digits = limbs.map_values(|l: E::Variable| value(l));
    let (d0, d1, d2) = (value(limbs[0]), value(limbs[1]), value(limbs[2]));
    assert(0 <= d0 < 0x1_0000 && 0 <= d1 < 0x1_0000) by {
        assert(0 <= value(limbs[0]) < pow2(widths[0] as nat));
        assert(0 <= value(limbs[1]) < pow2(widths[1] as nat));
    }
    assert(digits_number(widths, digits) == d0 + 0x1_0000 * (d1 + 0x1_0000 * d2)) by {
        reveal_with_fuel(digits_number, 4);
        assert(widths.drop_first() =~= seq![16u32, 1u32]);
        assert(widths.drop_first().drop_first() =~= seq![1u32]);
        assert(widths.drop_first().drop_first().drop_first() =~= Seq::<u32>::empty());
    }
    let w = d1 * 0x1_0000 + d0;
    assert(value(split) == w + 0x1_0000_0000 * d2) by (nonlinear_arith)
        requires
            value(split) == d0 + 0x1_0000 * (d1 + 0x1_0000 * d2),
            w == d1 * 0x1_0000 + d0,
    ;
    assert(0 <= w < 0x1_0000_0000) by (nonlinear_arith)
        requires
            w == d1 * 0x1_0000 + d0,
            0 <= d0 < 0x1_0000,
            0 <= d1 < 0x1_0000,
    ;
}

/// A number in `[0, m)` that differs from `s` by a multiple of `m`, where `s`
/// agrees with `t` modulo `m`, is `t mod m`.
proof fn lemma_same_residue(s: int, t: int, w: int, k: int, m: int)
    requires
        m > 0,
        0 <= w < m,
        s == w + m * k,
        (s - t) % m == 0,
    ensures
        w == t % m,
{
    broadcast use vstd::arithmetic::div_mod::lemma_fundamental_div_mod;

    let j = (s - t) / m;
    assert(s - t == m * j + (s - t) % m);
    assert(t == w + m * (k - j)) by (nonlinear_arith)
        requires
            s == w + m * k,
            s - t == m * j,
    ;
    assert(t == (k - j) * m + w) by (nonlinear_arith)
        requires
            t == w + m * (k - j),
    ;
    lemma_fundamental_div_mod_converse(t, m, k - j, w);
}

/// The register effect of an `AddUnsigned` or `SubUnsigned` step, from the
/// step's own description.
#[verifier::spinoff_prover]
proof fn lemma_adds_registers<E: InstructionEnvironment>(
    o: E,
    f: E,
    subtract: bool,
    value: spec_fn(E::Variable) -> int,
    x: E::Variable,
    y: E::Variable,
)
    requires
        exists|
            a: E::Variable,
            a_last: E::Variable,
            b: E::Variable,
            b_last: E::Variable,
            limbs: Seq<E::Variable>,
            old_value: E::Variable,
            write_last: E::Variable,
        |
            #![trigger adds::<E>(o, f, subtract, a, a_last, b, b_last, limbs, old_value, write_last)]
            adds::<E>(o, f, subtract, a, a_last, b, b_last, limbs, old_value, write_last),
        register_reads_faithful(f.accesses()),
        last_register_value(o.accesses(), (o.control().parts)(InstructionPart::RS)) == Some(x),
        last_register_value(o.accesses(), (o.control().parts)(InstructionPart::RT)) == Some(y),
        subtract ==> (value(x.sub_spec(y)) - (value(x) - value(y))) % 0x1_0000_0000 == 0,
        !subtract ==> (value(x.add_spec(y)) - (value(x) + value(y))) % 0x1_0000_0000 == 0,
        decomposition_sound::<E>(value, f.gadgets()[o.gadgets().len() as int]),
        limb_joins_read::<E>(value, f.gadgets()[o.gadgets().len() as int]),
    ensures
        last_register_value(f.accesses(), (o.control().parts)(InstructionPart::RD)) is Some,
        value(last_register_value(f.accesses(), (o.control().parts)(InstructionPart::RD))->0) == (
        if subtract {
            value(x) - value(y)
        } else {
            value(x) + value(y)
        }) % 0x1_0000_0000,
{
    let (a, a_last, b, b_last, limbs, old_value, write_last) = choose|
        a: E::Variable,
        a_last: E::Variable,
        b: E::Variable,
        b_last: E::Variable,
        limbs: Seq<E::Variable>,
        old_value: E::Variable,
        write_last: E::Variable,
    | adds::<E>(o, f, subtract, a, a_last, b, b_last, limbs, old_value, write_last);
    let row = o.control().row;
    let parts = o.control().parts;
    let rd = parts(InstructionPart::RD);
    let word = join_limbs::<E>(limbs[1], limbs[0]);
    let counts = seq![
        Access::CountRangeCheck { value: limbs[0] },
        Access::CountRangeCheck { value: limbs[1] },
    ];
    let reads = o.accesses() + register_read_log::<E>(row, parts(InstructionPart::RS), a, a_last)
        + register_read_log::<E>(row, parts(InstructionPart::RT), b, b_last);
    let before = reads + counts;
    assert(f.accesses() =~= before + register_write_log::<E>(row, rd, word, old_value, write_last));
    assert(reads.is_prefix_of(f.accesses())) by {
        assert(f.accesses().subrange(0, reads.len() as int) =~= reads);
    }
    lemma_checked_reads_see::<E>(
        f.accesses(),
        o.accesses(),
        row,
        parts(InstructionPart::RS),
        a,
        a_last,
        parts(InstructionPart::RT),
        b,
        b_last,
        x,
        y,
    );
    lemma_written_last::<E>(before, row, rd, word, old_value, write_last);
    let combined = if subtract {
        a.sub_spec(b)
    } else {
        a.add_spec(b)
    };
    let n = o.gadgets().len() as int;
    assert(f.gadgets()[n] == Gadget::Decompose {
        value: combined,
        widths: seq![16u32, 16u32, 1u32],
        limbs,
    });
    assert(reads_join::<E>(value, limbs[1], limbs[0]));
    lemma_low_word::<E>(value, combined, limbs);
    let target = if subtract {
        value(x) - value(y)
    } else {
        value(x) + value(y)
    };
    lemma_same_residue(value(combined), target, value(word), value(limbs[2]), 0x1_0000_0000);
}


/// `AddUnsigned` on registers: with reads that give back what was last written,
/// `rs` holding `x` and `rt` holding `y` before the step, `value` reading
/// `x + y` as the sum of their readings modulo 2^32, and `decompose` answering
/// soundly, `rd` ends up holding a value that reads as `(x + y) mod 2^32`.
pub proof fn lemma_addu_registers<E: InstructionEnvironment>(
    o: E,
    f: E,
    value: spec_fn(E::Variable) -> int,
    x: E::Variable,
    y: E::Variable,
)
    requires
        executes::<E>(InstructionSelector::RType(RTypeInstruction::AddUnsigned), o, f),
        register_reads_faithful(f.accesses()),
        last_register_value(o.accesses(), (o.control().parts)(InstructionPart::RS)) == Some(x),
        last_register_value(o.accesses(), (o.control().parts)(InstructionPart::RT)) == Some(y),
        (value(x.add_spec(y)) - (value(x) + value(y))) % 0x1_0000_0000 == 0,
        decomposition_sound::<E>(value, f.gadgets()[o.gadgets().len() as int]),
        limb_joins_read::<E>(value, f.gadgets()[o.gadgets().len() as int]),
    ensures
        last_register_value(f.accesses(), (o.control().parts)(InstructionPart::RD)) is Some,
        value(last_register_value(f.accesses(), (o.control().parts)(InstructionPart::RD))->0) == (
        value(x) + value(y)) % 0x1_0000_0000,
{
    lemma_adds_registers(o, f, false, value, x, y);
}

/// `SubUnsigned` on registers: with reads that give back what was last written,
/// `rs` holding `x` and `rt` holding `y` before the step, `value` reading
/// `x - y` as the difference of their readings modulo 2^32, and `decompose`
/// answering soundly, `rd` ends up holding a value that reads as
/// `(x - y) mod 2^32`, the 32-bit wrapping difference.
pub proof fn lemma_subu_registers<E: InstructionEnvironment>(
    o: E,
    f: E,
    value: spec_fn(E::Variable) -> int,
    x: E::Variable,
    y: E::Variable,
)
    requires
        executes::<E>(InstructionSelector::RType(RTypeInstruction::SubUnsigned), o, f),
        register_reads_faithful(f.accesses()),
        last_register_value(o.accesses(), (o.control().parts)(InstructionPart::RS)) == Some(x),
        last_register_value(o.accesses(), (o.control().parts)(InstructionPart::RT)) == Some(y),
        (value(x.sub_spec(y)) - (value(x) - value(y))) % 0x1_0000_0000 == 0,
        decomposition_sound::<E>(value, f.gadgets()[o.gadgets().len() as int]),
        limb_joins_read::<E>(value, f.gadgets()[o.gadgets().len() as int]),
    ensures
        last_register_value(f.accesses(), (o.control().parts)(InstructionPart::RD)) is Some,
        value(last_register_value(f.accesses(), (o.control().parts)(InstructionPart::RD))->0) == (
        value(x) - value(y)) % 0x1_0000_0000,
{
    lemma_adds_registers(o, f, true, value, x, y);
}


/// The 16-bit number `v` read as a signed number.
pub open spec fn signed_16(v: int) -> int {
    if v >= 0x8000 {
        v - 0x1_0000
    } else {
        v
    }
}

/// Under `value`, a `sign_extend` call answered soundly: a 16-bit argument
/// comes back as the signed number that it stands for.
pub open spec fn sign_extend_sound<E: InstructionEnvironment>(
    value: spec_fn(E::Variable) -> int,
    gadget: Gadget<E::Variable>,
) -> bool {
    match gadget {
        Gadget::SignExtend { unextended, extended } => 0 <= value(unextended) < 0x1_0000
            ==> value(extended) == signed_16(value(unextended)),
        _ => true,
    }
}

/// Under `value`, an `eq_zero_terms` call answered soundly: 1 on zero and 0
/// otherwise.
pub open spec fn eq_zero_sound<E: InstructionEnvironment>(
    value: spec_fn(E::Variable) -> int,
    gadget: Gadget<E::Variable>,
) -> bool {
    match gadget {
        Gadget::EqZeroTerms { tested, is_zero, .. } => value(is_zero) == if value(tested) == 0 {
            1int
        } else {
            0int
        },
        _ => true,
    }
}

/// Under `value`, the instruction parts read as the bit fields of an
/// instruction word, and `rd * 2^11 + shamt * 2^6 + funct` as the 16-bit
/// immediate that they make.
pub open spec fn parts_read<E: InstructionEnvironment>(
    value: spec_fn(E::Variable) -> int,
    parts: spec_fn(InstructionPart) -> E::Variable,
) -> bool {
    &&& 0 <= value(parts(InstructionPart::RD)) < 32
    &&& 0 <= value(parts(InstructionPart::Shamt)) < 32
    &&& 0 <= value(parts(InstructionPart::Funct)) < 64
    &&& value(
        parts(InstructionPart::RD).mul_spec(E::spec_constant(0x800)).add_spec(
            parts(InstructionPart::Shamt).mul_spec(E::spec_constant(0x40)),
        ).add_spec(parts(InstructionPart::Funct)),
    ) == immediate_number::<E>(value, parts)
}

/// The 16-bit immediate that the parts read as: `rd * 2^11 + shamt * 2^6 + funct`.
pub open spec fn immediate_number<E: InstructionEnvironment>(
    value: spec_fn(E::Variable) -> int,
    parts: spec_fn(InstructionPart) -> E::Variable,
) -> int {
    value(parts(InstructionPart::RD)) * 0x800 + value(parts(InstructionPart::Shamt)) * 0x40 + value(
        parts(InstructionPart::Funct),
    )
}

/// The immediate of instruction parts that read as bit fields is a 16-bit
/// number.
proof fn lemma_immediate_is_16_bits<E: InstructionEnvironment>(
    value: spec_fn(E::Variable) -> int,
    parts: spec_fn(InstructionPart) -> E::Variable,
)
    requires
        parts_read::<E>(value, parts),
    ensures
        0 <= immediate_number::<E>(value, parts) < 0x1_0000,
{
    let rd = value(parts(InstructionPart::RD));
    let shamt = value(parts(InstructionPart::Shamt));
    let funct = value(parts(InstructionPart::Funct));
    assert(0 <= rd * 0x800 + shamt * 0x40 + funct < 0x1_0000) by (nonlinear_arith)
        requires
            0 <= rd < 32,
            0 <= shamt < 32,
            0 <= funct < 64,
    ;
}

/// The facts that the branch laws share: the registers read, the branch
/// condition and the offset, as a branch step from `o` to `f` found them.
#[verifier::spinoff_prover]
proof fn lemma_branch_reads<E: InstructionEnvironment>(
    o: E,
    f: E,
    on_equal: bool,
    value: spec_fn(E::Variable) -> int,
    x: E::Variable,
    y: E::Variable,
)
    requires
        exists|
            a: E::Variable,
            a_last: E::Variable,
            b: E::Variable,
            b_last: E::Variable,
            equal: E::Variable,
            inverse: E::Variable,
            offset: E::Variable,
        |
            #![trigger branches::<E>(o, f, on_equal, a, a_last, b, b_last, equal, inverse, offset)]
            branches::<E>(o, f, on_equal, a, a_last, b, b_last, equal, inverse, offset),
        register_reads_faithful(f.accesses()),
        last_register_value(o.accesses(), (o.control().parts)(InstructionPart::RS)) == Some(x),
        last_register_value(o.accesses(), (o.control().parts)(InstructionPart::RT)) == Some(y),
        value(x.sub_spec(y)) == 0 <==> value(x) == value(y),
        eq_zero_sound::<E>(value, f.gadgets()[o.gadgets().len() as int]),
        sign_extend_sound::<E>(value, f.gadgets()[o.gadgets().len() + 1int]),
        parts_read::<E>(value, o.control().parts),
    ensures
        value(branch_equal(o, f)) == if value(x) == value(y) {
            1int
        } else {
            0int
        },
        value(branch_offset(o, f)) == signed_16(immediate_number::<E>(value, o.control().parts)),
        f.control().ip_updates == o.control().ip_updates.push(
            o.control().ip.add_spec(E::spec_constant(4)).add_spec(
                (if on_equal {
                    branch_equal(o, f)
                } else {
                    E::spec_constant(1).sub_spec(branch_equal(o, f))
                }).mul_spec(branch_offset(o, f)).mul_spec(E::spec_constant(4)),
            ),
        ),
{
    let (a, a_last, b, b_last, equal, inverse, offset) = choose|
        a: E::Variable,
        a_last: E::Variable,
        b: E::Variable,
        b_last: E::Variable,
        equal: E::Variable,
        inverse: E::Variable,
        offset: E::Variable,
    | branches::<E>(o, f, on_equal, a, a_last, b, b_last, equal, inverse, offset);
    let row = o.control().row;
    let parts = o.control().parts;
    let reads = o.accesses() + register_read_log::<E>(row, parts(InstructionPart::RS), a, a_last)
        + register_read_log::<E>(row, parts(InstructionPart::RT), b, b_last);
    assert(f.accesses() =~= reads);
    assert(reads.is_prefix_of(f.accesses())) by {
        assert(f.accesses().subrange(0, reads.len() as int) =~= reads);
    }
    lemma_checked_reads_see::<E>(
        f.accesses(),
        o.accesses(),
        row,
        parts(InstructionPart::RS),
        a,
        a_last,
        parts(InstructionPart::RT),
        b,
        b_last,
        x,
        y,
    );
    let n = o.gadgets().len() as int;
    assert(f.gadgets()[n] == Gadget::EqZeroTerms { tested: a.sub_spec(b), is_zero: equal, inverse });
    assert(f.gadgets()[n + 1] == Gadget::SignExtend {
        unextended: immediate_of::<E>(parts),
        extended: offset,
    });
    lemma_immediate_is_16_bits::<E>(value, parts);
}

/// A taken branch of `BranchEq` or `BranchNeq` from `o` to `f` reads as moving
/// by `4 * sign_extended(immediate)` past the next instruction, and an untaken
/// one as moving to the next instruction, when `value` reads the new
/// instruction pointer term as the numbers that it is made of.
pub open spec fn branch_target_read<E: InstructionEnvironment>(
    o: E,
    f: E,
    on_equal: bool,
    value: spec_fn(E::Variable) -> int,
) -> bool {
    let condition = if on_equal {
        branch_equal(o, f)
    } else {
        E::spec_constant(1).sub_spec(branch_equal(o, f))
    };
    value(
        o.control().ip.add_spec(E::spec_constant(4)).add_spec(
            condition.mul_spec(branch_offset(o, f)).mul_spec(E::spec_constant(4)),
        ),
    ) == value(o.control().ip) + 4 + value(condition) * value(branch_offset(o, f)) * 4
}

/// `BranchEq` on registers: with reads that give back what was last written,
/// `rs` holding `x` and `rt` holding `y` before the step, `eq_zero_terms` and
/// `sign_extend` answering soundly, and `value` reading the instruction parts,
/// `x - y` and the new instruction pointer term as numbers, the step moves to
/// `ip + 4 + 4 * signed(immediate)` when `x` and `y` are equal and to `ip + 4`
/// otherwise, where `immediate = rd * 2^11 + shamt * 2^6 + funct`.
pub proof fn lemma_beq_target<E: InstructionEnvironment>(
    o: E,
    f: E,
    value: spec_fn(E::Variable) -> int,
    x: E::Variable,
    y: E::Variable,
)
    requires
        executes::<E>(InstructionSelector::IType(ITypeInstruction::BranchEq), o, f),
        register_reads_faithful(f.accesses()),
        last_register_value(o.accesses(), (o.control().parts)(InstructionPart::RS)) == Some(x),
        last_register_value(o.accesses(), (o.control().parts)(InstructionPart::RT)) == Some(y),
        value(x.sub_spec(y)) == 0 <==> value(x) == value(y),
        eq_zero_sound::<E>(value, f.gadgets()[o.gadgets().len() as int]),
        sign_extend_sound::<E>(value, f.gadgets()[o.gadgets().len() + 1int]),
        parts_read::<E>(value, o.control().parts),
        branch_target_read::<E>(o, f, true, value),
    ensures
        value(f.control().ip_updates.last()) == value(o.control().ip) + 4 + if value(x) == value(
            y,
        ) {
            4 * signed_16(immediate_number::<E>(value, o.control().parts))
        } else {
            0
        },
{
    lemma_branch_reads::<E>(o, f, true, value, x, y);
    let e = value(branch_equal(o, f));
    let d = value(branch_offset(o, f));
    assert(e == 1 ==> e * d * 4 == 4 * d) by (nonlinear_arith);
    assert(e == 0 ==> e * d * 4 == 0) by (nonlinear_arith);
}

/// `BranchNeq` on registers: as `lemma_beq_target`, but the branch is taken
/// when `x` and `y` differ.
pub proof fn lemma_bne_target<E: InstructionEnvironment>(
    o: E,
    f: E,
    value: spec_fn(E::Variable) -> int,
    x: E::Variable,
    y: E::Variable,
)
    requires
        executes::<E>(InstructionSelector::IType(ITypeInstruction::BranchNeq), o, f),
        register_reads_faithful(f.accesses()),
        last_register_value(o.accesses(), (o.control().parts)(InstructionPart::RS)) == Some(x),
        last_register_value(o.accesses(), (o.control().parts)(InstructionPart::RT)) == Some(y),
        value(x.sub_spec(y)) == 0 <==> value(x) == value(y),
        eq_zero_sound::<E>(value, f.gadgets()[o.gadgets().len() as int]),
        sign_extend_sound::<E>(value, f.gadgets()[o.gadgets().len() + 1int]),
        parts_read::<E>(value, o.control().parts),
        branch_target_read::<E>(o, f, false, value),
        value(E::spec_constant(1).sub_spec(branch_equal(o, f))) == 1 - value(branch_equal(o, f)),
    ensures
        value(f.control().ip_updates.last()) == value(o.control().ip) + 4 + if value(x) != value(
            y,
        ) {
            4 * signed_16(immediate_number::<E>(value, o.control().parts))
        } else {
            0
        },
{
    lemma_branch_reads::<E>(o, f, false, value, x, y);
    let e = value(branch_equal(o, f));
    let d = value(branch_offset(o, f));
    assert(e == 1 ==> (1 - e) * d * 4 == 0) by (nonlinear_arith);
    assert(e == 0 ==> (1 - e) * d * 4 == 4 * d) by (nonlinear_arith);
}


/// A checked read of a register that the log showed, in a log whose reads give
/// back what was last written, leaves what the log shows of every register as
/// it was.
proof fn lemma_checked_read_keeps<E: InstructionEnvironment>(
    log: Seq<Access<E::Variable>>,
    prefix: Seq<Access<E::Variable>>,
    row: E::Variable,
    index: E::Variable,
    read: E::Variable,
    last: E::Variable,
    held: E::Variable,
    other: E::Variable,
)
    requires
        register_reads_faithful(log),
        (prefix + register_read_log::<E>(row, index, read, last)).is_prefix_of(log),
        last_register_value(prefix, index) == Some(held),
    ensures
        read == held,
        last_register_value(prefix + register_read_log::<E>(row, index, read, last), other)
            == last_register_value(prefix, other),
{
    lemma_checked_read_sees::<E>(log, prefix, row, index, read, last, held);
    lemma_after_checked_read::<E>(prefix, row, index, read, last, other);
}

/// A step that reads register `source` and writes what it read, or `written`
/// in general, to register `target`: with reads that give back what was last
/// written and `source` holding `x`, `target` ends up holding `written`, and
/// every other register that the log showed keeps its value.
proof fn lemma_read_then_write_registers<E: InstructionEnvironment>(
    o: E,
    f: E,
    source: E::Variable,
    v: E::Variable,
    read_last: E::Variable,
    target: E::Variable,
    written: E::Variable,
    old_value: E::Variable,
    write_last: E::Variable,
    x: E::Variable,
)
    requires
        read_then_write::<E>(o, f, source, v, read_last, target, written, old_value, write_last),
        register_reads_faithful(f.accesses()),
        last_register_value(o.accesses(), source) == Some(x),
    ensures
        v == x,
        last_register_value(f.accesses(), target) == Some(written),
        forall|i: E::Variable|
            i != target ==> #[trigger] last_register_value(f.accesses(), i) == last_register_value(
                o.accesses(),
                i,
            ),
{
    let row = o.control().row;
    let read = o.accesses() + register_read_log::<E>(row, source, v, read_last);
    assert(f.accesses() =~= read + register_write_log::<E>(
        row,
        target,
        written,
        old_value,
        write_last,
    ));
    assert(read.is_prefix_of(f.accesses())) by {
        assert(f.accesses().subrange(0, read.len() as int) =~= read);
    }
    lemma_checked_read_sees::<E>(f.accesses(), o.accesses(), row, source, v, read_last, x);
    lemma_written_last::<E>(read, row, target, written, old_value, write_last);
    assert forall|i: E::Variable| i != target implies #[trigger] last_register_value(
        f.accesses(),
        i,
    ) == last_register_value(o.accesses(), i) by {
        lemma_checked_read_keeps::<E>(f.accesses(), o.accesses(), row, source, v, read_last, x, i);
        lemma_write_leaves_others::<E>(read, row, target, written, old_value, write_last, i);
    }
}

/// `AddImmediateUnsigned` on registers: with reads that give back what was
/// last written, `rs` holding `x` before the step, and `value` reading the
/// instruction parts as bit fields and `x + immediate` as the sum of the
/// readings, `rt` ends up holding a value that reads as `x + immediate`, where
/// `immediate = rd * 2^11 + shamt * 2^6 + funct`; every other register that the
/// log showed keeps its value, and the step moves on to the next instruction.
pub proof fn lemma_addiu_registers<E: InstructionEnvironment>(
    o: E,
    f: E,
    value: spec_fn(E::Variable) -> int,
    x: E::Variable,
)
    requires
        executes::<E>(InstructionSelector::IType(ITypeInstruction::AddImmediateUnsigned), o, f),
        register_reads_faithful(f.accesses()),
        last_register_value(o.accesses(), (o.control().parts)(InstructionPart::RS)) == Some(x),
        parts_read::<E>(value, o.control().parts),
        value(
            x.add_spec(
                (o.control().parts)(InstructionPart::RD).mul_spec(E::spec_constant(0x800)).add_spec(
                    (o.control().parts)(InstructionPart::Shamt).mul_spec(E::spec_constant(0x40)),
                ).add_spec((o.control().parts)(InstructionPart::Funct)),
            ),
        ) == value(x) + value(
            (o.control().parts)(InstructionPart::RD).mul_spec(E::spec_constant(0x800)).add_spec(
                (o.control().parts)(InstructionPart::Shamt).mul_spec(E::spec_constant(0x40)),
            ).add_spec((o.control().parts)(InstructionPart::Funct)),
        ),
    ensures
        last_register_value(f.accesses(), (o.control().parts)(InstructionPart::RT)) is Some,
        value(last_register_value(f.accesses(), (o.control().parts)(InstructionPart::RT))->0)
            == value(x) + immediate_number::<E>(value, o.control().parts),
        forall|i: E::Variable|
            i != (o.control().parts)(InstructionPart::RT) ==> #[trigger] last_register_value(
                f.accesses(),
                i,
            ) == last_register_value(o.accesses(), i),
        f.control().ip_updates == o.control().ip_updates.push(
            next_ip::<E>(o.control().ip, o.control().halted),
        ),
{
    let parts = o.control().parts;
    let (v, rl, ov, wl) = choose|v: E::Variable, rl: E::Variable, ov: E::Variable, wl: E::Variable|
        #![trigger read_then_write::<E>(o, f, parts(InstructionPart::RS), v, rl, parts(InstructionPart::RT), v.add_spec(immediate_of::<E>(parts)), ov, wl)]
        read_then_write::<E>(
            o,
            f,
            parts(InstructionPart::RS),
            v,
            rl,
            parts(InstructionPart::RT),
            v.add_spec(immediate_of::<E>(parts)),
            ov,
            wl,
        );
    lemma_read_then_write_registers::<E>(
        o,
        f,
        parts(InstructionPart::RS),
        v,
        rl,
        parts(InstructionPart::RT),
        v.add_spec(immediate_of::<E>(parts)),
        ov,
        wl,
        x,
    );
}

/// `MoveFromHi`, `MoveToHi`, `MoveFromLo` or `MoveToLo` on registers: with reads
/// that give back what was last written and the source register holding `x`
/// before the step, the target register ends up holding `x` and every other
/// register that the log showed keeps its value. The source and target are
/// `hi` (32) and `rd`, `rs` and `hi`, `lo` (33) and `rd`, `rs` and `lo`.
pub proof fn lemma_move_registers<E: InstructionEnvironment>(
    instr: InstructionSelector,
    o: E,
    f: E,
    source: E::Variable,
    target: E::Variable,
    x: E::Variable,
)
    requires
        executes::<E>(instr, o, f),
        instr == InstructionSelector::RType(RTypeInstruction::MoveFromHi) ==> source
            == E::spec_constant(32) && target == (o.control().parts)(InstructionPart::RD),
        instr == InstructionSelector::RType(RTypeInstruction::MoveToHi) ==> source == (
        o.control().parts)(InstructionPart::RS) && target == E::spec_constant(32),
        instr == InstructionSelector::RType(RTypeInstruction::MoveFromLo) ==> source
            == E::spec_constant(33) && target == (o.control().parts)(InstructionPart::RD),
        instr == InstructionSelector::RType(RTypeInstruction::MoveToLo) ==> source == (
        o.control().parts)(InstructionPart::RS) && target == E::spec_constant(33),
        instr == InstructionSelector::RType(RTypeInstruction::MoveFromHi) || instr
            == InstructionSelector::RType(RTypeInstruction::MoveToHi) || instr
            == InstructionSelector::RType(RTypeInstruction::MoveFromLo) || instr
            == InstructionSelector::RType(RTypeInstruction::MoveToLo),
        register_reads_faithful(f.accesses()),
        last_register_value(o.accesses(), source) == Some(x),
    ensures
        last_register_value(f.accesses(), target) == Some(x),
        forall|i: E::Variable|
            i != target ==> #[trigger] last_register_value(f.accesses(), i) == last_register_value(
                o.accesses(),
                i,
            ),
{
    let (v, rl, ov, wl) = choose|v: E::Variable, rl: E::Variable, ov: E::Variable, wl: E::Variable|
        read_then_write::<E>(o, f, source, v, rl, target, v, ov, wl);
    lemma_read_then_write_registers::<E>(o, f, source, v, rl, target, v, ov, wl, x);
}

/// `LoadImmediate` on registers: with `value` reading the instruction parts as
/// bit fields and `immediate * 2^16` as the product of the readings, `rt` ends
/// up holding a value that reads as `immediate * 2^16`, where
/// `immediate = rd * 2^11 + shamt * 2^6 + funct`, and every other register that
/// the log showed keeps its value.
pub proof fn lemma_lui_registers<E: InstructionEnvironment>(
    o: E,
    f: E,
    value: spec_fn(E::Variable) -> int,
)
    requires
        executes::<E>(InstructionSelector::IType(ITypeInstruction::LoadImmediate), o, f),
        parts_read::<E>(value, o.control().parts),
        value(
            (o.control().parts)(InstructionPart::RD).mul_spec(E::spec_constant(0x800)).add_spec(
                (o.control().parts)(InstructionPart::Shamt).mul_spec(E::spec_constant(0x40)),
            ).add_spec((o.control().parts)(InstructionPart::Funct)).mul_spec(
                E::spec_constant(0x1_0000),
            ),
        ) == value(
            (o.control().parts)(InstructionPart::RD).mul_spec(E::spec_constant(0x800)).add_spec(
                (o.control().parts)(InstructionPart::Shamt).mul_spec(E::spec_constant(0x40)),
            ).add_spec((o.control().parts)(InstructionPart::Funct)),
        ) * 0x1_0000,
    ensures
        last_register_value(f.accesses(), (o.control().parts)(InstructionPart::RT)) is Some,
        value(last_register_value(f.accesses(), (o.control().parts)(InstructionPart::RT))->0)
            == immediate_number::<E>(value, o.control().parts) * 0x1_0000,
        forall|i: E::Variable|
            i != (o.control().parts)(InstructionPart::RT) ==> #[trigger] last_register_value(
                f.accesses(),
                i,
            ) == last_register_value(o.accesses(), i),
{
    let parts = o.control().parts;
    let rt = parts(InstructionPart::RT);
    let written = immediate_of::<E>(parts).mul_spec(E::spec_constant(0x1_0000));
    let (ov, wl) = choose|ov: E::Variable, wl: E::Variable|
        write_only::<E>(o, f, rt, written, ov, wl);
    let row = o.control().row;
    assert(f.accesses() =~= o.accesses() + register_write_log::<E>(row, rt, written, ov, wl));
    lemma_written_last::<E>(o.accesses(), row, rt, written, ov, wl);
    assert forall|i: E::Variable| i != rt implies #[trigger] last_register_value(f.accesses(), i)
        == last_register_value(o.accesses(), i) by {
        lemma_write_leaves_others::<E>(o.accesses(), row, rt, written, ov, wl, i);
    }
}

/// `JumpAndLink` on registers: register 31 ends up holding the return address
/// `ip + 8`, every other register that the log showed keeps its value, and
/// neither the instruction pointer nor the halted flag is written.
pub proof fn lemma_jal_registers<E: InstructionEnvironment>(o: E, f: E)
    requires
        executes::<E>(InstructionSelector::JType(JTypeInstruction::JumpAndLink), o, f),
    ensures
        last_register_value(f.accesses(), E::spec_constant(31)) == Some(
            o.control().ip.add_spec(E::spec_constant(8)),
        ),
        forall|i: E::Variable|
            i != E::spec_constant(31) ==> #[trigger] last_register_value(f.accesses(), i)
                == last_register_value(o.accesses(), i),
        f.control() == o.control(),
{
    let link = E::spec_constant(31);
    let written = o.control().ip.add_spec(E::spec_constant(8));
    let (ov, wl) = choose|ov: E::Variable, wl: E::Variable|
        write_only::<E>(o, f, link, written, ov, wl);
    let row = o.control().row;
    assert(f.accesses() =~= o.accesses() + register_write_log::<E>(row, link, written, ov, wl));
    lemma_written_last::<E>(o.accesses(), row, link, written, ov, wl);
    assert forall|i: E::Variable| i != link implies #[trigger] last_register_value(f.accesses(), i)
        == last_register_value(o.accesses(), i) by {
        lemma_write_leaves_others::<E>(o.accesses(), row, link, written, ov, wl, i);
    }
}

/// `Syscall`: the halted flag is set to 1, no register, memory cell or
/// range-check counter is touched, and nothing is looked up or constrained.
pub proof fn lemma_syscall_halts<E: InstructionEnvironment>(o: E, f: E)
    requires
        executes::<E>(InstructionSelector::RType(RTypeInstruction::Syscall), o, f),
    ensures
        f.control().halted_updates == o.control().halted_updates.push(E::spec_constant(1)),
        f.accesses() == o.accesses(),
        f.lookups() == o.lookups(),
        f.constraints() == o.constraints(),
{
}

} // verus!
