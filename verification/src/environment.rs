use vstd::prelude::*;
use vstd::std_specs::ops::{AddSpec, MulSpec, NegSpec, SubSpec};
use crate::columns::{InstructionPart, InstructionSelector};

verus! {

/// The lookup tables that the MIPS circuit writes to.
#[derive(Clone, Copy, Debug, PartialEq, Eq, Hash, Structural)]
pub enum TableID {
    Memory,
    Registers,
    RangeCheck16,
}

/// The number by which a table is identified inside a lookup: its position in
/// the declaration of `TableID`.
pub open spec fn table_code(table: TableID) -> u32 {
    match table {
        TableID::Memory => 0,
        TableID::Registers => 1,
        TableID::RangeCheck16 => 2,
    }
}

/// One term of the lookup argument: `numerator` times the inverse of
/// `(table_id, value)` is added to the running sum; a positive numerator inserts
/// `value` in the table, a negated one removes it.
#[derive(Debug, PartialEq, Eq)]
pub struct Lookup<F> {
    pub numerator: F,
    pub table_id: F,
    pub value: Vec<F>,
}

impl<F> View for Lookup<F> {
    type V = (F, F, Seq<F>);

    open spec fn view(&self) -> (F, F, Seq<F>) {
        (self.numerator, self.table_id, self.value@)
    }
}

/// The part of an environment's state that steers the execution of one
/// instruction.
pub ghost struct Control<V> {
    /// The row of the execution trace being filled.
    pub row: V,
    /// What `instruction_part` reads for each part of the instruction.
    pub parts: spec_fn(InstructionPart) -> V,
    /// What `instruction_pointer` reads.
    pub ip: V,
    /// What `halted` reads.
    pub halted: V,
    /// The values written by `set_instruction_pointer`, in order.
    pub ip_updates: Seq<V>,
    /// The values written by `set_halted`, in order.
    pub halted_updates: Seq<V>,
}

/// One access to the register file, to memory, or to the range-check counter,
/// with what it read or wrote.
pub ghost enum Access<V> {
    /// `get_register_value` read `value` from register `index`.
    ReadRegister { index: V, value: V },
    /// `set_register_value` wrote `value` to register `index`.
    WriteRegister { index: V, value: V },
    /// `last_register_write` found that register `index` was last accessed at `row`.
    ReadRegisterLastWrite { index: V, row: V },
    /// `set_last_register_write` recorded `row` as the last access to register `index`.
    WriteRegisterLastWrite { index: V, row: V },
    /// `get_memory_value` read `value` at `address`, with weight `enabled`.
    ReadMemory { address: V, enabled: V, value: V },
    /// `set_memory_value` wrote `value` at `address`, with weight `enabled`.
    WriteMemory { address: V, enabled: V, value: V },
    /// `last_memory_write` found that `address` was last accessed at `row`.
    ReadMemoryLastWrite { address: V, enabled: V, row: V },
    /// `set_last_memory_write` recorded `row` as the last access to `address`.
    WriteMemoryLastWrite { address: V, enabled: V, row: V },
    /// `increment_range_check_counter` counted one more use of `value`.
    CountRangeCheck { value: V },
}

/// What one gadget call appended to the logs: its lookups and its
/// constraints, in order.
pub ghost struct Emitted<V, F> {
    pub lookups: Seq<(F, F, Seq<F>)>,
    pub constraints: Seq<V>,
}

/// The value or row that an access read or wrote.
pub open spec fn recorded<V>(access: Access<V>) -> V {
    match access {
        Access::ReadRegister { value, .. } => value,
        Access::WriteRegister { value, .. } => value,
        Access::ReadRegisterLastWrite { row, .. } => row,
        Access::WriteRegisterLastWrite { row, .. } => row,
        Access::ReadMemory { value, .. } => value,
        Access::WriteMemory { value, .. } => value,
        Access::ReadMemoryLastWrite { row, .. } => row,
        Access::WriteMemoryLastWrite { row, .. } => row,
        Access::CountRangeCheck { value } => value,
    }
}

/// One call of a gadget, with its arguments and what it returned.
pub ghost enum Gadget<V> {
    MemoryAccessible { enabled: V, addresses: Seq<V>, accessible: V },
    MemoryRead { address: V, accessible: V, byte: V },
    RangeCheck1 { checked: V },
    RangeCheck2 { checked: V },
    Decompose { value: V, widths: Seq<u32>, limbs: Seq<V> },
    DivRem { numerator: V, denominator: V, quotient: V, remainder: V, divide_by_zero: V },
    AndXor { lhs: V, rhs: V, and: V, xor: V },
    EqZeroTerms { tested: V, is_zero: V, inverse: V },
    SignExtend { unextended: V, extended: V },
}

/// The accesses of a register read: the value, then the previous write's row is
/// read, then the current row is recorded as the last access.
pub open spec fn register_fetch_accesses<V>(index: V, value: V, last_write: V, row: V) -> Seq<
    Access<V>,
> {
    seq![
        Access::ReadRegister { index, value },
        Access::ReadRegisterLastWrite { index, row: last_write },
        Access::WriteRegisterLastWrite { index, row },
    ]
}

/// The accesses of a register write: the old value is read, the new one written,
/// then the previous write's row is read and the current row recorded.
pub open spec fn register_write_accesses<V>(
    index: V,
    value: V,
    old_value: V,
    last_write: V,
    row: V,
) -> Seq<Access<V>> {
    seq![
        Access::ReadRegister { index, value: old_value },
        Access::WriteRegister { index, value },
        Access::ReadRegisterLastWrite { index, row: last_write },
        Access::WriteRegisterLastWrite { index, row },
    ]
}

/// The accesses of a memory read with weight `enabled`.
pub open spec fn memory_fetch_accesses<V>(
    address: V,
    enabled: V,
    value: V,
    last_write: V,
    row: V,
) -> Seq<Access<V>> {
    seq![
        Access::ReadMemory { address, enabled, value },
        Access::ReadMemoryLastWrite { address, enabled, row: last_write },
        Access::WriteMemoryLastWrite { address, enabled, row },
    ]
}

/// The accesses of a memory write with weight `enabled`.
pub open spec fn memory_write_accesses<V>(
    address: V,
    enabled: V,
    value: V,
    old_value: V,
    last_write: V,
    row: V,
) -> Seq<Access<V>> {
    seq![
        Access::ReadMemory { address, enabled, value: old_value },
        Access::WriteMemory { address, enabled, value },
        Access::ReadMemoryLastWrite { address, enabled, row: last_write },
        Access::WriteMemoryLastWrite { address, enabled, row },
    ]
}

/// `suffix` is what `s` ends with.
pub open spec fn ends_with<A>(s: Seq<A>, suffix: Seq<A>) -> bool {
    &&& suffix.len() <= s.len()
    &&& s.subrange(s.len() - suffix.len(), s.len() as int) == suffix
}

/// The two lookups of one access to a register or memory cell at `address`:
/// `(new_value, address, new_write)` inserted with weight `weight`, and
/// `(old_value, address, old_write)` removed with the negated weight.
pub open spec fn access_lookups<F: core::ops::Neg<Output = F>>(
    weight: F,
    table: F,
    address: F,
    new_value: F,
    new_write: F,
    old_value: F,
    old_write: F,
) -> Seq<(F, F, Seq<F>)> {
    seq![
        (weight, table, seq![new_value, address, new_write]),
        (weight.neg_spec(), table, seq![old_value, address, old_write]),
    ]
}

/// The lookup that asks `value` to be in the table `table` of 16-bit values,
/// with weight `-one`.
pub open spec fn range_check_lookup<F: core::ops::Neg<Output = F>>(one: F, table: F, value: F) -> (
    F,
    F,
    Seq<F>,
) {
    (one.neg_spec(), table, seq![value])
}

/// The lookups of a checked access to a register or memory cell: the access pair
/// (see `access_lookups`), then the range check of `distance`, the number of rows
/// since the previous access.
pub open spec fn checked_access_lookups<F: core::ops::Neg<Output = F>>(
    one: F,
    weight: F,
    table: F,
    range_table: F,
    address: F,
    new_value: F,
    new_write: F,
    old_value: F,
    old_write: F,
    distance: F,
) -> Seq<(F, F, Seq<F>)> {
    access_lookups(weight, table, address, new_value, new_write, old_value, old_write).push(
        range_check_lookup(one, range_table, distance),
    )
}

/// An environment in which MIPS instructions are executed: a witness builder that
/// runs the program, or a constraint builder that describes it symbolically.
///
/// As the contracts see it, an environment holds the lookups added so far
/// (`lookups`), the expressions asserted to be zero so far (`constraints`), the
/// accesses to registers, memory and the range-check counter (`accesses`), the
/// gadget calls (`gadgets`), and the `control` state of the instruction being
/// executed. Only `add_lookup`
/// adds lookups and only `assert_` adds constraints; the gadgets
/// (`range_check_1`, `decompose`, ...) may add either: what each call appends
/// is logged in `emitted`. Gadgets touch no register, memory cell or range-check
/// counter (`eq_zero_terms` adds no constraint either: `is_zero` asserts its
/// two). Only
/// `set_instruction_pointer` and `set_halted` change the control state.
/// Arithmetic on variables and negation of field elements are total, and cloning
/// a variable copies it.
pub trait InstructionEnvironment: Sized {
    type Column;

    type Variable: core::ops::Mul<Self::Variable, Output = Self::Variable> + core::ops::Add<
        Self::Variable,
        Output = Self::Variable,
    > + core::ops::Sub<Self::Variable, Output = Self::Variable> + Clone;

    type Fp: core::ops::Neg<Output = Self::Fp>;

    /// The lookups added so far: `(numerator, table_id, value)`, in order.
    spec fn lookups(&self) -> Seq<(Self::Fp, Self::Fp, Seq<Self::Fp>)>;

    /// The expressions asserted to be zero so far, in order.
    spec fn constraints(&self) -> Seq<Self::Variable>;

    /// The control state of the instruction being executed.
    spec fn control(&self) -> Control<Self::Variable>;

    /// The accesses to registers, memory and the range-check counter so far, in
    /// order.
    spec fn accesses(&self) -> Seq<Access<Self::Variable>>;

    /// The gadget calls so far, in order.
    spec fn gadgets(&self) -> Seq<Gadget<Self::Variable>>;

    /// What each gadget call so far appended to the lookups and the
    /// constraints, in order.
    spec fn emitted(&self) -> Seq<Emitted<Self::Variable, Self::Fp>>;

    /// The variable that `constant(x)` gives.
    spec fn spec_constant(x: u32) -> Self::Variable;

    /// The field element that `to_fp(x)` gives.
    spec fn spec_to_fp(x: Self::Variable) -> Self::Fp;

    /// The instruction that `decode(instruction)` gives.
    spec fn spec_decode(instruction: Self::Variable) -> Option<InstructionSelector>;

    /// Sums, differences and products of variables are always defined, and are
    /// what `add_spec`, `sub_spec` and `mul_spec` say.
    proof fn lemma_variable_arithmetic(a: Self::Variable, b: Self::Variable)
        ensures
            a.add_req(b),
            a.sub_req(b),
            a.mul_req(b),
            <Self::Variable as AddSpec>::obeys_add_spec(),
            <Self::Variable as SubSpec>::obeys_sub_spec(),
            <Self::Variable as MulSpec>::obeys_mul_spec(),
    ;

    /// Negation of field elements is always defined, and is what `neg_spec` says.
    proof fn lemma_field_negation(x: Self::Fp)
        ensures
            x.neg_req(),
            <Self::Fp as NegSpec>::obeys_neg_spec(),
    ;

    /// A clone of a variable equals it.
    proof fn lemma_variable_clone(a: Self::Variable, b: Self::Variable)
        requires
            vstd::pervasive::strictly_cloned(a, b),
        ensures
            a == b,
    ;

    /// The row of the execution trace being filled.
    fn current_row(&self) -> (r: Self::Variable)
        ensures
            r == self.control().row,
    ;

    /// The variable holding the constant `x`.
    fn constant(x: u32) -> (r: Self::Variable)
        ensures
            r == Self::spec_constant(x),
    ;

    /// The field element of a variable.
    fn to_fp(x: Self::Variable) -> (r: Self::Fp)
        ensures
            r == Self::spec_to_fp(x),
    ;

    /// The index of the `hi` register.
    fn hi_register_idx() -> (r: Self::Variable)
        ensures
            r == Self::spec_constant(32),
    {
        Self::constant(32)
    }

    /// The index of the `lo` register.
    fn lo_register_idx() -> (r: Self::Variable)
        ensures
            r == Self::spec_constant(33),
    {
        Self::constant(33)
    }

    /// The address of the instruction being executed.
    fn instruction_pointer(&self) -> (r: Self::Variable)
        ensures
            r == self.control().ip,
    ;

    /// Sets the address of the next instruction.
    fn set_instruction_pointer(&mut self, ip: &Self::Variable)
        ensures
            final(self).emitted() == old(self).emitted(),
            final(self).control() == (Control {
                ip: final(self).control().ip,
                ip_updates: old(self).control().ip_updates.push(*ip),
                ..old(self).control()
            }),
            final(self).lookups() == old(self).lookups(),
            final(self).constraints() == old(self).constraints(),
            final(self).accesses() == old(self).accesses(),
            final(self).gadgets() == old(self).gadgets(),
    ;

    /// 1 once the machine has halted, 0 before.
    fn halted(&self) -> (r: Self::Variable)
        ensures
            r == self.control().halted,
    ;

    /// Sets the halted flag.
    fn set_halted(&mut self, value: &Self::Variable)
        ensures
            final(self).emitted() == old(self).emitted(),
            final(self).control() == (Control {
                halted: final(self).control().halted,
                halted_updates: old(self).control().halted_updates.push(*value),
                ..old(self).control()
            }),
            final(self).lookups() == old(self).lookups(),
            final(self).constraints() == old(self).constraints(),
            final(self).accesses() == old(self).accesses(),
            final(self).gadgets() == old(self).gadgets(),
    ;

    /// Whether all of `addresses` can be accessed, when `is_enabled` is 1.
    fn memory_accessible(
        &mut self,
        is_enabled: &Self::Variable,
        column: Self::Column,
        addresses: Vec<&Self::Variable>,
    ) -> (r: Self::Variable)
        ensures
            final(self).emitted() == old(self).emitted().push(final(self).emitted().last()),
            final(self).control() == old(self).control(),
            final(self).gadgets() == old(self).gadgets().push(Gadget::MemoryAccessible {
                enabled: *is_enabled,
                addresses: addresses@.map_values(|a: &Self::Variable| *a),
                accessible: r,
            }),
            final(self).lookups() == old(self).lookups() + final(self).emitted().last().lookups,
            final(self).constraints() == old(self).constraints() + final(self).emitted().last().constraints,
            final(self).accesses() == old(self).accesses(),
    ;

    /// The byte at `address`, when `accessible` is 1.
    fn read_memory(
        &mut self,
        output: Self::Column,
        address: &Self::Variable,
        accessible: &Self::Variable,
    ) -> (r: Self::Variable)
        ensures
            final(self).emitted() == old(self).emitted().push(final(self).emitted().last()),
            final(self).control() == old(self).control(),
            final(self).gadgets() == old(self).gadgets().push(Gadget::MemoryRead { address: *address, accessible: *accessible, byte: r }),
            final(self).lookups() == old(self).lookups() + final(self).emitted().last().lookups,
            final(self).constraints() == old(self).constraints() + final(self).emitted().last().constraints,
            old(self).accesses().is_prefix_of(final(self).accesses()),
    ;

    /// The value of a register, written to the column `output_value`.
    fn get_register_value(
        &mut self,
        register_idx: &Self::Variable,
        output_value: Self::Column,
    ) -> (r: Self::Variable)
        ensures
            final(self).emitted() == old(self).emitted(),
            final(self).control() == old(self).control(),
            final(self).lookups() == old(self).lookups(),
            final(self).constraints() == old(self).constraints(),
            final(self).gadgets() == old(self).gadgets(),
            final(self).accesses() == old(self).accesses().push(Access::ReadRegister { index: *register_idx, value: r }),
    ;

    /// Sets the value of a register.
    fn set_register_value(&mut self, register_idx: &Self::Variable, value: &Self::Variable)
        ensures
            final(self).emitted() == old(self).emitted(),
            final(self).control() == old(self).control(),
            final(self).lookups() == old(self).lookups(),
            final(self).constraints() == old(self).constraints(),
            final(self).gadgets() == old(self).gadgets(),
            final(self).accesses() == old(self).accesses().push(Access::WriteRegister { index: *register_idx, value: *value }),
    ;

    /// The row of the previous access to a register.
    fn last_register_write(
        &mut self,
        register_idx: &Self::Variable,
        output_last_write: Self::Column,
    ) -> (r: Self::Variable)
        ensures
            final(self).emitted() == old(self).emitted(),
            final(self).control() == old(self).control(),
            final(self).lookups() == old(self).lookups(),
            final(self).constraints() == old(self).constraints(),
            final(self).gadgets() == old(self).gadgets(),
            final(self).accesses() == old(self).accesses().push(Access::ReadRegisterLastWrite { index: *register_idx, row: r }),
    ;

    /// Records the row of the latest access to a register.
    fn set_last_register_write(&mut self, register_idx: &Self::Variable, last_write: &Self::Variable)
        ensures
            final(self).emitted() == old(self).emitted(),
            final(self).control() == old(self).control(),
            final(self).lookups() == old(self).lookups(),
            final(self).constraints() == old(self).constraints(),
            final(self).gadgets() == old(self).gadgets(),
            final(self).accesses() == old(self).accesses().push(Access::WriteRegisterLastWrite { index: *register_idx, row: *last_write }),
    ;

    /// Reads a register: inserts `(value, register_idx, row)` in the register
    /// table and removes `(value, register_idx, last_write)`, the entry of its
    /// previous access. Returns `(value, last_write)`.
    fn fetch_register(
        &mut self,
        register_idx: &Self::Variable,
        output_value: Self::Column,
        output_last_write: Self::Column,
    ) -> (r: (Self::Variable, Self::Variable))
        ensures
            final(self).emitted() == old(self).emitted(),
            final(self).lookups() == old(self).lookups() + access_lookups(Self::spec_to_fp(Self::spec_constant(1)), Self::spec_to_fp(Self::spec_constant(table_code(TableID::Registers))), Self::spec_to_fp(*register_idx), Self::spec_to_fp(r.0), Self::spec_to_fp(old(self).control().row), Self::spec_to_fp(r.0), Self::spec_to_fp(r.1)),
            final(self).accesses() == old(self).accesses() + register_fetch_accesses(*register_idx, r.0, r.1, old(self).control().row),
            final(self).constraints() == old(self).constraints(),
            final(self).control() == old(self).control(),
            final(self).gadgets() == old(self).gadgets(),
    {
        let value = self.get_register_value(register_idx, output_value);

        let update_row = self.current_row();

        // Insert new values
        let v = value.clone();
        let a = register_idx.clone();
        let w = update_row.clone();
        proof {
            Self::lemma_variable_clone(value, v);
            Self::lemma_variable_clone(*register_idx, a);
            Self::lemma_variable_clone(update_row, w);
        }
        let insert = Lookup {
            numerator: Self::to_fp(Self::constant(1)),
            table_id: Self::to_fp(Self::constant(TableID::Registers as u32)),
            value: vec![Self::to_fp(v), Self::to_fp(a), Self::to_fp(w)],
        };
        assert(insert.value@ =~= seq![
            Self::spec_to_fp(value),
            Self::spec_to_fp(*register_idx),
            Self::spec_to_fp(update_row),
        ]);
        self.add_lookup(insert);

        let last_write = self.last_register_write(&register_idx, output_last_write);
        self.set_last_register_write(&register_idx, &update_row);

        // Remove old values
        let one = Self::to_fp(Self::constant(1));
        proof {
            Self::lemma_field_negation(one);
        }
        let v = value.clone();
        let a = register_idx.clone();
        let w = last_write.clone();
        proof {
            Self::lemma_variable_clone(value, v);
            Self::lemma_variable_clone(*register_idx, a);
            Self::lemma_variable_clone(last_write, w);
        }
        let remove = Lookup {
            numerator: core::ops::Neg::neg(one),
            table_id: Self::to_fp(Self::constant(TableID::Registers as u32)),
            value: vec![Self::to_fp(v), Self::to_fp(a), Self::to_fp(w)],
        };
        assert(remove.value@ =~= seq![
            Self::spec_to_fp(value),
            Self::spec_to_fp(*register_idx),
            Self::spec_to_fp(last_write),
        ]);
        self.add_lookup(remove);
        assert(self.lookups() =~= old(self).lookups() + seq![insert@, remove@]);

        (value, last_write)
    }


    /// Writes a register: inserts `(value, register_idx, row)` in the register
    /// table and removes `(old_value, register_idx, last_write)`, the entry of its
    /// previous access. Returns `last_write`.
    fn overwrite_register(
        &mut self,
        register_idx: &Self::Variable,
        value: &Self::Variable,
        output_last_write: Self::Column,
    ) -> (r: Self::Variable)
        ensures
            final(self).emitted() == old(self).emitted(),
            final(self).lookups() == old(self).lookups() + access_lookups(Self::spec_to_fp(Self::spec_constant(1)), Self::spec_to_fp(Self::spec_constant(table_code(TableID::Registers))), Self::spec_to_fp(*register_idx), Self::spec_to_fp(*value), Self::spec_to_fp(old(self).control().row), Self::spec_to_fp(recorded(final(self).accesses()[old(self).accesses().len() + 0int])), Self::spec_to_fp(r)),
            final(self).accesses() == old(self).accesses() + register_write_accesses(*register_idx, *value, recorded(final(self).accesses()[old(self).accesses().len() + 0int]), r, old(self).control().row),
            final(self).constraints() == old(self).constraints(),
            final(self).control() == old(self).control(),
            final(self).gadgets() == old(self).gadgets(),
    {
        let update_row = self.current_row();

        // Insert new values
        let v = value.clone();
        let a = register_idx.clone();
        let w = update_row.clone();
        proof {
            Self::lemma_variable_clone(*value, v);
            Self::lemma_variable_clone(*register_idx, a);
            Self::lemma_variable_clone(update_row, w);
        }
        let insert = Lookup {
            numerator: Self::to_fp(Self::constant(1)),
            table_id: Self::to_fp(Self::constant(TableID::Registers as u32)),
            value: vec![Self::to_fp(v), Self::to_fp(a), Self::to_fp(w)],
        };
        assert(insert.value@ =~= seq![
            Self::spec_to_fp(*value),
            Self::spec_to_fp(*register_idx),
            Self::spec_to_fp(update_row),
        ]);
        self.add_lookup(insert);

        let output_old_value = self.alloc_scratch();
        let old_value = self.get_register_value(&register_idx, output_old_value);
        self.set_register_value(&register_idx, &value);

        let last_write = self.last_register_write(&register_idx, output_last_write);
        self.set_last_register_write(&register_idx, &update_row);

        // Remove old values
        let one = Self::to_fp(Self::constant(1));
        proof {
            Self::lemma_field_negation(one);
        }
        let v = old_value.clone();
        let a = register_idx.clone();
        let w = last_write.clone();
        proof {
            Self::lemma_variable_clone(old_value, v);
            Self::lemma_variable_clone(*register_idx, a);
            Self::lemma_variable_clone(last_write, w);
        }
        let remove = Lookup {
            numerator: core::ops::Neg::neg(one),
            table_id: Self::to_fp(Self::constant(TableID::Registers as u32)),
            value: vec![Self::to_fp(v), Self::to_fp(a), Self::to_fp(w)],
        };
        assert(remove.value@ =~= seq![
            Self::spec_to_fp(old_value),
            Self::spec_to_fp(*register_idx),
            Self::spec_to_fp(last_write),
        ]);
        self.add_lookup(remove);
        assert(self.lookups() =~= old(self).lookups() + access_lookups(
            Self::spec_to_fp(Self::spec_constant(1)),
            Self::spec_to_fp(Self::spec_constant(table_code(TableID::Registers))),
            Self::spec_to_fp(*register_idx),
            Self::spec_to_fp(*value),
            Self::spec_to_fp(old(self).control().row),
            Self::spec_to_fp(old_value),
            Self::spec_to_fp(last_write),
        ));

        last_write
    }

    /// The byte at `address`, when `enabled_if` is 1.
    fn get_memory_value(
        &mut self,
        address: &Self::Variable,
        enabled_if: &Self::Variable,
        output_value: Self::Column,
    ) -> (r: Self::Variable)
        ensures
            final(self).emitted() == old(self).emitted(),
            final(self).control() == old(self).control(),
            final(self).lookups() == old(self).lookups(),
            final(self).constraints() == old(self).constraints(),
            final(self).gadgets() == old(self).gadgets(),
            final(self).accesses() == old(self).accesses().push(Access::ReadMemory { address: *address, enabled: *enabled_if, value: r }),
    ;

    /// Sets the byte at `address`, when `enabled_if` is 1.
    fn set_memory_value(
        &mut self,
        address: &Self::Variable,
        enabled_if: &Self::Variable,
        value: &Self::Variable,
    )
        ensures
            final(self).emitted() == old(self).emitted(),
            final(self).control() == old(self).control(),
            final(self).lookups() == old(self).lookups(),
            final(self).constraints() == old(self).constraints(),
            final(self).gadgets() == old(self).gadgets(),
            final(self).accesses() == old(self).accesses().push(Access::WriteMemory { address: *address, enabled: *enabled_if, value: *value }),
    ;

    /// The row of the previous access to `address`, when `enabled_if` is 1.
    fn last_memory_write(
        &mut self,
        address: &Self::Variable,
        enabled_if: &Self::Variable,
        output_last_write: Self::Column,
    ) -> (r: Self::Variable)
        ensures
            final(self).emitted() == old(self).emitted(),
            final(self).control() == old(self).control(),
            final(self).lookups() == old(self).lookups(),
            final(self).constraints() == old(self).constraints(),
            final(self).gadgets() == old(self).gadgets(),
            final(self).accesses() == old(self).accesses().push(Access::ReadMemoryLastWrite { address: *address, enabled: *enabled_if, row: r }),
    ;

    /// Records the row of the latest access to `address`, when `enabled_if` is 1.
    fn set_last_memory_write(
        &mut self,
        address: &Self::Variable,
        enabled_if: &Self::Variable,
        last_write: &Self::Variable,
    )
        ensures
            final(self).emitted() == old(self).emitted(),
            final(self).control() == old(self).control(),
            final(self).lookups() == old(self).lookups(),
            final(self).constraints() == old(self).constraints(),
            final(self).gadgets() == old(self).gadgets(),
            final(self).accesses() == old(self).accesses().push(Access::WriteMemoryLastWrite { address: *address, enabled: *enabled_if, row: *last_write }),
    ;

    /// Reads a memory cell, when `enabled_if` is 1: inserts `(value, address, row)`
    /// in the memory table and removes `(value, address, last_write)`, the entry of
    /// its previous access, both weighted by `enabled_if`. Returns
    /// `(value, last_write)`.
    fn fetch_memory(
        &mut self,
        address: &Self::Variable,
        enabled_if: &Self::Variable,
        output_value: Self::Column,
        output_last_write: Self::Column,
    ) -> (r: (Self::Variable, Self::Variable))
        ensures
            final(self).emitted() == old(self).emitted(),
            final(self).lookups() == old(self).lookups() + access_lookups(Self::spec_to_fp(*enabled_if), Self::spec_to_fp(Self::spec_constant(table_code(TableID::Memory))), Self::spec_to_fp(*address), Self::spec_to_fp(r.0), Self::spec_to_fp(old(self).control().row), Self::spec_to_fp(r.0), Self::spec_to_fp(r.1)),
            final(self).accesses() == old(self).accesses() + memory_fetch_accesses(*address, *enabled_if, r.0, r.1, old(self).control().row),
            final(self).constraints() == old(self).constraints(),
            final(self).control() == old(self).control(),
            final(self).gadgets() == old(self).gadgets(),
    {
        let value = self.get_memory_value(address, enabled_if, output_value);

        let update_row = self.current_row();

        // Insert new values
        let e0 = enabled_if.clone();
        proof {
            Self::lemma_variable_clone(*enabled_if, e0);
        }
        let v = value.clone();
        let a = address.clone();
        let w = update_row.clone();
        proof {
            Self::lemma_variable_clone(value, v);
            Self::lemma_variable_clone(*address, a);
            Self::lemma_variable_clone(update_row, w);
        }
        let insert = Lookup {
            numerator: Self::to_fp(e0),
            table_id: Self::to_fp(Self::constant(TableID::Memory as u32)),
            value: vec![Self::to_fp(v), Self::to_fp(a), Self::to_fp(w)],
        };
        assert(insert.value@ =~= seq![
            Self::spec_to_fp(value),
            Self::spec_to_fp(*address),
            Self::spec_to_fp(update_row),
        ]);
        self.add_lookup(insert);

        let last_write = self.last_memory_write(&address, enabled_if, output_last_write);
        self.set_last_memory_write(&address, enabled_if, &update_row);

        // Remove old values
        let e1 = enabled_if.clone();
        proof {
            Self::lemma_variable_clone(*enabled_if, e1);
        }
        let weight = Self::to_fp(e1);
        proof {
            Self::lemma_field_negation(weight);
        }
        let v = value.clone();
        let a = address.clone();
        let w = last_write.clone();
        proof {
            Self::lemma_variable_clone(value, v);
            Self::lemma_variable_clone(*address, a);
            Self::lemma_variable_clone(last_write, w);
        }
        let remove = Lookup {
            numerator: core::ops::Neg::neg(weight),
            table_id: Self::to_fp(Self::constant(TableID::Memory as u32)),
            value: vec![Self::to_fp(v), Self::to_fp(a), Self::to_fp(w)],
        };
        assert(remove.value@ =~= seq![
            Self::spec_to_fp(value),
            Self::spec_to_fp(*address),
            Self::spec_to_fp(last_write),
        ]);
        self.add_lookup(remove);
        assert(self.lookups() =~= old(self).lookups() + seq![insert@, remove@]);

        (value, last_write)
    }

    /// Writes a memory cell, when `enabled_if` is 1: inserts `(value, address, row)`
    /// in the memory table and removes `(old_value, address, last_write)`, the
    /// entry of its previous access, both weighted by `enabled_if`. Returns
    /// `last_write`.
    fn overwrite_memory(
        &mut self,
        address: &Self::Variable,
        value: &Self::Variable,
        enabled_if: &Self::Variable,
        output_last_write: Self::Column,
    ) -> (r: Self::Variable)
        ensures
            final(self).emitted() == old(self).emitted(),
            final(self).lookups() == old(self).lookups() + access_lookups(Self::spec_to_fp(*enabled_if), Self::spec_to_fp(Self::spec_constant(table_code(TableID::Memory))), Self::spec_to_fp(*address), Self::spec_to_fp(*value), Self::spec_to_fp(old(self).control().row), Self::spec_to_fp(recorded(final(self).accesses()[old(self).accesses().len() + 0int])), Self::spec_to_fp(r)),
            final(self).accesses() == old(self).accesses() + memory_write_accesses(*address, *enabled_if, *value, recorded(final(self).accesses()[old(self).accesses().len() + 0int]), r, old(self).control().row),
            final(self).constraints() == old(self).constraints(),
            final(self).control() == old(self).control(),
            final(self).gadgets() == old(self).gadgets(),
    {
        let update_row = self.current_row();

        // Insert new values
        let e0 = enabled_if.clone();
        proof {
            Self::lemma_variable_clone(*enabled_if, e0);
        }
        let v = value.clone();
        let a = address.clone();
        let w = update_row.clone();
        proof {
            Self::lemma_variable_clone(*value, v);
            Self::lemma_variable_clone(*address, a);
            Self::lemma_variable_clone(update_row, w);
        }
        let insert = Lookup {
            numerator: Self::to_fp(e0),
            table_id: Self::to_fp(Self::constant(TableID::Memory as u32)),
            value: vec![Self::to_fp(v), Self::to_fp(a), Self::to_fp(w)],
        };
        assert(insert.value@ =~= seq![
            Self::spec_to_fp(*value),
            Self::spec_to_fp(*address),
            Self::spec_to_fp(update_row),
        ]);
        self.add_lookup(insert);

        let output_old_value = self.alloc_scratch();
        let old_value = self.get_memory_value(&address, enabled_if, output_old_value);
        self.set_memory_value(&address, enabled_if, &value);

        let last_write = self.last_memory_write(&address, enabled_if, output_last_write);
        self.set_last_memory_write(&address, enabled_if, &update_row);

        // Remove old values
        let e1 = enabled_if.clone();
        proof {
            Self::lemma_variable_clone(*enabled_if, e1);
        }
        let weight = Self::to_fp(e1);
        proof {
            Self::lemma_field_negation(weight);
        }
        let v = old_value.clone();
        let a = address.clone();
        let w = last_write.clone();
        proof {
            Self::lemma_variable_clone(old_value, v);
            Self::lemma_variable_clone(*address, a);
            Self::lemma_variable_clone(last_write, w);
        }
        let remove = Lookup {
            numerator: core::ops::Neg::neg(weight),
            table_id: Self::to_fp(Self::constant(TableID::Memory as u32)),
            value: vec![Self::to_fp(v), Self::to_fp(a), Self::to_fp(w)],
        };
        assert(remove.value@ =~= seq![
            Self::spec_to_fp(old_value),
            Self::spec_to_fp(*address),
            Self::spec_to_fp(last_write),
        ]);
        self.add_lookup(remove);
        assert(self.lookups() =~= old(self).lookups() + access_lookups(
            Self::spec_to_fp(*enabled_if),
            Self::spec_to_fp(Self::spec_constant(table_code(TableID::Memory))),
            Self::spec_to_fp(*address),
            Self::spec_to_fp(*value),
            Self::spec_to_fp(old(self).control().row),
            Self::spec_to_fp(old_value),
            Self::spec_to_fp(last_write),
        ));

        last_write
    }

    /// A bit field of the instruction being executed.
    fn instruction_part(&self, part: InstructionPart) -> (r: Self::Variable)
        ensures
            r == (self.control().parts)(part),
    ;

    /// The 16-bit immediate of an I-type instruction, made of its `rd`, `shamt`
    /// and `funct` parts: `rd * 2^11 + shamt * 2^6 + funct`.
    fn immediate(&self) -> (r: Self::Variable)
        ensures
            r == (self.control().parts)(InstructionPart::RD).mul_spec(
                Self::spec_constant(0x800),
            ).add_spec(
                (self.control().parts)(InstructionPart::Shamt).mul_spec(Self::spec_constant(0x40)),
            ).add_spec((self.control().parts)(InstructionPart::Funct)),
    {
        assert(1u32 << 11u32 == 0x800 && 1u32 << 6u32 == 0x40) by (bit_vector);
        let rd_part = self.instruction_part(InstructionPart::RD);
        let rd_scale = Self::constant(1u32 << 11u32);
        let shamt_part = self.instruction_part(InstructionPart::Shamt);
        let shamt_scale = Self::constant(1u32 << 6u32);
        proof {
            Self::lemma_variable_arithmetic(rd_part, rd_scale);
            Self::lemma_variable_arithmetic(shamt_part, shamt_scale);
        }
        let rd = rd_part * rd_scale;
        let shamt = shamt_part * shamt_scale;
        let funct = self.instruction_part(InstructionPart::Funct);
        proof {
            Self::lemma_variable_arithmetic(rd, shamt);
            Self::lemma_variable_arithmetic(rd.add_spec(shamt), funct);
        }
        rd + shamt + funct
    }

    /// Adds a term to the lookup argument.
    fn add_lookup(&mut self, lookup: Lookup<Self::Fp>)
        ensures
            final(self).emitted() == old(self).emitted(),
            final(self).lookups() == old(self).lookups().push(lookup@),
            final(self).constraints() == old(self).constraints(),
            final(self).control() == old(self).control(),
            final(self).accesses() == old(self).accesses(),
            final(self).gadgets() == old(self).gadgets(),
    ;

    /// Counts one more use of `value` in the 16-bit range-check table.
    fn increment_range_check_counter(&mut self, value: &Self::Variable)
        ensures
            final(self).emitted() == old(self).emitted(),
            final(self).control() == old(self).control(),
            final(self).lookups() == old(self).lookups(),
            final(self).constraints() == old(self).constraints(),
            final(self).gadgets() == old(self).gadgets(),
            final(self).accesses() == old(self).accesses().push(Access::CountRangeCheck { value: *value }),
    ;

    /// Checks that `value` lies in `[0, 2^16)`: counts it, and adds the lookup
    /// `(-1, RangeCheck16, [value])`.
    fn range_check_16(&mut self, value: &Self::Variable)
        ensures
            final(self).emitted() == old(self).emitted(),
            final(self).lookups() == old(self).lookups().push(range_check_lookup(Self::spec_to_fp(Self::spec_constant(1)), Self::spec_to_fp(Self::spec_constant(table_code(TableID::RangeCheck16))), Self::spec_to_fp(*value))),
            final(self).accesses() == old(self).accesses().push(Access::CountRangeCheck { value: *value }),
            final(self).constraints() == old(self).constraints(),
            final(self).control() == old(self).control(),
            final(self).gadgets() == old(self).gadgets(),
    {
        self.increment_range_check_counter(value);
        let one = Self::to_fp(Self::constant(1u32));
        proof {
            Self::lemma_field_negation(one);
        }
        let v = value.clone();
        proof {
            Self::lemma_variable_clone(*value, v);
        }
        let lookup = Lookup {
            numerator: core::ops::Neg::neg(one),
            table_id: Self::to_fp(Self::constant(TableID::RangeCheck16 as u32)),
            value: vec![Self::to_fp(v)],
        };
        assert(lookup.value@ =~= seq![Self::spec_to_fp(*value)]);
        self.add_lookup(lookup);
    }

    /// Checks that `value` lies in `[0, 2^shift)`: both `value` and
    /// `value * 2^(16 - shift)` must lie in `[0, 2^16)`. Only shifts below 16 are
    /// accepted.
    fn range_check(&mut self, value: &Self::Variable, shift: u32)
        requires
            shift < 16,
        ensures
            final(self).emitted() == old(self).emitted(),
            final(self).lookups() == old(self).lookups() + seq![range_check_lookup(Self::spec_to_fp(Self::spec_constant(1)), Self::spec_to_fp(Self::spec_constant(table_code(TableID::RangeCheck16))), Self::spec_to_fp(*value)), range_check_lookup(Self::spec_to_fp(Self::spec_constant(1)), Self::spec_to_fp(Self::spec_constant(table_code(TableID::RangeCheck16))), Self::spec_to_fp(value.mul_spec(Self::spec_constant((1u32 << (16 - shift) as u32) as u32))))],
            final(self).accesses() == old(self).accesses() + seq![Access::CountRangeCheck { value: *value }, Access::CountRangeCheck { value: value.mul_spec(Self::spec_constant((1u32 << (16 - shift) as u32) as u32)) }],
            final(self).constraints() == old(self).constraints(),
            final(self).control() == old(self).control(),
            final(self).gadgets() == old(self).gadgets(),
    {
        let shift_actual = Self::constant(1 << (16 - shift));
        self.range_check_16(value);
        let v = value.clone();
        proof {
            Self::lemma_variable_clone(*value, v);
            Self::lemma_variable_arithmetic(v, shift_actual);
        }
        let scaled = v * shift_actual;
        self.range_check_16(&scaled);
    }

    /// Checks that `value` is 0 or 1.
    fn range_check_1(&mut self, value: &Self::Variable)
        ensures
            final(self).emitted() == old(self).emitted().push(final(self).emitted().last()),
            final(self).control() == old(self).control(),
            final(self).gadgets() == old(self).gadgets().push(Gadget::RangeCheck1 { checked: *value }),
            final(self).lookups() == old(self).lookups() + final(self).emitted().last().lookups,
            final(self).constraints() == old(self).constraints() + final(self).emitted().last().constraints,
            final(self).accesses() == old(self).accesses(),
    ;

    /// Checks that `value` lies in `[0, 4)`.
    fn range_check_2(&mut self, value: &Self::Variable)
        ensures
            final(self).emitted() == old(self).emitted().push(final(self).emitted().last()),
            final(self).control() == old(self).control(),
            final(self).gadgets() == old(self).gadgets().push(Gadget::RangeCheck2 { checked: *value }),
            final(self).lookups() == old(self).lookups() + final(self).emitted().last().lookups,
            final(self).constraints() == old(self).constraints() + final(self).emitted().last().constraints,
            final(self).accesses() == old(self).accesses(),
    ;

    /// Splits `value` into limbs of the given bit widths, least significant first.
    fn decompose(
        &mut self,
        value: &Self::Variable,
        decomposition_little_endian: Vec<u32>,
        outputs: Vec<Self::Column>,
    ) -> (r: Vec<Self::Variable>)
        ensures
            final(self).emitted() == old(self).emitted().push(final(self).emitted().last()),
            r.len() == decomposition_little_endian.len(),
            final(self).control() == old(self).control(),
            final(self).gadgets() == old(self).gadgets().push(
                Gadget::Decompose { value: *value, widths: decomposition_little_endian@, limbs: r@ },
            ),
            final(self).lookups() == old(self).lookups() + final(self).emitted().last().lookups,
            final(self).constraints() == old(self).constraints() + final(self).emitted().last().constraints,
            final(self).accesses() == old(self).accesses(),
    ;

    /// `(numerator / denominator, numerator % denominator, denominator == 0)`.
    fn div_rem(
        &mut self,
        numerator: &Self::Variable,
        denominator: &Self::Variable,
        output_div: Self::Column,
        output_rem: Self::Column,
        output_divide_by_zero: Self::Column,
    ) -> (r: (Self::Variable, Self::Variable, Self::Variable))
        ensures
            final(self).emitted() == old(self).emitted().push(final(self).emitted().last()),
            final(self).control() == old(self).control(),
            final(self).gadgets() == old(self).gadgets().push(Gadget::DivRem {
                numerator: *numerator,
                denominator: *denominator,
                quotient: r.0,
                remainder: r.1,
                divide_by_zero: r.2,
            }),
            final(self).lookups() == old(self).lookups() + final(self).emitted().last().lookups,
            final(self).constraints() == old(self).constraints() + final(self).emitted().last().constraints,
            final(self).accesses() == old(self).accesses(),
    ;

    /// `(lhs & rhs, lhs ^ rhs)`.
    fn and_xor(
        &mut self,
        lhs: &Self::Variable,
        rhs: &Self::Variable,
        output_and: Self::Column,
        output_xor: Self::Column,
    ) -> (r: (Self::Variable, Self::Variable))
        ensures
            final(self).emitted() == old(self).emitted().push(final(self).emitted().last()),
            final(self).control() == old(self).control(),
            final(self).gadgets() == old(self).gadgets().push(Gadget::AndXor { lhs: *lhs, rhs: *rhs, and: r.0, xor: r.1 }),
            final(self).lookups() == old(self).lookups() + final(self).emitted().last().lookups,
            final(self).constraints() == old(self).constraints() + final(self).emitted().last().constraints,
            final(self).accesses() == old(self).accesses(),
    ;

    /// Reads a register, and checks that its previous access happened less than
    /// 2^16 rows ago. Returns its value.
    fn fetch_register_checked(&mut self, register_idx: &Self::Variable) -> (r: Self::Variable)
        ensures
            final(self).emitted() == old(self).emitted(),
            final(self).lookups() == old(self).lookups() + checked_access_lookups(Self::spec_to_fp(Self::spec_constant(1)), Self::spec_to_fp(Self::spec_constant(1)), Self::spec_to_fp(Self::spec_constant(table_code(TableID::Registers))), Self::spec_to_fp(Self::spec_constant(table_code(TableID::RangeCheck16))), Self::spec_to_fp(*register_idx), Self::spec_to_fp(r), Self::spec_to_fp(old(self).control().row), Self::spec_to_fp(r), Self::spec_to_fp(recorded(final(self).accesses()[old(self).accesses().len() + 1int])), Self::spec_to_fp(old(self).control().row.sub_spec(recorded(final(self).accesses()[old(self).accesses().len() + 1int])))),
            final(self).accesses() == old(self).accesses() + register_fetch_accesses(*register_idx, r, recorded(final(self).accesses()[old(self).accesses().len() + 1int]), old(self).control().row).push(Access::CountRangeCheck { value: old(self).control().row.sub_spec(recorded(final(self).accesses()[old(self).accesses().len() + 1int])) }),
            final(self).constraints() == old(self).constraints(),
            final(self).control() == old(self).control(),
            final(self).gadgets() == old(self).gadgets(),
    {
        let output_register = self.alloc_scratch();
        let output_last_write = self.alloc_scratch();
        let (register, last_write) = self.fetch_register(
            register_idx,
            output_register,
            output_last_write,
        );
        let row = self.current_row();
        proof {
            Self::lemma_variable_arithmetic(row, last_write);
        }
        self.range_check_16(&(row - last_write));
        assert(self.lookups() =~= old(self).lookups() + checked_access_lookups(
            Self::spec_to_fp(Self::spec_constant(1)),
            Self::spec_to_fp(Self::spec_constant(1)),
            Self::spec_to_fp(Self::spec_constant(table_code(TableID::Registers))),
            Self::spec_to_fp(Self::spec_constant(table_code(TableID::RangeCheck16))),
            Self::spec_to_fp(*register_idx),
            Self::spec_to_fp(register),
            Self::spec_to_fp(old(self).control().row),
            Self::spec_to_fp(register),
            Self::spec_to_fp(last_write),
            Self::spec_to_fp(old(self).control().row.sub_spec(last_write)),
        ));
        register
    }

    /// Writes a register, and checks that its previous access happened less than
    /// 2^16 rows ago.
    fn overwrite_register_checked(&mut self, register_idx: &Self::Variable, value: &Self::Variable)
        ensures
            final(self).emitted() == old(self).emitted(),
            final(self).lookups() == old(self).lookups() + checked_access_lookups(Self::spec_to_fp(Self::spec_constant(1)), Self::spec_to_fp(Self::spec_constant(1)), Self::spec_to_fp(Self::spec_constant(table_code(TableID::Registers))), Self::spec_to_fp(Self::spec_constant(table_code(TableID::RangeCheck16))), Self::spec_to_fp(*register_idx), Self::spec_to_fp(*value), Self::spec_to_fp(old(self).control().row), Self::spec_to_fp(recorded(final(self).accesses()[old(self).accesses().len() + 0int])), Self::spec_to_fp(recorded(final(self).accesses()[old(self).accesses().len() + 2int])), Self::spec_to_fp(old(self).control().row.sub_spec(recorded(final(self).accesses()[old(self).accesses().len() + 2int])))),
            final(self).accesses() == old(self).accesses() + register_write_accesses(*register_idx, *value, recorded(final(self).accesses()[old(self).accesses().len() + 0int]), recorded(final(self).accesses()[old(self).accesses().len() + 2int]), old(self).control().row).push(Access::CountRangeCheck { value: old(self).control().row.sub_spec(recorded(final(self).accesses()[old(self).accesses().len() + 2int])) }),
            final(self).constraints() == old(self).constraints(),
            final(self).control() == old(self).control(),
            final(self).gadgets() == old(self).gadgets(),
    {
        let output_last_write = self.alloc_scratch();
        let ghost before = self.lookups();
        let last_write = self.overwrite_register(register_idx, value, output_last_write);
        let ghost old_value = choose|old_value: Self::Variable|
            self.lookups() == before + access_lookups(
                    Self::spec_to_fp(Self::spec_constant(1)),
                    Self::spec_to_fp(Self::spec_constant(table_code(TableID::Registers))),
                    Self::spec_to_fp(*register_idx),
                    Self::spec_to_fp(*value),
                    Self::spec_to_fp(old(self).control().row),
                    Self::spec_to_fp(old_value),
                    Self::spec_to_fp(last_write),
                );
        let row = self.current_row();
        proof {
            Self::lemma_variable_arithmetic(row, last_write);
        }
        self.range_check_16(&(row - last_write));
        assert(self.lookups() =~= old(self).lookups() + checked_access_lookups(
            Self::spec_to_fp(Self::spec_constant(1)),
            Self::spec_to_fp(Self::spec_constant(1)),
            Self::spec_to_fp(Self::spec_constant(table_code(TableID::Registers))),
            Self::spec_to_fp(Self::spec_constant(table_code(TableID::RangeCheck16))),
            Self::spec_to_fp(*register_idx),
            Self::spec_to_fp(*value),
            Self::spec_to_fp(old(self).control().row),
            Self::spec_to_fp(old_value),
            Self::spec_to_fp(last_write),
            Self::spec_to_fp(old(self).control().row.sub_spec(last_write)),
        ));
    }

    /// Reads a memory cell when `enabled_if` is 1, and checks that its previous
    /// access happened less than 2^16 rows ago. Returns its value.
    fn fetch_memory_checked(
        &mut self,
        address: &Self::Variable,
        enabled_if: &Self::Variable,
    ) -> (r: Self::Variable)
        ensures
            final(self).emitted() == old(self).emitted(),
            final(self).lookups() == old(self).lookups() + checked_access_lookups(Self::spec_to_fp(Self::spec_constant(1)), Self::spec_to_fp(*enabled_if), Self::spec_to_fp(Self::spec_constant(table_code(TableID::Memory))), Self::spec_to_fp(Self::spec_constant(table_code(TableID::RangeCheck16))), Self::spec_to_fp(*address), Self::spec_to_fp(r), Self::spec_to_fp(old(self).control().row), Self::spec_to_fp(r), Self::spec_to_fp(recorded(final(self).accesses()[old(self).accesses().len() + 1int])), Self::spec_to_fp(old(self).control().row.sub_spec(recorded(final(self).accesses()[old(self).accesses().len() + 1int])))),
            final(self).accesses() == old(self).accesses() + memory_fetch_accesses(*address, *enabled_if, r, recorded(final(self).accesses()[old(self).accesses().len() + 1int]), old(self).control().row).push(Access::CountRangeCheck { value: old(self).control().row.sub_spec(recorded(final(self).accesses()[old(self).accesses().len() + 1int])) }),
            final(self).constraints() == old(self).constraints(),
            final(self).control() == old(self).control(),
            final(self).gadgets() == old(self).gadgets(),
    {
        let output_memory = self.alloc_scratch();
        let output_last_write = self.alloc_scratch();
        let (memory, last_write) = self.fetch_memory(
            &address,
            enabled_if,
            output_memory,
            output_last_write,
        );
        let row = self.current_row();
        proof {
            Self::lemma_variable_arithmetic(row, last_write);
        }
        self.range_check_16(&(row - last_write));
        assert(self.lookups() =~= old(self).lookups() + checked_access_lookups(
            Self::spec_to_fp(Self::spec_constant(1)),
            Self::spec_to_fp(*enabled_if),
            Self::spec_to_fp(Self::spec_constant(table_code(TableID::Memory))),
            Self::spec_to_fp(Self::spec_constant(table_code(TableID::RangeCheck16))),
            Self::spec_to_fp(*address),
            Self::spec_to_fp(memory),
            Self::spec_to_fp(old(self).control().row),
            Self::spec_to_fp(memory),
            Self::spec_to_fp(last_write),
            Self::spec_to_fp(old(self).control().row.sub_spec(last_write)),
        ));
        memory
    }

    /// Writes a memory cell when `enabled_if` is 1, and checks that its previous
    /// access happened less than 2^16 rows ago.
    fn overwrite_memory_checked(
        &mut self,
        address: &Self::Variable,
        value: &Self::Variable,
        enabled_if: &Self::Variable,
    )
        ensures
            final(self).emitted() == old(self).emitted(),
            final(self).lookups() == old(self).lookups() + checked_access_lookups(Self::spec_to_fp(Self::spec_constant(1)), Self::spec_to_fp(*enabled_if), Self::spec_to_fp(Self::spec_constant(table_code(TableID::Memory))), Self::spec_to_fp(Self::spec_constant(table_code(TableID::RangeCheck16))), Self::spec_to_fp(*address), Self::spec_to_fp(*value), Self::spec_to_fp(old(self).control().row), Self::spec_to_fp(recorded(final(self).accesses()[old(self).accesses().len() + 0int])), Self::spec_to_fp(recorded(final(self).accesses()[old(self).accesses().len() + 2int])), Self::spec_to_fp(old(self).control().row.sub_spec(recorded(final(self).accesses()[old(self).accesses().len() + 2int])))),
            final(self).accesses() == old(self).accesses() + memory_write_accesses(*address, *enabled_if, *value, recorded(final(self).accesses()[old(self).accesses().len() + 0int]), recorded(final(self).accesses()[old(self).accesses().len() + 2int]), old(self).control().row).push(Access::CountRangeCheck { value: old(self).control().row.sub_spec(recorded(final(self).accesses()[old(self).accesses().len() + 2int])) }),
            final(self).constraints() == old(self).constraints(),
            final(self).control() == old(self).control(),
            final(self).gadgets() == old(self).gadgets(),
    {
        let output_last_write = self.alloc_scratch();
        let ghost before = self.lookups();
        let last_write = self.overwrite_memory(address, value, enabled_if, output_last_write);
        let ghost old_value = choose|old_value: Self::Variable|
            self.lookups() == before + access_lookups(
                    Self::spec_to_fp(*enabled_if),
                    Self::spec_to_fp(Self::spec_constant(table_code(TableID::Memory))),
                    Self::spec_to_fp(*address),
                    Self::spec_to_fp(*value),
                    Self::spec_to_fp(old(self).control().row),
                    Self::spec_to_fp(old_value),
                    Self::spec_to_fp(last_write),
                );
        let row = self.current_row();
        proof {
            Self::lemma_variable_arithmetic(row, last_write);
        }
        self.range_check_16(&(row - last_write));
        assert(self.lookups() =~= old(self).lookups() + checked_access_lookups(
            Self::spec_to_fp(Self::spec_constant(1)),
            Self::spec_to_fp(*enabled_if),
            Self::spec_to_fp(Self::spec_constant(table_code(TableID::Memory))),
            Self::spec_to_fp(Self::spec_constant(table_code(TableID::RangeCheck16))),
            Self::spec_to_fp(*address),
            Self::spec_to_fp(*value),
            Self::spec_to_fp(old(self).control().row),
            Self::spec_to_fp(old_value),
            Self::spec_to_fp(last_write),
            Self::spec_to_fp(old(self).control().row.sub_spec(last_write)),
        ));
    }

    /// The instruction encoded by an instruction word.
    fn decode(instruction: &Self::Variable) -> (r: Option<InstructionSelector>)
        ensures
            r == Self::spec_decode(*instruction),
    ;

    /// Asserts that `value` is zero.
    fn assert_(&mut self, value: &Self::Variable)
        ensures
            final(self).emitted() == old(self).emitted(),
            final(self).constraints() == old(self).constraints().push(*value),
            final(self).lookups() == old(self).lookups(),
            final(self).control() == old(self).control(),
            final(self).accesses() == old(self).accesses(),
            final(self).gadgets() == old(self).gadgets(),
    ;

    /// `(res, inv)`: `res` is 1 when `value` is 0 and 0 otherwise, `inv` the
    /// inverse of `value` when it has one.
    fn eq_zero_terms(
        &mut self,
        value: &Self::Variable,
        res_output: Self::Column,
        inv_output: Self::Column,
    ) -> (r: (Self::Variable, Self::Variable))
        ensures
            final(self).emitted() == old(self).emitted().push(final(self).emitted().last()),
            final(self).control() == old(self).control(),
            final(self).gadgets() == old(self).gadgets().push(Gadget::EqZeroTerms { tested: *value, is_zero: r.0, inverse: r.1 }),
            final(self).lookups() == old(self).lookups() + final(self).emitted().last().lookups,
            final(self).constraints() == old(self).constraints() + final(self).emitted().last().constraints,
            final(self).emitted().last().constraints == Seq::<Self::Variable>::empty(),
            final(self).accesses() == old(self).accesses(),
    ;

    /// A variable `res` that is 1 when `value` is 0 and 0 otherwise, as fixed by
    /// the two constraints `inv * value - (1 - res) = 0` and `res * value = 0`,
    /// where `inv` is the inverse of `value` given by `eq_zero_terms`.
    fn is_zero(&mut self, value: &Self::Variable) -> (r: Self::Variable)
        ensures
            final(self).gadgets() == old(self).gadgets().push(Gadget::EqZeroTerms { tested: *value, is_zero: r, inverse: final(self).gadgets().last()->inverse }),
            final(self).constraints() == old(self).constraints() + seq![final(self).gadgets().last()->inverse.mul_spec(*value).sub_spec(Self::spec_constant(1).sub_spec(r)), r.mul_spec(*value)],
            final(self).emitted() == old(self).emitted().push(final(self).emitted().last()),
            final(self).lookups() == old(self).lookups() + final(self).emitted().last().lookups,
            final(self).accesses() == old(self).accesses(),
            final(self).control() == old(self).control(),
    {
        let res_output = self.alloc_scratch();
        let inv_output = self.alloc_scratch();
        let (res, inv) = self.eq_zero_terms(value, res_output, inv_output);
        let v0 = value.clone();
        let one = Self::constant(1u32);
        let r0 = res.clone();
        proof {
            Self::lemma_variable_clone(*value, v0);
            Self::lemma_variable_clone(res, r0);
            Self::lemma_variable_arithmetic(inv, v0);
            Self::lemma_variable_arithmetic(one, r0);
            Self::lemma_variable_arithmetic(inv.mul_spec(v0), one.sub_spec(r0));
        }
        self.assert_(&(inv * v0 - (one - r0)));
        let r1 = res.clone();
        let v1 = value.clone();
        proof {
            Self::lemma_variable_clone(*value, v1);
            Self::lemma_variable_clone(res, r1);
            Self::lemma_variable_arithmetic(r1, v1);
        }
        self.assert_(&(r1 * v1));
        assert(self.constraints() =~= old(self).constraints() + seq![
            inv.mul_spec(*value).sub_spec(Self::spec_constant(1).sub_spec(res)),
            res.mul_spec(*value),
        ]);
        res
    }

    /// The 16-bit `value` read as a signed number.
    fn sign_extend(&mut self, value: &Self::Variable, output: Self::Column) -> (r: Self::Variable)
        ensures
            final(self).emitted() == old(self).emitted().push(final(self).emitted().last()),
            final(self).control() == old(self).control(),
            final(self).gadgets() == old(self).gadgets().push(Gadget::SignExtend { unextended: *value, extended: r }),
            final(self).lookups() == old(self).lookups() + final(self).emitted().last().lookups,
            final(self).constraints() == old(self).constraints() + final(self).emitted().last().constraints,
            final(self).accesses() == old(self).accesses(),
    ;

    /// A fresh scratch column.
    fn alloc_scratch(&mut self) -> (r: Self::Column)
        ensures
            final(self).emitted() == old(self).emitted(),
            final(self).control() == old(self).control(),
            final(self).lookups() == old(self).lookups(),
            final(self).constraints() == old(self).constraints(),
            final(self).accesses() == old(self).accesses(),
            final(self).gadgets() == old(self).gadgets(),
    ;
}

} // verus!
