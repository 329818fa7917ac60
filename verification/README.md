# kimchi_mips

The instruction layer of a MIPS zero-knowledge virtual machine, verified with Verus.

- `src/columns.rs`: the instruction set (R-type, J-type and I-type instructions, the
  selector that tags them) and the bit fields of an instruction word.
- `src/decoding.rs`: the encoding tables, the encoders and decoders, and the laws that
  tie them together (decoding inverts encoding, formats never overlap, a word decodes
  from its opcode and funct fields alone).
- `src/environment.rs`: the `InstructionEnvironment` trait through which an
  instruction is executed, either to build a witness or to emit constraints. Its
  contracts speak of the logs that an environment keeps: the lookups, the asserted
  constraints, the register, memory and range-check accesses, the gadget calls and
  what each of them appended to the lookups and constraints, and the writes to the
  instruction pointer and the halted flag.
- `src/execution.rs`: fetching and decoding the instruction at the instruction
  pointer, running one instruction (`executes` states what each instruction does to
  the logs), and the laws on the steps: reads give back writes, moves through `hi`
  and `lo` copy registers, a halted machine stays halted, exactly one of the two
  branches on equality is taken, and, under a reading of the step's terms as
  numbers, the unsigned addition, multiplication and division compute what MIPS
  specifies.

`tests/` runs the library against a small integer environment.
