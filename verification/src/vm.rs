use vstd::prelude::*;

verus! {

use crate::address::Address;
use crate::memory::{le32, seg_contains, Memory, MemoryError, MemorySegment};
use crate::program::{Instruction, InstructionArg, InstructionKind, Program, Word};
use crate::registers::{Register, Registers};
use crate::fmt::{seq_contains, str_contains, dec_bytes};

/// An error that aborts a running program.
#[derive(Clone, Copy, Debug, PartialEq, Eq, Structural)]
pub enum VmError {
    /// A memory fault on fetch, load or store.
    Memory(MemoryError),
    /// A division with a zero divisor.
    DivideByZero,
    /// A `$v0` value that selects no system call.
    InvalidSyscall,
    /// An operand list that does not fit its instruction.
    InvalidArguments,
    /// Console input that cannot be interpreted.
    BadInput,
}

/// The kind of console input a read system call waits for.
#[derive(Clone, Copy, Debug, PartialEq, Eq, Structural)]
pub enum InputKind {
    /// A line holding a decimal integer.
    Int,
    /// The bit pattern of a single-precision number.
    Float,
    /// The low word of the bit pattern of a double-precision number.
    Double,
    /// A line whose first character is taken.
    Char,
    /// A raw line of bytes.
    Line,
}

/// One queued piece of console input.
#[derive(Clone, Debug, PartialEq)]
pub enum InputValue {
    /// A line of input, without its newline.
    Line(Vec<u8>),
    /// A 32-bit bit pattern, for the floating-point reads.
    Bits(u32),
}

/// What one executed instruction asks of the caller.
#[derive(Clone, Copy, Debug, PartialEq, Eq, Structural)]
pub enum StepEvent {
    /// Go on with the next instruction.
    Continue,
    /// The program exited.
    Exit,
    /// Input of the given kind is needed before this instruction can run.
    NeedInput(InputKind),
    /// The caller must print the single-precision number with these bits.
    PrintFloatBits(u32),
    /// The caller must print the double-precision number with these bits in
    /// its low word.
    PrintDoubleBits(u32),
}

/// Why a run of the interpreter paused or stopped.
#[derive(Clone, Copy, Debug, PartialEq, Eq, Structural)]
pub enum RunOutcome {
    /// The step budget ran out; resuming goes on where the run stopped.
    Running,
    /// The program exited.
    Exited,
    /// The run waits for input of the given kind.
    NeedInput(InputKind),
    /// The caller must print the single-precision number with these bits,
    /// then resume.
    PrintFloatBits(u32),
    /// The caller must print the double-precision number with these bits in
    /// its low word, then resume.
    PrintDoubleBits(u32),
}

/// A system call, selected by the value of `$v0`.
#[derive(Clone, Copy, Debug, PartialEq, Eq, Structural)]
pub enum Syscall {
    /// Print `$a0` as a decimal integer.
    PrintInt,
    /// Print `$a0` as a single-precision number.
    PrintFloat,
    /// Print `$a0` as the low word of a double-precision number.
    PrintDouble,
    /// Print the low byte of `$a0` as a character.
    PrintChar,
    /// Print the NUL-terminated string at `$a0`.
    PrintString,
    /// Read a decimal integer into `$v0`.
    ReadInt,
    /// Read a single-precision number's bits into `$v0`.
    ReadFloat,
    /// Read a double-precision number's low bits into `$v0`.
    ReadDouble,
    /// Read the first character of a line into `$v0`.
    ReadChar,
    /// Read a line into the buffer at `$a0`, at most `$a1` bytes.
    ReadString,
    /// Grow the heap by `$a0` bytes; `$v0` gets the old break.
    Sbrk,
    /// Terminate the program.
    Exit,
    /// Terminate the program (alternate number).
    Exit2,
}

/// The system call selected by a `$v0` value, or none.
pub open spec fn spec_syscall_of(v: u32) -> Option<Syscall> {
    if v == 1 {
        Some(Syscall::PrintInt)
    } else if v == 2 {
        Some(Syscall::PrintFloat)
    } else if v == 3 {
        Some(Syscall::PrintDouble)
    } else if v == 11 {
        Some(Syscall::PrintChar)
    } else if v == 4 {
        Some(Syscall::PrintString)
    } else if v == 5 {
        Some(Syscall::ReadInt)
    } else if v == 6 {
        Some(Syscall::ReadFloat)
    } else if v == 7 {
        Some(Syscall::ReadDouble)
    } else if v == 12 {
        Some(Syscall::ReadChar)
    } else if v == 8 {
        Some(Syscall::ReadString)
    } else if v == 9 {
        Some(Syscall::Sbrk)
    } else if v == 10 {
        Some(Syscall::Exit)
    } else if v == 17 {
        Some(Syscall::Exit2)
    } else {
        None
    }
}

impl Syscall {
    /// The system call selected by a `$v0` value; an unknown number is a
    /// fatal `InvalidSyscall`.
    pub fn from_word(v: Word) -> (r: Option<Syscall>)
        ensures
            r == spec_syscall_of(v),
    {
        match v {
            1 => Some(Syscall::PrintInt),
            2 => Some(Syscall::PrintFloat),
            3 => Some(Syscall::PrintDouble),
            11 => Some(Syscall::PrintChar),
            4 => Some(Syscall::PrintString),
            5 => Some(Syscall::ReadInt),
            6 => Some(Syscall::ReadFloat),
            7 => Some(Syscall::ReadDouble),
            12 => Some(Syscall::ReadChar),
            8 => Some(Syscall::ReadString),
            9 => Some(Syscall::Sbrk),
            10 => Some(Syscall::Exit),
            17 => Some(Syscall::Exit2),
            _ => None,
        }
    }
}

/// The signed value of a 32-bit word.
pub open spec fn s_val(x: u32) -> int {
    if x >= 0x8000_0000 {
        x - 0x1_0000_0000
    } else {
        x as int
    }
}

/// The 16-bit immediate sign-extended to 32 bits.
pub open spec fn sext16(x: u16) -> u32 {
    if x >= 0x8000 {
        (x + 0xFFFF_0000) as u32
    } else {
        x as u32
    }
}

/// 32-bit arithmetic right shift: the sign bit fills the vacated bits.
pub open spec fn sra32(a: u32, sh: u32) -> u32 {
    if a >= 0x8000_0000 {
        !((!a) >> (sh & 31))
    } else {
        a >> (sh & 31)
    }
}

/// 32-bit signed division, truncating toward zero; the one overflowing
/// quotient wraps.
pub open spec fn sdiv32(a: u32, b: u32) -> u32 {
    let ma: int = if a >= 0x8000_0000 {
        0x1_0000_0000 - a
    } else {
        a as int
    };
    let mb: int = if b >= 0x8000_0000 {
        0x1_0000_0000 - b
    } else {
        b as int
    };
    let q = ma / mb;
    if (a >= 0x8000_0000) != (b >= 0x8000_0000) {
        ((0x1_0000_0000 - q) % 0x1_0000_0000) as u32
    } else {
        (q % 0x1_0000_0000) as u32
    }
}

/// The machine: its register file, its memory, its program counter, the
/// output produced so far, and the queue of console input not yet consumed.
#[derive(Debug)]
pub struct VM {
    registers: Registers,
    memory: Memory,
    pc: Address,
    output: Vec<u8>,
    input: Vec<InputValue>,
}

impl VM {
    /// The register file of the machine.
    pub closed spec fn regs(self) -> Registers {
        self.registers
    }

    /// The memory of the machine.
    pub closed spec fn mem(self) -> Memory {
        self.memory
    }

    /// The program counter.
    pub closed spec fn spec_pc(self) -> u32 {
        self.pc.0
    }

    /// The bytes the program has printed and the caller has not yet taken.
    pub closed spec fn out(self) -> Seq<u8> {
        self.output@
    }

    /// The console input not yet consumed.
    pub closed spec fn inp(self) -> Seq<InputValue> {
        self.input@
    }

    /// A machine is well formed when its register file and its memory are.
    pub open spec fn wf(self) -> bool {
        &&& self.regs().wf()
        &&& self.mem().wf()
    }

    /// The value of a register: `$zero` reads 0.
    pub open spec fn reg(self, r: Register) -> u32 {
        self.regs()@[r.idx()]
    }
}

/// The index of the first label in the table whose name contains `main`,
/// `entry` or `start`, scanning in insertion order.
pub open spec fn entry_label_at(entries: Seq<(String, Address)>, i: int) -> bool {
    seq_contains(entries[i].0@, "main"@) || seq_contains(entries[i].0@, "entry"@) || seq_contains(
        entries[i].0@,
        "start"@,
    )
}

/// The entry point of a loaded machine: the address of the first label
/// whose name contains `main`, `entry` or `start`, else the first address
/// of the text segment.
pub open spec fn spec_entrypoint(vm: VM) -> Address {
    let entries = vm.mem().label_map().entries();
    if exists|i: int| 0 <= i < entries.len() && entry_label_at(entries, i) {
        let i = choose|i: int|
            0 <= i < entries.len() && entry_label_at(entries, i) && forall|j: int|
                0 <= j < i ==> !entry_label_at(entries, j);
        entries[i].1
    } else {
        vm.mem().spec_text().start_address
    }
}

impl VM {
    /// Builds a machine for a parsed program: loads it and clears the
    /// registers, the output and the input queue.
    pub fn new(program: Program, mmio: Vec<MemorySegment>) -> (r: Result<VM, MemoryError>)
        ensures
            match r {
                Ok(vm) => {
                    &&& vm.wf()
                    &&& forall|i: int| 0 <= i < 32 ==> vm.regs()@[i] == 0
                    &&& vm.out() == Seq::<u8>::empty()
                    &&& vm.inp() == Seq::<InputValue>::empty()
                    &&& vm.spec_pc() == 0
                    &&& forall|name: Seq<char>|
                        vm.mem().label_map().spec_get(name) == crate::memory::label_lookup(
                            program,
                            name,
                        )
                    &&& vm.mem().spec_text().start_address.0 == crate::memory::TEXT_START
                    &&& vm.mem().instrs().len() == crate::program::flat_instructions(
                        program.text_section.blocks@,
                    ).len()
                    &&& forall|j: int|
                        0 <= j < crate::memory::flat_data(
                            program.data_section.initialized@,
                        ).len() ==> vm.mem().byte_at(
                            #[trigger] ((crate::memory::DATA_START + j) as u32),
                        ) == crate::memory::flat_data(program.data_section.initialized@)[j]
                    &&& forall|k: int|
                        0 <= k < vm.mem().instrs().len() ==> (#[trigger] vm.mem().instrs()[
                            k
                        ]).kind == crate::program::flat_instructions(
                            program.text_section.blocks@,
                        )[k].kind
                },
                Err(_) => crate::memory::load_fails(program, mmio@),
            },
    {
        let memory = match Memory::load(program, mmio) {
            Ok(m) => m,
            Err(e) => {
                return Err(e);
            }
        };
        let registers = Registers::new();
        Ok(
            VM {
                registers,
                memory,
                pc: Address::new(0),
                output: Vec::new(),
                input: Vec::new(),
            },
        )
    }

    /// The entry point: the address of the first label whose name contains
    /// `main`, `entry` or `start`, else the first address of the text
    /// segment.
    pub fn entrypoint(&self) -> (r: Option<Address>)
        ensures
            r == Some(spec_entrypoint(*self)),
    {
        let labels = self.memory.labels();
        let n = labels.len();
        let ghost entries = labels.entries();
        let mut i: usize = 0;
        while i < n
            invariant
                n == entries.len(),
                entries == self.mem().label_map().entries(),
                *labels == self.mem().label_map(),
                i <= n,
                forall|j: int| 0 <= j < i ==> !entry_label_at(entries, j),
            decreases n - i,
        {
            let (name, address) = labels.entry_at(i);
            if str_contains(name.as_str(), "main") || str_contains(name.as_str(), "entry")
                || str_contains(name.as_str(), "start") {
                proof {
                    assert(entry_label_at(entries, i as int));
                    assert(exists|w: int|
                        0 <= w < entries.len() && entry_label_at(entries, w) && (forall|j: int|
                            0 <= j < w ==> !entry_label_at(entries, j))) by {
                        assert(0 <= i < entries.len() && entry_label_at(entries, i as int) && (
                        forall|j: int| 0 <= j < i ==> !entry_label_at(entries, j)));
                    }
                    let w = choose|w: int|
                        0 <= w < entries.len() && entry_label_at(entries, w) && (forall|j: int|
                            0 <= j < w ==> !entry_label_at(entries, j));
                    assert(!(w < i) && !(i < w));
                    assert(w == i);
                }
                return Some(address);
            }
            i = i + 1;
        }
        proof {
            assert(forall|j: int| 0 <= j < entries.len() ==> !entry_label_at(entries, j));
        }
        Some(Address::new(self.memory.text().start_address.unwrap()))
    }

    /// The memory of the machine.
    pub fn memory(&self) -> (r: &Memory)
        ensures
            *r == self.mem(),
    {
        &self.memory
    }

    /// Queues one piece of console input.
    pub fn give_input(&mut self, v: InputValue)
        ensures
            final(self).inp() == old(self).inp().push(v),
            final(self).regs() == old(self).regs(),
            final(self).mem() == old(self).mem(),
            final(self).spec_pc() == old(self).spec_pc(),
            final(self).out() == old(self).out(),
    {
        self.input.push(v);
    }

    /// Takes the output produced so far, leaving the buffer empty.
    pub fn take_output(&mut self) -> (r: Vec<u8>)
        ensures
            r@ == old(self).out(),
            final(self).out() == Seq::<u8>::empty(),
            final(self).regs() == old(self).regs(),
            final(self).mem() == old(self).mem(),
            final(self).spec_pc() == old(self).spec_pc(),
            final(self).inp() == old(self).inp(),
    {
        let mut out: Vec<u8> = Vec::new();
        core::mem::swap(&mut out, &mut self.output);
        out
    }
}

/// What `load_word` yields for an operand: an immediate zero-extended, a
/// register's value, the word at base-plus-displacement, or the word at a
/// label's address.
pub open spec fn spec_load_word(vm: VM, a: InstructionArg) -> Result<u32, VmError> {
    match a {
        InstructionArg::Immediate(v) => Ok(v as u32),
        InstructionArg::Register(r) => Ok(vm.reg(r)),
        InstructionArg::RegisterOffset(off, base) => {
            let addr = ((vm.reg(base) + off) % 0x1_0000_0000) as u32;
            spec_read_word(vm, addr)
        },
        InstructionArg::Label(l) => match vm.mem().label_map().spec_get(l@) {
            Some(ad) => spec_read_word(vm, ad.0),
            None => Err(VmError::Memory(MemoryError::InvalidLabel)),
        },
    }
}

/// The word read at `addr`, or the memory fault of the access.
pub open spec fn spec_read_word(vm: VM, addr: u32) -> Result<u32, VmError> {
    match vm.mem().access_check(addr, 4, false) {
        Ok(_) => Ok(
            le32(
                vm.mem().byte_at(addr),
                vm.mem().byte_at((addr + 1) as u32),
                vm.mem().byte_at((addr + 2) as u32),
                vm.mem().byte_at((addr + 3) as u32),
            ),
        ),
        Err(e) => Err(VmError::Memory(e)),
    }
}

/// What `load_address` yields for an operand: an immediate as an address, a
/// register's value as an address, base-plus-displacement, or a label's
/// address.
pub open spec fn spec_load_address(vm: VM, a: InstructionArg) -> Result<u32, VmError> {
    match a {
        InstructionArg::Immediate(v) => Ok(v as u32),
        InstructionArg::Register(r) => Ok(vm.reg(r)),
        InstructionArg::RegisterOffset(off, base) => Ok(
            ((vm.reg(base) + off) % 0x1_0000_0000) as u32,
        ),
        InstructionArg::Label(l) => match vm.mem().label_map().spec_get(l@) {
            Some(ad) => Ok(ad.0),
            None => Err(VmError::Memory(MemoryError::InvalidLabel)),
        },
    }
}

impl VM {
    /// Resolves an operand to a word: an immediate zero-extended, a
    /// register's value, or the word in memory at a base-plus-displacement
    /// or label address.
    pub fn load_word(&self, arg: &InstructionArg) -> (r: Result<Word, VmError>)
        requires
            self.wf(),
        ensures
            r == spec_load_word(*self, *arg),
    {
        match arg {
            InstructionArg::Immediate(v) => Ok(*v as Word),
            InstructionArg::Register(reg) => Ok(self.registers.get(reg)),
            InstructionArg::RegisterOffset(off, base) => {
                let b = self.registers.get(base);
                let addr: u32 = (((b as u64) + (*off as u64)) % 0x1_0000_0000) as u32;
                match self.memory.read_word(Address::new(addr)) {
                    Ok(w) => Ok(w),
                    Err(e) => Err(VmError::Memory(e)),
                }
            }
            InstructionArg::Label(l) => {
                match self.memory.address_of_label(l.as_str()) {
                    Ok(ad) => match self.memory.read_word(ad) {
                        Ok(w) => Ok(w),
                        Err(e) => Err(VmError::Memory(e)),
                    },
                    Err(e) => Err(VmError::Memory(e)),
                }
            }
        }
    }

    /// Resolves an operand to an address: an immediate or register value
    /// taken as an address, a base-plus-displacement, or a label's address.
    pub fn load_address(&self, arg: &InstructionArg) -> (r: Result<Address, VmError>)
        requires
            self.wf(),
        ensures
            match r {
                Ok(a) => spec_load_address(*self, *arg) == Ok::<u32, VmError>(a.0),
                Err(e) => spec_load_address(*self, *arg) == Err::<u32, VmError>(e),
            },
    {
        match arg {
            InstructionArg::Immediate(v) => Ok(Address::new(*v as u32)),
            InstructionArg::Register(reg) => Ok(Address::new(self.registers.get(reg))),
            InstructionArg::RegisterOffset(off, base) => {
                let b = self.registers.get(base);
                Ok(Address::new((((b as u64) + (*off as u64)) % 0x1_0000_0000) as u32))
            }
            InstructionArg::Label(l) => {
                match self.memory.address_of_label(l.as_str()) {
                    Ok(ad) => Ok(ad),
                    Err(e) => Err(VmError::Memory(e)),
                }
            }
        }
    }
}

/// Whether the machine is observationally unchanged: same registers,
/// memory, counter, output and input.
pub open spec fn vm_unchanged(pre: VM, post: VM) -> bool {
    &&& post.regs() == pre.regs()
    &&& post.mem() == pre.mem()
    &&& post.spec_pc() == pre.spec_pc()
    &&& post.out() == pre.out()
    &&& post.inp() =~= pre.inp()
}

/// The register file after writing `v` to `r`: a write to `$zero` is
/// discarded.
pub open spec fn upd_reg(regs: Seq<u32>, r: Register, v: u32) -> Seq<u32> {
    if r.idx() == 0 {
        regs
    } else {
        regs.update(r.idx(), v)
    }
}

/// The instruction fetched at the program counter, or the fault: the
/// counter must lie in the text segment on a present, executable page.
pub open spec fn spec_fetch(vm: VM) -> Result<Instruction, MemoryError> {
    let a = vm.spec_pc();
    let m = vm.mem();
    if seg_contains(m.spec_text(), a) {
        if !m.table().has_page(a / 4096) {
            Err(MemoryError::SegmentFault)
        } else if crate::memory::prot_executable(m.table().page_prot(a / 4096)) {
            Ok(m.instrs()[(a - m.spec_text().start_address.0) / 4])
        } else {
            Err(MemoryError::ProtectionFault)
        }
    } else {
        Err(MemoryError::ProtectionFault)
    }
}

/// Whether only one register and the program counter changed.
pub open spec fn only_reg_pc(pre: VM, post: VM, r: Register, v: u32, pc2: u32) -> bool {
    &&& post.regs()@ == upd_reg(pre.regs()@, r, v)
    &&& post.mem() == pre.mem()
    &&& post.spec_pc() == pc2
    &&& post.out() == pre.out()
    &&& post.inp() == pre.inp()
}

/// Whether only the program counter changed.
pub open spec fn only_pc(pre: VM, post: VM, pc2: u32) -> bool {
    &&& post.regs() == pre.regs()
    &&& post.mem() == pre.mem()
    &&& post.spec_pc() == pc2
    &&& post.out() == pre.out()
    &&& post.inp() == pre.inp()
}

/// Whether the memories differ only by `bs` stored at `a`: same segments,
/// labels and instructions, same pages and protections, the stored bytes in
/// place and every other byte kept.
pub open spec fn store_rel(m1: Memory, m2: Memory, a: u32, bs: Seq<u8>) -> bool {
    &&& m2.wf()
    &&& m2.label_map() == m1.label_map()
    &&& m2.spec_text() == m1.spec_text()
    &&& m2.spec_data() == m1.spec_data()
    &&& m2.spec_heap() == m1.spec_heap()
    &&& m2.spec_stack() == m1.spec_stack()
    &&& m2.spec_extras() == m1.spec_extras()
    &&& m2.instrs() == m1.instrs()
    &&& forall|n: u32| m2.table().has_page(n) == m1.table().has_page(n)
    &&& forall|n: u32|
        m1.table().has_page(n) ==> m2.table().page_prot(n) == m1.table().page_prot(n)
    &&& forall|i: int| 0 <= i < bs.len() ==> m2.byte_at((a + i) as u32) == bs[i]
    &&& forall|x: u32| !(a <= x < a + bs.len()) ==> m2.byte_at(x) == m1.byte_at(x)
}

/// Whether only memory (by a store of `bs` at `a`) and the program counter
/// changed.
pub open spec fn store_pc(pre: VM, post: VM, a: u32, bs: Seq<u8>, pc2: u32) -> bool {
    &&& post.regs() == pre.regs()
    &&& store_rel(pre.mem(), post.mem(), a, bs)
    &&& post.spec_pc() == pc2
    &&& post.out() == pre.out()
    &&& post.inp() == pre.inp()
}

/// The little-endian bytes of a word.
pub open spec fn word_bytes(w: u32) -> Seq<u8> {
    seq![
        (w % 0x100) as u8,
        ((w / 0x100) % 0x100) as u8,
        ((w / 0x1_0000) % 0x100) as u8,
        (w / 0x100_0000) as u8,
    ]
}

/// The little-endian bytes of a halfword.
pub open spec fn half_bytes(h: u32) -> Seq<u8> {
    seq![(h % 0x100) as u8, ((h / 0x100) % 0x100) as u8]
}

/// The result of an arithmetic-logic operation, all in wrapping 32-bit
/// two's-complement arithmetic; shifts mask their count to five bits.
pub open spec fn alu_result(k: InstructionKind, a: u32, b: u32) -> u32 {
    match k {
        InstructionKind::Add => ((a + b) % 0x1_0000_0000) as u32,
        InstructionKind::Addu => ((a + b) % 0x1_0000_0000) as u32,
        InstructionKind::Addi => ((a + b) % 0x1_0000_0000) as u32,
        InstructionKind::Addiu => ((a + b) % 0x1_0000_0000) as u32,
        InstructionKind::Sub => (((a + 0x1_0000_0000) - b) % 0x1_0000_0000) as u32,
        InstructionKind::Subu => (((a + 0x1_0000_0000) - b) % 0x1_0000_0000) as u32,
        InstructionKind::Mult => ((a * b) % 0x1_0000_0000) as u32,
        InstructionKind::Multu => ((a * b) % 0x1_0000_0000) as u32,
        InstructionKind::And => a & b,
        InstructionKind::Andi => a & b,
        InstructionKind::Or => a | b,
        InstructionKind::Ori => a | b,
        InstructionKind::Xor => a ^ b,
        InstructionKind::Xori => a ^ b,
        InstructionKind::Nor => !(a | b),
        InstructionKind::Slt => if s_val(a) < s_val(b) {
            1
        } else {
            0
        },
        InstructionKind::Slti => if s_val(a) < s_val(b) {
            1
        } else {
            0
        },
        InstructionKind::Sltu => if a < b {
            1
        } else {
            0
        },
        InstructionKind::Sltiu => if a < b {
            1
        } else {
            0
        },
        InstructionKind::Sll => a << (b & 31),
        InstructionKind::Sllv => a << (b & 31),
        InstructionKind::Srl => a >> (b & 31),
        InstructionKind::Srlv => a >> (b & 31),
        InstructionKind::Sra => sra32(a, b),
        InstructionKind::Srav => sra32(a, b),
        InstructionKind::Div => sdiv32(a, b),
        InstructionKind::Divu => (a as int / b as int) as u32,
        _ => 0,
    }
}

/// Whether the kind is handled by the arithmetic-logic dispatch.
pub open spec fn is_alu(k: InstructionKind) -> bool {
    match k {
        InstructionKind::Add | InstructionKind::Addu | InstructionKind::Addi
        | InstructionKind::Addiu | InstructionKind::Sub | InstructionKind::Subu
        | InstructionKind::Mult | InstructionKind::Multu | InstructionKind::Div
        | InstructionKind::Divu | InstructionKind::And | InstructionKind::Andi
        | InstructionKind::Or | InstructionKind::Ori | InstructionKind::Xor
        | InstructionKind::Xori | InstructionKind::Nor | InstructionKind::Slt
        | InstructionKind::Slti | InstructionKind::Sltu | InstructionKind::Sltiu
        | InstructionKind::Sll | InstructionKind::Srl | InstructionKind::Sra
        | InstructionKind::Sllv | InstructionKind::Srlv | InstructionKind::Srav => true,
        _ => false,
    }
}

/// Whether the kind divides, so that a zero divisor is a fault.
pub open spec fn is_div(k: InstructionKind) -> bool {
    k == InstructionKind::Div || k == InstructionKind::Divu
}

/// Whether the kind takes a sign-extended immediate as its last operand.
pub open spec fn sign_extends_imm(k: InstructionKind) -> bool {
    match k {
        InstructionKind::Addi | InstructionKind::Addiu | InstructionKind::Slti
        | InstructionKind::Sltiu => true,
        _ => false,
    }
}

/// The second operand of a three-operand instruction: a sign-extending
/// kind reads an immediate with sign extension, everything else by
/// `load_word`.
pub open spec fn spec_operand(vm: VM, k: InstructionKind, a: InstructionArg) -> Result<
    u32,
    VmError,
> {
    if sign_extends_imm(k) && a is Immediate {
        Ok(sext16(a->Immediate_0))
    } else {
        spec_load_word(vm, a)
    }
}

/// What an arithmetic-logic instruction does: with three operands the
/// destination gets `op(second, third)`, with two it accumulates
/// `op(destination, second)`; a division by zero is a fault and changes
/// nothing.
pub open spec fn alu_post(
    pre: VM,
    post: VM,
    k: InstructionKind,
    args: Seq<InstructionArg>,
    pc2: u32,
    r: Result<StepEvent, VmError>,
) -> bool {
    if args.len() >= 1 && args[0] is Register {
        let d = args[0]->Register_0;
        let lhs = if args.len() >= 3 {
            spec_load_word(pre, args[1])
        } else if args.len() == 2 {
            Ok(pre.reg(d))
        } else {
            Err(VmError::InvalidArguments)
        };
        let rhs = if args.len() >= 3 {
            spec_operand(pre, k, args[2])
        } else if args.len() == 2 {
            spec_operand(pre, k, args[1])
        } else {
            Err(VmError::InvalidArguments)
        };
        match (lhs, rhs) {
            (Ok(a), Ok(b)) => if is_div(k) && b == 0 {
                r == Err::<StepEvent, VmError>(VmError::DivideByZero) && vm_unchanged(pre, post)
            } else {
                r == Ok::<StepEvent, VmError>(StepEvent::Continue) && only_reg_pc(
                    pre,
                    post,
                    d,
                    alu_result(k, a, b),
                    pc2,
                )
            },
            (Err(e), _) => r == Err::<StepEvent, VmError>(e) && vm_unchanged(pre, post),
            (_, Err(e)) => r == Err::<StepEvent, VmError>(e) && vm_unchanged(pre, post),
        }
    } else {
        r == Err::<StepEvent, VmError>(VmError::InvalidArguments) && vm_unchanged(pre, post)
    }
}

/// The NUL-terminated string at `a`: the bytes up to but not including the
/// first zero byte; the string also ends silently where its segment does.
/// An unreadable byte before the terminator is a fault.
pub open spec fn spec_cstr(m: Memory, a: u32) -> Result<Seq<u8>, VmError>
    decreases 0x1_0000_0000 - a,
{
    match m.find_seg(a) {
        None => Ok(Seq::empty()),
        Some(_) => match m.access_check(a, 1, false) {
            Err(e) => Err(VmError::Memory(e)),
            Ok(_) => {
                let b = m.byte_at(a);
                if b == 0 {
                    Ok(Seq::empty())
                } else if a == 0xFFFF_FFFF {
                    Ok(seq![b])
                } else {
                    match spec_cstr(m, (a + 1) as u32) {
                        Ok(rest) => Ok(seq![b] + rest),
                        Err(e) => Err(e),
                    }
                }
            },
        },
    }
}

/// The characters of a line of console input.
pub open spec fn line_chars(bs: Seq<u8>) -> Seq<char> {
    bs.map_values(|b: u8| b as char)
}

/// Whether the memories differ only by the heap growing `size` bytes: the
/// heap end advances, fresh pages are read-write, and every byte keeps its
/// value.
pub open spec fn sbrk_rel(m1: Memory, m2: Memory, size: u32) -> bool {
    &&& m2.wf()
    &&& m2.label_map() == m1.label_map()
    &&& m2.spec_text() == m1.spec_text()
    &&& m2.spec_data() == m1.spec_data()
    &&& m2.spec_stack() == m1.spec_stack()
    &&& m2.spec_extras() == m1.spec_extras()
    &&& m2.instrs() == m1.instrs()
    &&& m2.spec_heap().start_address == m1.spec_heap().start_address
    &&& m2.spec_heap().end_address.0 == m1.spec_heap().end_address.0 + size
    &&& forall|x: u32| m2.byte_at(x) == m1.byte_at(x)
    &&& forall|n: u32|
        m1.table().has_page(n) ==> m2.table().has_page(n) && m2.table().page_prot(n)
            == m1.table().page_prot(n)
}

/// What the system call selected by `$v0` does.
pub open spec fn syscall_post(pre: VM, post: VM, pc2: u32, r: Result<StepEvent, VmError>) -> bool {
    let v0 = pre.reg(Register::V0);
    let a0 = pre.reg(Register::A0);
    let a1 = pre.reg(Register::A1);
    match spec_syscall_of(v0) {
        None => r == Err::<StepEvent, VmError>(VmError::InvalidSyscall) && vm_unchanged(pre, post),
        Some(sc) => match sc {
            Syscall::PrintInt => r == Ok::<StepEvent, VmError>(StepEvent::Continue) && post.regs()
                == pre.regs() && post.mem() == pre.mem() && post.spec_pc() == pc2 && post.out()
                == pre.out() + dec_bytes(a0 as nat) && post.inp() == pre.inp(),
            Syscall::PrintChar => r == Ok::<StepEvent, VmError>(StepEvent::Continue) && post.regs()
                == pre.regs() && post.mem() == pre.mem() && post.spec_pc() == pc2 && post.out()
                == pre.out() + seq![(a0 % 0x100) as u8] && post.inp() == pre.inp(),
            Syscall::PrintString => match spec_cstr(pre.mem(), a0) {
                Ok(bs) => r == Ok::<StepEvent, VmError>(StepEvent::Continue) && post.regs()
                    == pre.regs() && post.mem() == pre.mem() && post.spec_pc() == pc2 && post.out()
                    == pre.out() + bs && post.inp() == pre.inp(),
                Err(e) => r == Err::<StepEvent, VmError>(e) && vm_unchanged(pre, post),
            },
            Syscall::PrintFloat => r == Ok::<StepEvent, VmError>(StepEvent::PrintFloatBits(a0))
                && only_pc(pre, post, pc2),
            Syscall::PrintDouble => r == Ok::<StepEvent, VmError>(StepEvent::PrintDoubleBits(a0))
                && only_pc(pre, post, pc2),
            Syscall::ReadInt => if pre.inp().len() == 0 {
                r == Ok::<StepEvent, VmError>(StepEvent::NeedInput(InputKind::Int)) && vm_unchanged(pre, post)
            } else {
                match pre.inp().first() {
                    InputValue::Line(bs) => {
                        let cs = line_chars(bs@);
                        if crate::fmt::is_dec_numeral(cs) && crate::fmt::dec_val(cs)
                            < 0x1_0000_0000 {
                            r == Ok::<StepEvent, VmError>(StepEvent::Continue) && post.regs()@
                                == upd_reg(
                                pre.regs()@,
                                Register::V0,
                                crate::fmt::dec_val(cs) as u32,
                            ) && post.mem() == pre.mem() && post.spec_pc() == pc2 && post.out()
                                == pre.out() && post.inp() == pre.inp().drop_first()
                        } else {
                            r == Err::<StepEvent, VmError>(VmError::BadInput) && vm_unchanged(pre, post)
                        }
                    },
                    InputValue::Bits(_) => r == Err::<StepEvent, VmError>(VmError::BadInput)
                        && vm_unchanged(pre, post),
                }
            },
            Syscall::ReadChar => if pre.inp().len() == 0 {
                r == Ok::<StepEvent, VmError>(StepEvent::NeedInput(InputKind::Char)) && vm_unchanged(pre, post)
            } else {
                match pre.inp().first() {
                    InputValue::Line(bs) => if bs@.len() > 0 {
                        r == Ok::<StepEvent, VmError>(StepEvent::Continue) && post.regs()@
                            == upd_reg(pre.regs()@, Register::V0, bs@[0] as u32) && post.mem()
                            == pre.mem() && post.spec_pc() == pc2 && post.out() == pre.out()
                            && post.inp() == pre.inp().drop_first()
                    } else {
                        r == Err::<StepEvent, VmError>(VmError::BadInput) && vm_unchanged(pre, post)
                    },
                    InputValue::Bits(_) => r == Err::<StepEvent, VmError>(VmError::BadInput)
                        && vm_unchanged(pre, post),
                }
            },
            Syscall::ReadFloat => if pre.inp().len() == 0 {
                r == Ok::<StepEvent, VmError>(StepEvent::NeedInput(InputKind::Float)) && vm_unchanged(pre, post)
            } else {
                match pre.inp().first() {
                    InputValue::Bits(w) => r == Ok::<StepEvent, VmError>(StepEvent::Continue)
                        && post.regs()@ == upd_reg(pre.regs()@, Register::V0, w) && post.mem()
                        == pre.mem() && post.spec_pc() == pc2 && post.out() == pre.out()
                        && post.inp() == pre.inp().drop_first(),
                    InputValue::Line(_) => r == Err::<StepEvent, VmError>(VmError::BadInput)
                        && vm_unchanged(pre, post),
                }
            },
            Syscall::ReadDouble => if pre.inp().len() == 0 {
                r == Ok::<StepEvent, VmError>(StepEvent::NeedInput(InputKind::Double)) && vm_unchanged(pre, post)
            } else {
                match pre.inp().first() {
                    InputValue::Bits(w) => r == Ok::<StepEvent, VmError>(StepEvent::Continue)
                        && post.regs()@ == upd_reg(pre.regs()@, Register::V0, w) && post.mem()
                        == pre.mem() && post.spec_pc() == pc2 && post.out() == pre.out()
                        && post.inp() == pre.inp().drop_first(),
                    InputValue::Line(_) => r == Err::<StepEvent, VmError>(VmError::BadInput)
                        && vm_unchanged(pre, post),
                }
            },
            Syscall::ReadString => if pre.inp().len() == 0 {
                r == Ok::<StepEvent, VmError>(StepEvent::NeedInput(InputKind::Line))
                    && vm_unchanged(pre, post)
            } else {
                match pre.inp().first() {
                    InputValue::Line(bs) => {
                        let cnt = if a1 <= bs@.len() {
                            a1 as int
                        } else {
                            bs@.len() as int
                        };
                        &&& (r == Ok::<StepEvent, VmError>(StepEvent::Continue) ==> post.regs()
                            == pre.regs() && store_rel(pre.mem(), post.mem(), a0, bs@.take(cnt))
                            && post.spec_pc() == pc2 && post.out() == pre.out() && post.inp()
                            =~= pre.inp().drop_first())
                        &&& (r matches Err(_) ==> vm_unchanged(pre, post))
                        &&& (r matches Ok(ev) ==> ev == StepEvent::Continue)
                        &&& (r is Ok <==> pre.mem().access_check(a0, bs@.take(cnt).len(), true)
                            is Ok)
                    },
                    InputValue::Bits(_) => r == Err::<StepEvent, VmError>(VmError::BadInput)
                        && vm_unchanged(pre, post),
                }
            },
            Syscall::Sbrk => if pre.mem().spec_heap().end_address.0 + a0 < pre.mem()
                .spec_stack().start_address.0 {
                r == Ok::<StepEvent, VmError>(StepEvent::Continue) && post.regs()@ == upd_reg(
                    pre.regs()@,
                    Register::V0,
                    pre.mem().spec_heap().end_address.0,
                ) && sbrk_rel(pre.mem(), post.mem(), a0) && post.spec_pc() == pc2 && post.out()
                    == pre.out() && post.inp() == pre.inp()
            } else {
                r == Err::<StepEvent, VmError>(VmError::Memory(MemoryError::InvalidHeap))
                    && vm_unchanged(pre, post)
            },
            Syscall::Exit => r == Ok::<StepEvent, VmError>(StepEvent::Exit) && only_pc(
                pre,
                post,
                pc2,
            ),
            Syscall::Exit2 => r == Ok::<StepEvent, VmError>(StepEvent::Exit) && only_pc(
                pre,
                post,
                pc2,
            ),
        },
    }
}

/// What one executed instruction does, by kind, relating the machine
/// before and after the step: the dispatch of the interpreter.
pub open spec fn step_dispatch(
    pre: VM,
    post: VM,
    instr: Instruction,
    pc2: u32,
    r: Result<StepEvent, VmError>,
) -> bool {
    let args = instr.args@;
    match instr.kind {
        InstructionKind::Nop => r == Ok::<StepEvent, VmError>(StepEvent::Continue) && only_pc(
            pre,
            post,
            pc2,
        ),
        InstructionKind::Li | InstructionKind::Move => if args.len() >= 2 && args[0] is Register {
            match spec_load_word(pre, args[1]) {
                Ok(v) => r == Ok::<StepEvent, VmError>(StepEvent::Continue) && only_reg_pc(
                    pre,
                    post,
                    args[0]->Register_0,
                    v,
                    pc2,
                ),
                Err(e) => r == Err::<StepEvent, VmError>(e) && vm_unchanged(pre, post),
            }
        } else {
            r == Err::<StepEvent, VmError>(VmError::InvalidArguments) && vm_unchanged(pre, post)
        },
        InstructionKind::La => if args.len() >= 2 && args[0] is Register {
            match spec_load_address(pre, args[1]) {
                Ok(a) => r == Ok::<StepEvent, VmError>(StepEvent::Continue) && only_reg_pc(
                    pre,
                    post,
                    args[0]->Register_0,
                    a,
                    pc2,
                ),
                Err(e) => r == Err::<StepEvent, VmError>(e) && vm_unchanged(pre, post),
            }
        } else {
            r == Err::<StepEvent, VmError>(VmError::InvalidArguments) && vm_unchanged(pre, post)
        },
        InstructionKind::Lui => if args.len() >= 2 && args[0] is Register {
            match spec_load_word(pre, args[1]) {
                Ok(v) => r == Ok::<StepEvent, VmError>(StepEvent::Continue) && only_reg_pc(
                    pre,
                    post,
                    args[0]->Register_0,
                    ((v * 0x1_0000) % 0x1_0000_0000) as u32,
                    pc2,
                ),
                Err(e) => r == Err::<StepEvent, VmError>(e) && vm_unchanged(pre, post),
            }
        } else {
            r == Err::<StepEvent, VmError>(VmError::InvalidArguments) && vm_unchanged(pre, post)
        },
        InstructionKind::Add | InstructionKind::Addu | InstructionKind::Addi
        | InstructionKind::Addiu | InstructionKind::Sub | InstructionKind::Subu
        | InstructionKind::Mult | InstructionKind::Multu | InstructionKind::Div
        | InstructionKind::Divu | InstructionKind::And | InstructionKind::Andi
        | InstructionKind::Or | InstructionKind::Ori | InstructionKind::Xor
        | InstructionKind::Xori | InstructionKind::Nor | InstructionKind::Slt
        | InstructionKind::Slti | InstructionKind::Sltu | InstructionKind::Sltiu
        | InstructionKind::Sll | InstructionKind::Sllv | InstructionKind::Srl
        | InstructionKind::Srlv | InstructionKind::Sra | InstructionKind::Srav => alu_post(
            pre,
            post,
            instr.kind,
            args,
            pc2,
            r,
        ),
        InstructionKind::Beq | InstructionKind::Bne => if args.len() >= 3 {
            match (spec_load_word(pre, args[0]), spec_load_word(pre, args[1])) {
                (Ok(lhs), Ok(rhs)) => {
                    let taken = if instr.kind == InstructionKind::Beq {
                        lhs == rhs
                    } else {
                        lhs != rhs
                    };
                    branch_step(pre, post, args[2], taken, pc2, r)
                },
                (Err(e), _) => r == Err::<StepEvent, VmError>(e) && vm_unchanged(pre, post),
                (_, Err(e)) => r == Err::<StepEvent, VmError>(e) && vm_unchanged(pre, post),
            }
        } else {
            r == Err::<StepEvent, VmError>(VmError::InvalidArguments) && vm_unchanged(pre, post)
        },
        InstructionKind::Blez | InstructionKind::Bgtz => if args.len() >= 2 {
            match spec_load_word(pre, args[0]) {
                Ok(src) => {
                    let taken = if instr.kind == InstructionKind::Blez {
                        s_val(src) <= 0
                    } else {
                        s_val(src) > 0
                    };
                    branch_step(pre, post, args[1], taken, pc2, r)
                },
                Err(e) => r == Err::<StepEvent, VmError>(e) && vm_unchanged(pre, post),
            }
        } else {
            r == Err::<StepEvent, VmError>(VmError::InvalidArguments) && vm_unchanged(pre, post)
        },
        InstructionKind::Lw | InstructionKind::Lh | InstructionKind::Lhu | InstructionKind::Lb
        | InstructionKind::Lbu => if args.len() >= 2 && args[0] is Register {
            match spec_load_address(pre, args[1]) {
                Ok(a) => {
                    let size: nat = if instr.kind == InstructionKind::Lw {
                        4
                    } else if instr.kind == InstructionKind::Lb || instr.kind
                        == InstructionKind::Lbu {
                        1
                    } else {
                        2
                    };
                    match pre.mem().access_check(a, size, false) {
                        Ok(_) => {
                            let v = load_value(pre.mem(), instr.kind, a);
                            r == Ok::<StepEvent, VmError>(StepEvent::Continue) && only_reg_pc(
                                pre,
                                post,
                                args[0]->Register_0,
                                v,
                                pc2,
                            )
                        },
                        Err(e) => r == Err::<StepEvent, VmError>(VmError::Memory(e)) && vm_unchanged(pre, post),
                    }
                },
                Err(e) => r == Err::<StepEvent, VmError>(e) && vm_unchanged(pre, post),
            }
        } else {
            r == Err::<StepEvent, VmError>(VmError::InvalidArguments) && vm_unchanged(pre, post)
        },
        InstructionKind::Sw | InstructionKind::Sh | InstructionKind::Sb => if args.len() >= 2 {
            match (spec_load_word(pre, args[0]), spec_load_address(pre, args[1])) {
                (Ok(v), Ok(a)) => {
                    let bs = if instr.kind == InstructionKind::Sw {
                        word_bytes(v)
                    } else if instr.kind == InstructionKind::Sh {
                        half_bytes(v % 0x1_0000)
                    } else {
                        seq![(v % 0x100) as u8]
                    };
                    match pre.mem().access_check(a, bs.len(), true) {
                        Ok(_) => r == Ok::<StepEvent, VmError>(StepEvent::Continue) && store_pc(
                            pre,
                            post,
                            a,
                            bs,
                            pc2,
                        ),
                        Err(e) => r == Err::<StepEvent, VmError>(VmError::Memory(e)) && vm_unchanged(pre, post),
                    }
                },
                (Err(e), _) => r == Err::<StepEvent, VmError>(e) && vm_unchanged(pre, post),
                (_, Err(e)) => r == Err::<StepEvent, VmError>(e) && vm_unchanged(pre, post),
            }
        } else {
            r == Err::<StepEvent, VmError>(VmError::InvalidArguments) && vm_unchanged(pre, post)
        },
        InstructionKind::J => if args.len() >= 1 {
            match spec_load_address(pre, args[0]) {
                Ok(a) => r == Ok::<StepEvent, VmError>(StepEvent::Continue) && only_pc(
                    pre,
                    post,
                    a,
                ),
                Err(e) => r == Err::<StepEvent, VmError>(e) && vm_unchanged(pre, post),
            }
        } else {
            r == Err::<StepEvent, VmError>(VmError::InvalidArguments) && vm_unchanged(pre, post)
        },
        InstructionKind::Jal => if args.len() >= 1 {
            match spec_load_address(pre, args[0]) {
                Ok(a) => r == Ok::<StepEvent, VmError>(StepEvent::Continue) && only_reg_pc(
                    pre,
                    post,
                    Register::Ra,
                    pc2,
                    a,
                ),
                Err(e) => r == Err::<StepEvent, VmError>(e) && vm_unchanged(pre, post),
            }
        } else {
            r == Err::<StepEvent, VmError>(VmError::InvalidArguments) && vm_unchanged(pre, post)
        },
        InstructionKind::Jr => if args.len() >= 1 {
            match spec_load_address(pre, args[0]) {
                Ok(a) => r == Ok::<StepEvent, VmError>(StepEvent::Continue) && only_pc(
                    pre,
                    post,
                    a,
                ),
                Err(e) => r == Err::<StepEvent, VmError>(e) && vm_unchanged(pre, post),
            }
        } else {
            r == Err::<StepEvent, VmError>(VmError::InvalidArguments) && vm_unchanged(pre, post)
        },
        InstructionKind::Jalr => if args.len() >= 2 && args[0] is Register {
            match spec_load_address(pre, args[1]) {
                Ok(a) => r == Ok::<StepEvent, VmError>(StepEvent::Continue) && only_reg_pc(
                    pre,
                    post,
                    args[0]->Register_0,
                    pc2,
                    a,
                ),
                Err(e) => r == Err::<StepEvent, VmError>(e) && vm_unchanged(pre, post),
            }
        } else {
            r == Err::<StepEvent, VmError>(VmError::InvalidArguments) && vm_unchanged(pre, post)
        },
        InstructionKind::Syscall => syscall_post(pre, post, pc2, r),
    }
}

/// A branch step: when taken, the counter moves by the sign-extended
/// offset from the already-advanced counter; otherwise it just advances.
pub open spec fn branch_step(
    pre: VM,
    post: VM,
    off_arg: InstructionArg,
    taken: bool,
    pc2: u32,
    r: Result<StepEvent, VmError>,
) -> bool {
    let off = if off_arg is Immediate {
        Ok(sext16(off_arg->Immediate_0))
    } else {
        spec_load_word(pre, off_arg)
    };
    match off {
        Ok(o) => {
            let target = if taken {
                ((pc2 + o) % 0x1_0000_0000) as u32
            } else {
                pc2
            };
            r == Ok::<StepEvent, VmError>(StepEvent::Continue) && only_pc(pre, post, target)
        },
        Err(e) => r == Err::<StepEvent, VmError>(e) && vm_unchanged(pre, post),
    }
}

/// The value a load instruction puts in its destination: sign-extended for
/// `lb` and `lh`, zero-extended for `lbu` and `lhu`, the whole word for
/// `lw`.
pub open spec fn load_value(m: Memory, k: InstructionKind, a: u32) -> u32 {
    let b0 = m.byte_at(a);
    match k {
        InstructionKind::Lw => le32(
            b0,
            m.byte_at((a + 1) as u32),
            m.byte_at((a + 2) as u32),
            m.byte_at((a + 3) as u32),
        ),
        InstructionKind::Lb => if b0 >= 0x80 {
            (b0 + 0xFFFF_FF00) as u32
        } else {
            b0 as u32
        },
        InstructionKind::Lbu => b0 as u32,
        InstructionKind::Lh => {
            let h = crate::memory::le16(b0, m.byte_at((a + 1) as u32));
            if h >= 0x8000 {
                (h + 0xFFFF_0000) as u32
            } else {
                h as u32
            }
        },
        InstructionKind::Lhu => crate::memory::le16(b0, m.byte_at((a + 1) as u32)) as u32,
        _ => 0,
    }
}

/// What one step of the machine does: a fetch fault is fatal and changes
/// nothing; otherwise the counter advances past the instruction and the
/// instruction's own dispatch relation holds.
pub open spec fn step_post(pre: VM, post: VM, r: Result<StepEvent, VmError>) -> bool {
    match spec_fetch(pre) {
        Err(e) => r == Err::<StepEvent, VmError>(VmError::Memory(e)) && vm_unchanged(pre, post),
        Ok(instr) => step_dispatch(pre, post, instr, ((pre.spec_pc() + 4) % 0x1_0000_0000) as u32, r),
    }
}

/// Evaluates one arithmetic-logic operation.
pub fn alu_eval(k: InstructionKind, a: u32, b: u32) -> (r: u32)
    requires
        is_alu(k),
        !(is_div(k) && b == 0),
    ensures
        r == alu_result(k, a, b),
{
    let sh: u32 = b % 32;
    proof {
        assert(b % 32 == (b & 31) && b & 31 < 32) by (bit_vector);
    }
    match k {
        InstructionKind::Add | InstructionKind::Addu | InstructionKind::Addi
        | InstructionKind::Addiu => (((a as u64) + (b as u64)) % 0x1_0000_0000) as u32,
        InstructionKind::Sub | InstructionKind::Subu => (((a as u64) + 0x1_0000_0000u64 - (b
            as u64)) % 0x1_0000_0000u64) as u32,
        InstructionKind::Mult | InstructionKind::Multu => {
            proof {
                assert((a as int) * (b as int) < 0x1_0000_0000_0000_0000int) by (nonlinear_arith)
                    requires
                        a < 0x1_0000_0000,
                        b < 0x1_0000_0000,
                ;
            }
            (((a as u64) * (b as u64)) % 0x1_0000_0000) as u32
        }
        InstructionKind::And | InstructionKind::Andi => a & b,
        InstructionKind::Or | InstructionKind::Ori => a | b,
        InstructionKind::Xor | InstructionKind::Xori => a ^ b,
        InstructionKind::Nor => !(a | b),
        InstructionKind::Slt | InstructionKind::Slti => {
            let sa: i64 = if a >= 0x8000_0000 {
                (a as i64) - 0x1_0000_0000
            } else {
                a as i64
            };
            let sb: i64 = if b >= 0x8000_0000 {
                (b as i64) - 0x1_0000_0000
            } else {
                b as i64
            };
            if sa < sb {
                1
            } else {
                0
            }
        }
        InstructionKind::Sltu | InstructionKind::Sltiu => if a < b {
            1
        } else {
            0
        },
        InstructionKind::Sll | InstructionKind::Sllv => a << sh,
        InstructionKind::Srl | InstructionKind::Srlv => a >> sh,
        InstructionKind::Sra | InstructionKind::Srav => {
            if a >= 0x8000_0000 {
                !((!a) >> sh)
            } else {
                a >> sh
            }
        }
        InstructionKind::Div => {
            let ma: u32 = if a >= 0x8000_0000 {
                ((0x1_0000_0000u64 - (a as u64))) as u32
            } else {
                a
            };
            let mb: u32 = if b >= 0x8000_0000 {
                ((0x1_0000_0000u64 - (b as u64))) as u32
            } else {
                b
            };
            let q: u32 = ma / mb;
            if (a >= 0x8000_0000) != (b >= 0x8000_0000) {
                if q == 0 {
                    0
                } else {
                    ((0x1_0000_0000u64 - (q as u64)) % 0x1_0000_0000) as u32
                }
            } else {
                q
            }
        }
        InstructionKind::Divu => a / b,
        _ => 0,
    }
}

impl VM {
    /// Resolves the second operand of an instruction: a sign-extending
    /// kind reads an immediate with sign extension, everything else by
    /// `load_word`.
    fn operand(&self, k: InstructionKind, arg: &InstructionArg) -> (r: Result<u32, VmError>)
        requires
            self.wf(),
        ensures
            r == spec_operand(*self, k, *arg),
    {
        let se = matches!(
            k,
            InstructionKind::Addi
            | InstructionKind::Addiu
            | InstructionKind::Slti
            | InstructionKind::Sltiu
        );
        match arg {
            InstructionArg::Immediate(imm) => {
                if se {
                    if *imm >= 0x8000 {
                        Ok((*imm as u32) + 0xFFFF_0000)
                    } else {
                        Ok(*imm as u32)
                    }
                } else {
                    self.load_word(arg)
                }
            }
            _ => self.load_word(arg),
        }
    }

    /// Performs an arithmetic-logic instruction on an operand list: the
    /// first operand names the destination; with three operands the
    /// destination gets `op(second, third)`, with two it accumulates.
    pub fn arithmetic(&mut self, args: &Vec<InstructionArg>, op: InstructionKind, pc2: Address)
        -> (r: Result<StepEvent, VmError>)
        requires
            old(self).wf(),
            is_alu(op),
        ensures
            final(self).wf(),
            alu_post(*old(self), *final(self), op, args@, pc2.0, r),
    {
        if args.len() < 1 {
            return Err(VmError::InvalidArguments);
        }
        let d = match &args[0] {
            InstructionArg::Register(reg) => *reg,
            _ => {
                return Err(VmError::InvalidArguments);
            }
        };
        let lhs: u32;
        let rhs: u32;
        if args.len() >= 3 {
            lhs = match self.load_word(&args[1]) {
                Ok(v) => v,
                Err(e) => {
                    return Err(e);
                }
            };
            rhs = match self.operand(op, &args[2]) {
                Ok(v) => v,
                Err(e) => {
                    return Err(e);
                }
            };
        } else if args.len() == 2 {
            lhs = self.registers.get(&d);
            rhs = match self.operand(op, &args[1]) {
                Ok(v) => v,
                Err(e) => {
                    return Err(e);
                }
            };
        } else {
            return Err(VmError::InvalidArguments);
        }
        let divides = matches!(op, InstructionKind::Div | InstructionKind::Divu);
        if divides && rhs == 0 {
            return Err(VmError::DivideByZero);
        }
        let v = alu_eval(op, lhs, rhs);
        self.registers.set(&d, v);
        self.pc = pc2;
        Ok(StepEvent::Continue)
    }
}

impl VM {
    /// Performs the system call selected by `$v0`: prints go to the output
    /// buffer, reads consume the input queue or pause for input, `sbrk`
    /// grows the heap, and the exit calls end the run.
    #[verifier::rlimit(100)]
    pub fn syscall(&mut self, pc2: Address) -> (r: Result<StepEvent, VmError>)
        requires
            old(self).wf(),
        ensures
            final(self).wf(),
            syscall_post(*old(self), *final(self), pc2.0, r),
    {
        let v0 = self.registers.get(&Register::V0);
        let a0 = self.registers.get(&Register::A0);
        let a1 = self.registers.get(&Register::A1);
        let sc = match Syscall::from_word(v0) {
            Some(sc) => sc,
            None => {
                return Err(VmError::InvalidSyscall);
            }
        };
        match sc {
            Syscall::PrintInt => {
                crate::fmt::append_dec_bytes(&mut self.output, a0);
                self.pc = pc2;
                Ok(StepEvent::Continue)
            }
            Syscall::PrintChar => {
                self.output.push((a0 % 0x100) as u8);
                self.pc = pc2;
                proof {
                    assert(self.out() =~= old(self).out() + seq![(a0 % 0x100) as u8]);
                }
                Ok(StepEvent::Continue)
            }
            Syscall::PrintFloat => {
                self.pc = pc2;
                proof {
                    assert(only_pc(*old(self), *self, pc2.0));
                }
                Ok(StepEvent::PrintFloatBits(a0))
            }
            Syscall::PrintDouble => {
                self.pc = pc2;
                Ok(StepEvent::PrintDoubleBits(a0))
            }
            Syscall::PrintString => {
                let mut collected: Vec<u8> = Vec::new();
                let mut addr: u32 = a0;
                proof {
                    if spec_cstr(self.mem(), a0) is Ok {
                        assert(Seq::<u8>::empty() + spec_cstr(self.mem(), a0).unwrap()
                            =~= spec_cstr(self.mem(), a0).unwrap());
                    }
                }
                loop
                    invariant_except_break
                        self.wf(),
                        *self == *old(self),
                        a0 == old(self).regs()@[Register::A0.idx()],
                        spec_syscall_of(old(self).regs()@[Register::V0.idx()]) == Some(
                            Syscall::PrintString,
                        ),
                        addr >= a0,
                        (match spec_cstr(self.mem(), addr) {
                            Ok(rest) => spec_cstr(self.mem(), a0) == Ok::<Seq<u8>, VmError>(
                                collected@ + rest,
                            ),
                            Err(e) => spec_cstr(self.mem(), a0) == Err::<Seq<u8>, VmError>(e),
                        }),
                    ensures
                        self.wf(),
                        *self == *old(self),
                        a0 == old(self).regs()@[Register::A0.idx()],
                        spec_syscall_of(old(self).regs()@[Register::V0.idx()]) == Some(
                            Syscall::PrintString,
                        ),
                        spec_cstr(self.mem(), a0) == Ok::<Seq<u8>, VmError>(collected@),
                    decreases 0x1_0000_0000 - addr,
                {
                    match self.memory.find_section(Address::new(addr)) {
                        Err(_) => {
                            proof {
                                assert(spec_cstr(self.mem(), addr) == Ok::<Seq<u8>, VmError>(
                                    Seq::empty(),
                                ));
                                assert(collected@ + Seq::<u8>::empty() =~= collected@);
                            }
                            break ;
                        }
                        Ok(_) => {}
                    }
                    let b = match self.memory.read(Address::new(addr), 1) {
                        Ok(v) => v[0],
                        Err(e) => {
                            proof {
                                assert(spec_cstr(self.mem(), addr) == Err::<Seq<u8>, VmError>(
                                    VmError::Memory(e),
                                ));
                            }
                            return Err(VmError::Memory(e));
                        }
                    };
                    proof {
                        assert(b == self.mem().byte_at(addr));
                    }
                    if b == 0 {
                        proof {
                            assert(spec_cstr(self.mem(), addr) == Ok::<Seq<u8>, VmError>(
                                Seq::empty(),
                            ));
                            assert(collected@ + Seq::<u8>::empty() =~= collected@);
                        }
                        break ;
                    }
                    let ghost old_collected = collected@;
                    collected.push(b);
                    if addr == 0xFFFF_FFFF {
                        proof {
                            assert(spec_cstr(self.mem(), addr) == Ok::<Seq<u8>, VmError>(seq![b]));
                            assert(old_collected + seq![b] =~= collected@);
                        }
                        break ;
                    }
                    proof {
                        let rest = spec_cstr(self.mem(), (addr + 1) as u32);
                        assert(spec_cstr(self.mem(), addr) == (match rest {
                            Ok(r2) => Ok::<Seq<u8>, VmError>(seq![b] + r2),
                            Err(e) => Err::<Seq<u8>, VmError>(e),
                        }));
                        if rest is Ok {
                            assert(old_collected + (seq![b] + rest.unwrap()) =~= collected@
                                + rest.unwrap());
                        }
                    }
                    addr = addr + 1;
                }
                self.output.append(&mut collected);
                self.pc = pc2;
                Ok(StepEvent::Continue)
            }
            Syscall::ReadInt => {
                if self.input.len() == 0 {
                    return Ok(StepEvent::NeedInput(InputKind::Int));
                }
                let first = self.input.remove(0);
                match first {
                    InputValue::Line(bs) => {
                        let mut chars: Vec<char> = Vec::new();
                        let mut i: usize = 0;
                        while i < bs.len()
                            invariant
                                i <= bs@.len(),
                                chars@ == line_chars(bs@.take(i as int)),
                            decreases bs@.len() - i,
                        {
                            chars.push(bs[i] as char);
                            proof {
                                assert(line_chars(bs@.take(i + 1)) =~= line_chars(
                                    bs@.take(i as int),
                                ).push(bs@[i as int] as char));
                            }
                            i = i + 1;
                        }
                        proof {
                            assert(bs@.take(bs@.len() as int) =~= bs@);
                        }
                        match crate::fmt::parse_dec_u32(&chars) {
                            Some(v) => {
                                self.registers.set(&Register::V0, v);
                                self.pc = pc2;
                                proof {
                                    assert(self.inp() =~= old(self).inp().drop_first());
                                }
                                Ok(StepEvent::Continue)
                            }
                            None => {
                                self.input.insert(0, InputValue::Line(bs));
                                proof {
                                    assert(self.inp() =~= old(self).inp());
                                }
                                Err(VmError::BadInput)
                            }
                        }
                    }
                    InputValue::Bits(w) => {
                        self.input.insert(0, InputValue::Bits(w));
                        proof {
                            assert(self.inp() =~= old(self).inp());
                        }
                        Err(VmError::BadInput)
                    }
                }
            }
            Syscall::ReadChar => {
                if self.input.len() == 0 {
                    return Ok(StepEvent::NeedInput(InputKind::Char));
                }
                let first = self.input.remove(0);
                match first {
                    InputValue::Line(bs) => {
                        if bs.len() > 0 {
                            let c = bs[0];
                            self.registers.set(&Register::V0, c as u32);
                            self.pc = pc2;
                            proof {
                                assert(self.inp() =~= old(self).inp().drop_first());
                            }
                            Ok(StepEvent::Continue)
                        } else {
                            self.input.insert(0, InputValue::Line(bs));
                            proof {
                                assert(self.inp() =~= old(self).inp());
                            }
                            Err(VmError::BadInput)
                        }
                    }
                    InputValue::Bits(w) => {
                        self.input.insert(0, InputValue::Bits(w));
                        proof {
                            assert(self.inp() =~= old(self).inp());
                        }
                        Err(VmError::BadInput)
                    }
                }
            }
            Syscall::ReadFloat | Syscall::ReadDouble => {
                if self.input.len() == 0 {
                    return Ok(
                        StepEvent::NeedInput(
                            if matches!(sc, Syscall::ReadFloat) {
                                InputKind::Float
                            } else {
                                InputKind::Double
                            },
                        ),
                    );
                }
                let first = self.input.remove(0);
                match first {
                    InputValue::Bits(w) => {
                        self.registers.set(&Register::V0, w);
                        self.pc = pc2;
                        proof {
                            assert(self.inp() =~= old(self).inp().drop_first());
                        }
                        Ok(StepEvent::Continue)
                    }
                    InputValue::Line(bs) => {
                        self.input.insert(0, InputValue::Line(bs));
                        proof {
                            assert(self.inp() =~= old(self).inp());
                        }
                        Err(VmError::BadInput)
                    }
                }
            }
            Syscall::ReadString => {
                if self.input.len() == 0 {
                    return Ok(StepEvent::NeedInput(InputKind::Line));
                }
                let first = self.input.remove(0);
                match first {
                    InputValue::Line(bs) => {
                        let cnt: usize = if (a1 as usize) <= bs.len() {
                            a1 as usize
                        } else {
                            bs.len()
                        };
                        let sl = bs.as_slice();
                        let part = &sl[0..cnt];
                        proof {
                            assert(part@ =~= bs@.take(cnt as int));
                        }
                        match self.memory.write(Address::new(a0), part) {
                            Ok(_) => {
                                self.pc = pc2;
                                proof {
                                    assert(self.inp() =~= old(self).inp().drop_first());
                                    assert(part@ =~= bs@.take(cnt as int));
                                }
                                Ok(StepEvent::Continue)
                            }
                            Err(e) => {
                                self.input.insert(0, InputValue::Line(bs));
                                proof {
                                    assert(self.inp() =~= old(self).inp());
                                }
                                Err(VmError::Memory(e))
                            }
                        }
                    }
                    InputValue::Bits(w) => {
                        self.input.insert(0, InputValue::Bits(w));
                        proof {
                            assert(self.inp() =~= old(self).inp());
                        }
                        Err(VmError::BadInput)
                    }
                }
            }
            Syscall::Sbrk => {
                match self.memory.heap_allocate(a0 as usize) {
                    Ok(addr) => {
                        self.registers.set(&Register::V0, addr.unwrap());
                        self.pc = pc2;
                        proof {
                            assert(self.mem().wf());
                            assert(self.mem().label_map() == old(self).mem().label_map());
                            assert(self.mem().spec_heap().start_address == old(
                                self,
                            ).mem().spec_heap().start_address);
                            assert(self.mem().spec_heap().end_address.0 == old(
                                self,
                            ).mem().spec_heap().end_address.0 + a0);
                            assert(forall|x: u32|
                                self.mem().byte_at(x) == old(self).mem().byte_at(x));
                            assert(forall|n: u32|
                                old(self).mem().table().has_page(n)
                                    ==> self.mem().table().has_page(n) && self.mem()
                                    .table().page_prot(n) == old(self).mem().table().page_prot(n));
                            assert(sbrk_rel(old(self).mem(), self.mem(), a0));
                        }
                        Ok(StepEvent::Continue)
                    }
                    Err(e) => {
                        Err(VmError::Memory(e))
                    }
                }
            }
            Syscall::Exit | Syscall::Exit2 => {
                self.pc = pc2;
                Ok(StepEvent::Exit)
            }
        }
    }
}

/// A segment never reaches past the top of the address space: an address
/// it contains is below its end.
proof fn lemma_first_seg_bound(m: Memory, a: u32)
    requires
        m.find_seg(a) is Some,
    ensures
        a < 0xFFFF_FFFF || m.find_seg(a).unwrap().end_address.0 > 0xFFFF_FFFF,
{
    crate::memory::lemma_seg_holds(m, a);
}

impl VM {
    #[verifier::rlimit(100)]
    fn step_setreg(&mut self, pc: Address, pc2: Address, kind: InstructionKind) -> (r: Result<
        StepEvent,
        VmError,
    >)
        requires
            old(self).wf(),
            pc.0 == old(self).spec_pc(),
            pc2.0 == (old(self).spec_pc() + 4) % 0x1_0000_0000,
            spec_fetch(*old(self)) is Ok,
            kind == spec_fetch(*old(self)).unwrap().kind,
            (kind == InstructionKind::Li || kind == InstructionKind::Move || kind == InstructionKind::La || kind == InstructionKind::Lui),
        ensures
            final(self).wf(),
            step_dispatch(*old(self), *final(self), spec_fetch(*old(self)).unwrap(), pc2.0, r),
    {
            let instr = match self.memory.execute(pc) {
                Ok(i) => i,
                Err(_) => {
                    proof {
                        assert(false);
                    }
                    return Err(VmError::InvalidArguments);
                }
            };
            if instr.args.len() < 2 {
                return Err(VmError::InvalidArguments);
            }
            let d = match &instr.args[0] {
                InstructionArg::Register(reg) => *reg,
                _ => {
                    return Err(VmError::InvalidArguments);
                }
            };
            let v: u32;
            if matches!(kind, InstructionKind::La) {
                v = match self.load_address(&instr.args[1]) {
                    Ok(a) => a.unwrap(),
                    Err(e) => {
                        return Err(e);
                    }
                };
            } else {
                let w = match self.load_word(&instr.args[1]) {
                    Ok(w) => w,
                    Err(e) => {
                        return Err(e);
                    }
                };
                v = if matches!(kind, InstructionKind::Lui) {
                    (((w as u64) * 0x1_0000) % 0x1_0000_0000) as u32
                } else {
                    w
                };
            }
            self.registers.set(&d, v);
            self.pc = pc2;
            Ok(StepEvent::Continue)
    }

    #[verifier::rlimit(100)]
    fn step_alu(&mut self, pc: Address, pc2: Address, kind: InstructionKind) -> (r: Result<
        StepEvent,
        VmError,
    >)
        requires
            old(self).wf(),
            pc.0 == old(self).spec_pc(),
            pc2.0 == (old(self).spec_pc() + 4) % 0x1_0000_0000,
            spec_fetch(*old(self)) is Ok,
            kind == spec_fetch(*old(self)).unwrap().kind,
            is_alu(kind),
        ensures
            final(self).wf(),
            step_dispatch(*old(self), *final(self), spec_fetch(*old(self)).unwrap(), pc2.0, r),
    {
            let instr = match self.memory.execute(pc) {
                Ok(i) => i,
                Err(_) => {
                    proof {
                        assert(false);
                    }
                    return Err(VmError::InvalidArguments);
                }
            };
            if instr.args.len() < 1 {
                return Err(VmError::InvalidArguments);
            }
            let d = match &instr.args[0] {
                InstructionArg::Register(reg) => *reg,
                _ => {
                    return Err(VmError::InvalidArguments);
                }
            };
            let lhs: u32;
            let rhs: u32;
            if instr.args.len() >= 3 {
                lhs = match self.load_word(&instr.args[1]) {
                    Ok(v) => v,
                    Err(e) => {
                        return Err(e);
                    }
                };
                rhs = match self.operand(kind, &instr.args[2]) {
                    Ok(v) => v,
                    Err(e) => {
                        return Err(e);
                    }
                };
            } else if instr.args.len() == 2 {
                lhs = self.registers.get(&d);
                rhs = match self.operand(kind, &instr.args[1]) {
                    Ok(v) => v,
                    Err(e) => {
                        return Err(e);
                    }
                };
            } else {
                return Err(VmError::InvalidArguments);
            }
            let divides = matches!(kind, InstructionKind::Div | InstructionKind::Divu);
            if divides && rhs == 0 {
                return Err(VmError::DivideByZero);
            }
            let v = alu_eval(kind, lhs, rhs);
            self.registers.set(&d, v);
            self.pc = pc2;
            Ok(StepEvent::Continue)
    }

    #[verifier::rlimit(100)]
    fn step_branch(&mut self, pc: Address, pc2: Address, kind: InstructionKind) -> (r: Result<
        StepEvent,
        VmError,
    >)
        requires
            old(self).wf(),
            pc.0 == old(self).spec_pc(),
            pc2.0 == (old(self).spec_pc() + 4) % 0x1_0000_0000,
            spec_fetch(*old(self)) is Ok,
            kind == spec_fetch(*old(self)).unwrap().kind,
            (kind == InstructionKind::Beq || kind == InstructionKind::Bne || kind == InstructionKind::Blez || kind == InstructionKind::Bgtz),
        ensures
            final(self).wf(),
            step_dispatch(*old(self), *final(self), spec_fetch(*old(self)).unwrap(), pc2.0, r),
    {
            let two_src = matches!(kind, InstructionKind::Beq | InstructionKind::Bne);
            let instr = match self.memory.execute(pc) {
                Ok(i) => i,
                Err(_) => {
                    proof {
                        assert(false);
                    }
                    return Err(VmError::InvalidArguments);
                }
            };
            let needed: usize = if two_src {
                3
            } else {
                2
            };
            if instr.args.len() < needed {
                return Err(VmError::InvalidArguments);
            }
            let taken: bool;
            if two_src {
                let lhs = match self.load_word(&instr.args[0]) {
                    Ok(v) => v,
                    Err(e) => {
                        return Err(e);
                    }
                };
                let rhs = match self.load_word(&instr.args[1]) {
                    Ok(v) => v,
                    Err(e) => {
                        return Err(e);
                    }
                };
                taken = if matches!(kind, InstructionKind::Beq) {
                    lhs == rhs
                } else {
                    lhs != rhs
                };
            } else {
                let src = match self.load_word(&instr.args[0]) {
                    Ok(v) => v,
                    Err(e) => {
                        return Err(e);
                    }
                };
                let neg = src >= 0x8000_0000;
                taken = if matches!(kind, InstructionKind::Blez) {
                    neg || src == 0
                } else {
                    !neg && src != 0
                };
            }
            let off_arg: &InstructionArg = if two_src {
                &instr.args[2]
            } else {
                &instr.args[1]
            };
            let off: u32 = match off_arg {
                InstructionArg::Immediate(imm) => {
                    if *imm >= 0x8000 {
                        (*imm as u32) + 0xFFFF_0000
                    } else {
                        *imm as u32
                    }
                }
                _ => {
                    match self.load_word(off_arg) {
                        Ok(v) => v,
                        Err(e) => {
                            return Err(e);
                        }
                    }
                }
            };
            let target = if taken {
                Address::new((((pc2.unwrap() as u64) + (off as u64)) % 0x1_0000_0000) as u32)
            } else {
                pc2
            };
            self.pc = target;
            Ok(StepEvent::Continue)
    }

    #[verifier::rlimit(100)]
    fn step_load_word(&mut self, pc: Address, pc2: Address, kind: InstructionKind) -> (r: Result<
        StepEvent,
        VmError,
    >)
        requires
            old(self).wf(),
            pc.0 == old(self).spec_pc(),
            pc2.0 == (old(self).spec_pc() + 4) % 0x1_0000_0000,
            spec_fetch(*old(self)) is Ok,
            kind == spec_fetch(*old(self)).unwrap().kind,
            kind == InstructionKind::Lw,
        ensures
            final(self).wf(),
            step_dispatch(*old(self), *final(self), spec_fetch(*old(self)).unwrap(), pc2.0, r),
    {
        let instr = match self.memory.execute(pc) {
            Ok(i) => i,
            Err(_) => {
                proof {
                    assert(false);
                }
                return Err(VmError::InvalidArguments);
            }
        };
        if instr.args.len() < 2 {
            return Err(VmError::InvalidArguments);
        }
        let d = match &instr.args[0] {
            InstructionArg::Register(reg) => *reg,
            _ => {
                return Err(VmError::InvalidArguments);
            }
        };
        let addr = match self.load_address(&instr.args[1]) {
            Ok(a) => a,
            Err(e) => {
                return Err(e);
            }
        };
        let v: u32 = match self.memory.read_word(addr) {
            Ok(w) => w,
            Err(e) => {
                return Err(VmError::Memory(e));
            }
        };
        self.registers.set(&d, v);
        self.pc = pc2;
        Ok(StepEvent::Continue)
    }

    #[verifier::rlimit(100)]
    fn step_load_byte(&mut self, pc: Address, pc2: Address, kind: InstructionKind) -> (r: Result<
        StepEvent,
        VmError,
    >)
        requires
            old(self).wf(),
            pc.0 == old(self).spec_pc(),
            pc2.0 == (old(self).spec_pc() + 4) % 0x1_0000_0000,
            spec_fetch(*old(self)) is Ok,
            kind == spec_fetch(*old(self)).unwrap().kind,
            (kind == InstructionKind::Lb || kind == InstructionKind::Lbu),
        ensures
            final(self).wf(),
            step_dispatch(*old(self), *final(self), spec_fetch(*old(self)).unwrap(), pc2.0, r),
    {
        let instr = match self.memory.execute(pc) {
            Ok(i) => i,
            Err(_) => {
                proof {
                    assert(false);
                }
                return Err(VmError::InvalidArguments);
            }
        };
        if instr.args.len() < 2 {
            return Err(VmError::InvalidArguments);
        }
        let d = match &instr.args[0] {
            InstructionArg::Register(reg) => *reg,
            _ => {
                return Err(VmError::InvalidArguments);
            }
        };
        let addr = match self.load_address(&instr.args[1]) {
            Ok(a) => a,
            Err(e) => {
                return Err(e);
            }
        };
        let b = match self.memory.read_byte(addr) {
            Ok(b) => b,
            Err(e) => {
                return Err(VmError::Memory(e));
            }
        };
        let v: u32 = if matches!(kind, InstructionKind::Lb) && b >= 0x80 {
            (b as u32) + 0xFFFF_FF00
        } else {
            b as u32
        };
        self.registers.set(&d, v);
        self.pc = pc2;
        Ok(StepEvent::Continue)
    }

    #[verifier::rlimit(100)]
    fn step_load_half(&mut self, pc: Address, pc2: Address, kind: InstructionKind) -> (r: Result<
        StepEvent,
        VmError,
    >)
        requires
            old(self).wf(),
            pc.0 == old(self).spec_pc(),
            pc2.0 == (old(self).spec_pc() + 4) % 0x1_0000_0000,
            spec_fetch(*old(self)) is Ok,
            kind == spec_fetch(*old(self)).unwrap().kind,
            (kind == InstructionKind::Lh || kind == InstructionKind::Lhu),
        ensures
            final(self).wf(),
            step_dispatch(*old(self), *final(self), spec_fetch(*old(self)).unwrap(), pc2.0, r),
    {
        let instr = match self.memory.execute(pc) {
            Ok(i) => i,
            Err(_) => {
                proof {
                    assert(false);
                }
                return Err(VmError::InvalidArguments);
            }
        };
        if instr.args.len() < 2 {
            return Err(VmError::InvalidArguments);
        }
        let d = match &instr.args[0] {
            InstructionArg::Register(reg) => *reg,
            _ => {
                return Err(VmError::InvalidArguments);
            }
        };
        let addr = match self.load_address(&instr.args[1]) {
            Ok(a) => a,
            Err(e) => {
                return Err(e);
            }
        };
        let h = match self.memory.read_halfword(addr) {
            Ok(h) => h,
            Err(e) => {
                return Err(VmError::Memory(e));
            }
        };
        let v: u32 = if matches!(kind, InstructionKind::Lh) && h >= 0x8000 {
            (h as u32) + 0xFFFF_0000
        } else {
            h as u32
        };
        self.registers.set(&d, v);
        self.pc = pc2;
        Ok(StepEvent::Continue)
    }

    #[verifier::rlimit(100)]
    fn step_store_word(&mut self, pc: Address, pc2: Address, kind: InstructionKind) -> (r: Result<
        StepEvent,
        VmError,
    >)
        requires
            old(self).wf(),
            pc.0 == old(self).spec_pc(),
            pc2.0 == (old(self).spec_pc() + 4) % 0x1_0000_0000,
            spec_fetch(*old(self)) is Ok,
            kind == spec_fetch(*old(self)).unwrap().kind,
            kind == InstructionKind::Sw,
        ensures
            final(self).wf(),
            step_dispatch(*old(self), *final(self), spec_fetch(*old(self)).unwrap(), pc2.0, r),
    {
        let instr = match self.memory.execute(pc) {
            Ok(i) => i,
            Err(_) => {
                proof {
                    assert(false);
                }
                return Err(VmError::InvalidArguments);
            }
        };
        if instr.args.len() < 2 {
            return Err(VmError::InvalidArguments);
        }
        let v = match self.load_word(&instr.args[0]) {
            Ok(v) => v,
            Err(e) => {
                return Err(e);
            }
        };
        let addr = match self.load_address(&instr.args[1]) {
            Ok(a) => a,
            Err(e) => {
                return Err(e);
            }
        };
        match self.memory.write_word(addr, v) {
            Ok(_) => {
                self.pc = pc2;
                proof {
                    assert(store_rel(old(self).mem(), self.mem(), addr.0, word_bytes(v)));
                }
                Ok(StepEvent::Continue)
            }
            Err(e) => Err(VmError::Memory(e)),
        }
    }

    #[verifier::rlimit(100)]
    fn step_store_half(&mut self, pc: Address, pc2: Address, kind: InstructionKind) -> (r: Result<
        StepEvent,
        VmError,
    >)
        requires
            old(self).wf(),
            pc.0 == old(self).spec_pc(),
            pc2.0 == (old(self).spec_pc() + 4) % 0x1_0000_0000,
            spec_fetch(*old(self)) is Ok,
            kind == spec_fetch(*old(self)).unwrap().kind,
            kind == InstructionKind::Sh,
        ensures
            final(self).wf(),
            step_dispatch(*old(self), *final(self), spec_fetch(*old(self)).unwrap(), pc2.0, r),
    {
        let instr = match self.memory.execute(pc) {
            Ok(i) => i,
            Err(_) => {
                proof {
                    assert(false);
                }
                return Err(VmError::InvalidArguments);
            }
        };
        if instr.args.len() < 2 {
            return Err(VmError::InvalidArguments);
        }
        let v = match self.load_word(&instr.args[0]) {
            Ok(v) => v,
            Err(e) => {
                return Err(e);
            }
        };
        let addr = match self.load_address(&instr.args[1]) {
            Ok(a) => a,
            Err(e) => {
                return Err(e);
            }
        };
        match self.memory.write_halfword(addr, (v % 0x1_0000) as u16) {
            Ok(_) => {
                self.pc = pc2;
                proof {
                    assert(store_rel(old(self).mem(), self.mem(), addr.0, half_bytes(v % 0x1_0000)));
                }
                Ok(StepEvent::Continue)
            }
            Err(e) => Err(VmError::Memory(e)),
        }
    }

    #[verifier::rlimit(100)]
    fn step_store_byte(&mut self, pc: Address, pc2: Address, kind: InstructionKind) -> (r: Result<
        StepEvent,
        VmError,
    >)
        requires
            old(self).wf(),
            pc.0 == old(self).spec_pc(),
            pc2.0 == (old(self).spec_pc() + 4) % 0x1_0000_0000,
            spec_fetch(*old(self)) is Ok,
            kind == spec_fetch(*old(self)).unwrap().kind,
            kind == InstructionKind::Sb,
        ensures
            final(self).wf(),
            step_dispatch(*old(self), *final(self), spec_fetch(*old(self)).unwrap(), pc2.0, r),
    {
        let instr = match self.memory.execute(pc) {
            Ok(i) => i,
            Err(_) => {
                proof {
                    assert(false);
                }
                return Err(VmError::InvalidArguments);
            }
        };
        if instr.args.len() < 2 {
            return Err(VmError::InvalidArguments);
        }
        let v = match self.load_word(&instr.args[0]) {
            Ok(v) => v,
            Err(e) => {
                return Err(e);
            }
        };
        let addr = match self.load_address(&instr.args[1]) {
            Ok(a) => a,
            Err(e) => {
                return Err(e);
            }
        };
        match self.memory.write_byte(addr, (v % 0x100) as u8) {
            Ok(_) => {
                self.pc = pc2;
                proof {
                    assert(store_rel(old(self).mem(), self.mem(), addr.0, seq![(v % 0x100) as u8]));
                }
                Ok(StepEvent::Continue)
            }
            Err(e) => Err(VmError::Memory(e)),
        }
    }

    #[verifier::rlimit(100)]
    fn step_jump(&mut self, pc: Address, pc2: Address, kind: InstructionKind) -> (r: Result<
        StepEvent,
        VmError,
    >)
        requires
            old(self).wf(),
            pc.0 == old(self).spec_pc(),
            pc2.0 == (old(self).spec_pc() + 4) % 0x1_0000_0000,
            spec_fetch(*old(self)) is Ok,
            kind == spec_fetch(*old(self)).unwrap().kind,
            (kind == InstructionKind::J || kind == InstructionKind::Jr),
        ensures
            final(self).wf(),
            step_dispatch(*old(self), *final(self), spec_fetch(*old(self)).unwrap(), pc2.0, r),
    {
            let instr = match self.memory.execute(pc) {
                Ok(i) => i,
                Err(_) => {
                    proof {
                        assert(false);
                    }
                    return Err(VmError::InvalidArguments);
                }
            };
            if instr.args.len() < 1 {
                return Err(VmError::InvalidArguments);
            }
            let a = match self.load_address(&instr.args[0]) {
                Ok(a) => a,
                Err(e) => {
                    return Err(e);
                }
            };
            self.pc = a;
            Ok(StepEvent::Continue)
    }

    #[verifier::rlimit(100)]
    fn step_jal(&mut self, pc: Address, pc2: Address, kind: InstructionKind) -> (r: Result<
        StepEvent,
        VmError,
    >)
        requires
            old(self).wf(),
            pc.0 == old(self).spec_pc(),
            pc2.0 == (old(self).spec_pc() + 4) % 0x1_0000_0000,
            spec_fetch(*old(self)) is Ok,
            kind == spec_fetch(*old(self)).unwrap().kind,
            kind == InstructionKind::Jal,
        ensures
            final(self).wf(),
            step_dispatch(*old(self), *final(self), spec_fetch(*old(self)).unwrap(), pc2.0, r),
    {
            let instr = match self.memory.execute(pc) {
                Ok(i) => i,
                Err(_) => {
                    proof {
                        assert(false);
                    }
                    return Err(VmError::InvalidArguments);
                }
            };
            if instr.args.len() < 1 {
                return Err(VmError::InvalidArguments);
            }
            let a = match self.load_address(&instr.args[0]) {
                Ok(a) => a,
                Err(e) => {
                    return Err(e);
                }
            };
            self.registers.set(&Register::Ra, pc2.unwrap());
            self.pc = a;
            Ok(StepEvent::Continue)
    }

    #[verifier::rlimit(100)]
    fn step_jalr(&mut self, pc: Address, pc2: Address, kind: InstructionKind) -> (r: Result<
        StepEvent,
        VmError,
    >)
        requires
            old(self).wf(),
            pc.0 == old(self).spec_pc(),
            pc2.0 == (old(self).spec_pc() + 4) % 0x1_0000_0000,
            spec_fetch(*old(self)) is Ok,
            kind == spec_fetch(*old(self)).unwrap().kind,
            kind == InstructionKind::Jalr,
        ensures
            final(self).wf(),
            step_dispatch(*old(self), *final(self), spec_fetch(*old(self)).unwrap(), pc2.0, r),
    {
            let instr = match self.memory.execute(pc) {
                Ok(i) => i,
                Err(_) => {
                    proof {
                        assert(false);
                    }
                    return Err(VmError::InvalidArguments);
                }
            };
            if instr.args.len() < 2 {
                return Err(VmError::InvalidArguments);
            }
            let d = match &instr.args[0] {
                InstructionArg::Register(reg) => *reg,
                _ => {
                    return Err(VmError::InvalidArguments);
                }
            };
            let a = match self.load_address(&instr.args[1]) {
                Ok(a) => a,
                Err(e) => {
                    return Err(e);
                }
            };
            self.registers.set(&d, pc2.unwrap());
            self.pc = a;
            Ok(StepEvent::Continue)
    }

    /// Executes one instruction: fetches at the program counter, advances
    /// the counter past the instruction, and performs the instruction's
    /// dispatch relation.
    pub fn step(&mut self) -> (r: Result<StepEvent, VmError>)
        requires
            old(self).wf(),
        ensures
            final(self).wf(),
            step_post(*old(self), *final(self), r),
    {
        let pc = self.pc;
        let pc2 = Address::new(((pc.unwrap() as u64 + 4) % 0x1_0000_0000) as u32);
        let kind: InstructionKind;
        match self.memory.execute(pc) {
            Ok(instr) => {
                kind = instr.kind;
            }
            Err(e) => {
                return Err(VmError::Memory(e));
            }
        }
        proof {
            assert(spec_fetch(*self) is Ok);
            assert(kind == spec_fetch(*self).unwrap().kind);
        }
        match kind {
            InstructionKind::Nop => {
                self.pc = pc2;
                Ok(StepEvent::Continue)
            }
            InstructionKind::Li | InstructionKind::Move | InstructionKind::La
            | InstructionKind::Lui => self.step_setreg(pc, pc2, kind),
            InstructionKind::Add | InstructionKind::Addu | InstructionKind::Addi
            | InstructionKind::Addiu | InstructionKind::Sub | InstructionKind::Subu
            | InstructionKind::Mult | InstructionKind::Multu | InstructionKind::Div
            | InstructionKind::Divu | InstructionKind::And | InstructionKind::Andi
            | InstructionKind::Or | InstructionKind::Ori | InstructionKind::Xor
            | InstructionKind::Xori | InstructionKind::Nor | InstructionKind::Slt
            | InstructionKind::Slti | InstructionKind::Sltu | InstructionKind::Sltiu
            | InstructionKind::Sll | InstructionKind::Sllv | InstructionKind::Srl
            | InstructionKind::Srlv | InstructionKind::Sra | InstructionKind::Srav => self
                .step_alu(pc, pc2, kind),
            InstructionKind::Beq | InstructionKind::Bne | InstructionKind::Blez
            | InstructionKind::Bgtz => self.step_branch(pc, pc2, kind),
            InstructionKind::Lw => self.step_load_word(pc, pc2, kind),
            InstructionKind::Lb | InstructionKind::Lbu => self.step_load_byte(pc, pc2, kind),
            InstructionKind::Lh | InstructionKind::Lhu => self.step_load_half(pc, pc2, kind),
            InstructionKind::Sw => self.step_store_word(pc, pc2, kind),
            InstructionKind::Sh => self.step_store_half(pc, pc2, kind),
            InstructionKind::Sb => self.step_store_byte(pc, pc2, kind),
            InstructionKind::J | InstructionKind::Jr => self.step_jump(pc, pc2, kind),
            InstructionKind::Jal => self.step_jal(pc, pc2, kind),
            InstructionKind::Jalr => self.step_jalr(pc, pc2, kind),
            InstructionKind::Syscall => self.syscall(pc2),
        }
    }
}

/// Whether `post` is reached from `pre` by exactly `n` executed
/// instructions, each asking to continue.
pub open spec fn steps(pre: VM, post: VM, n: nat) -> bool
    decreases n,
{
    if n == 0 {
        post == pre
    } else {
        exists|mid: VM| steps(pre, mid, (n - 1) as nat) && step_post(mid, post, Ok(StepEvent::Continue))
    }
}

/// Whether `post` is reached from `pre` by some number of executed
/// instructions, each asking to continue.
pub open spec fn reaches(pre: VM, post: VM) -> bool {
    exists|n: nat| steps(pre, post, n)
}

/// The step event a run outcome reports.
pub open spec fn outcome_event(o: RunOutcome) -> StepEvent {
    match o {
        RunOutcome::Running => StepEvent::Continue,
        RunOutcome::Exited => StepEvent::Exit,
        RunOutcome::NeedInput(k) => StepEvent::NeedInput(k),
        RunOutcome::PrintFloatBits(b) => StepEvent::PrintFloatBits(b),
        RunOutcome::PrintDoubleBits(b) => StepEvent::PrintDoubleBits(b),
    }
}

proof fn lemma_steps_extend(a: VM, b: VM, c: VM)
    requires
        reaches(a, b),
        step_post(b, c, Ok(StepEvent::Continue)),
    ensures
        reaches(a, c),
{
    let n = choose|n: nat| steps(a, b, n);
    assert(steps(a, c, n + 1)) by {
        assert(steps(a, b, n) && step_post(b, c, Ok(StepEvent::Continue)));
    }
}

impl VM {
    /// Runs instructions from the current counter until the program exits,
    /// pauses for input or a floating-point print, or faults: the machine
    /// passes through a chain of continuing steps and ends on the one step
    /// that reported the outcome or the error.
    pub fn resume(&mut self, max_steps: u64) -> (r: Result<RunOutcome, VmError>)
        requires
            old(self).wf(),
        ensures
            final(self).wf(),
            match r {
                Ok(out) => if out == RunOutcome::Running {
                    steps(*old(self), *final(self), max_steps as nat)
                } else {
                    exists|mid: VM|
                        reaches(*old(self), mid) && #[trigger] step_post(
                            mid,
                            *final(self),
                            Ok(outcome_event(out)),
                        )
                },
                Err(e) => exists|mid: VM|
                    reaches(*old(self), mid) && #[trigger] step_post(
                        mid,
                        *final(self),
                        Err(e),
                    ),
            },
    {
        proof {
            assert(steps(*old(self), *old(self), 0));
        }
        let ghost mut taken: nat = 0;
        let mut left: u64 = max_steps;
        loop
            invariant_except_break
                self.wf(),
                taken + left == max_steps,
                steps(*old(self), *self, taken),
            ensures
                self.wf(),
                steps(*old(self), *self, max_steps as nat),
            decreases left,
        {
            if left == 0 {
                break ;
            }
            left = left - 1;
            let ghost pre_step = *self;
            match self.step() {
                Ok(StepEvent::Continue) => {
                    proof {
                        assert(steps(*old(self), *self, (taken + 1) as nat)) by {
                            assert(steps(*old(self), pre_step, taken) && step_post(
                                pre_step,
                                *self,
                                Ok(StepEvent::Continue),
                            ));
                        }
                        taken = taken + 1;
                    }
                }
                Ok(StepEvent::Exit) => {
                    proof {
                        assert(reaches(*old(self), pre_step)) by {
                            assert(steps(*old(self), pre_step, taken));
                        }
                        assert(step_post(pre_step, *self, Ok(outcome_event(RunOutcome::Exited))));
                    }
                    return Ok(RunOutcome::Exited);
                }
                Ok(StepEvent::NeedInput(k)) => {
                    proof {
                        assert(reaches(*old(self), pre_step)) by {
                            assert(steps(*old(self), pre_step, taken));
                        }
                        assert(step_post(
                            pre_step,
                            *self,
                            Ok(outcome_event(RunOutcome::NeedInput(k))),
                        ));
                    }
                    return Ok(RunOutcome::NeedInput(k));
                }
                Ok(StepEvent::PrintFloatBits(b)) => {
                    proof {
                        assert(reaches(*old(self), pre_step)) by {
                            assert(steps(*old(self), pre_step, taken));
                        }
                        assert(step_post(
                            pre_step,
                            *self,
                            Ok(outcome_event(RunOutcome::PrintFloatBits(b))),
                        ));
                    }
                    return Ok(RunOutcome::PrintFloatBits(b));
                }
                Ok(StepEvent::PrintDoubleBits(b)) => {
                    proof {
                        assert(reaches(*old(self), pre_step)) by {
                            assert(steps(*old(self), pre_step, taken));
                        }
                        assert(step_post(
                            pre_step,
                            *self,
                            Ok(outcome_event(RunOutcome::PrintDoubleBits(b))),
                        ));
                    }
                    return Ok(RunOutcome::PrintDoubleBits(b));
                }
                Err(e) => {
                    proof {
                        assert(reaches(*old(self), pre_step)) by {
                            assert(steps(*old(self), pre_step, taken));
                        }
                    }
                    return Err(e);
                }
            }
        }
        Ok(RunOutcome::Running)
    }

    /// Runs the program from `entrypoint` until it exits, pauses for input
    /// or a floating-point print, faults, or uses up the step budget.
    pub fn execute(&mut self, entrypoint: Address, max_steps: u64) -> (r: Result<
        RunOutcome,
        VmError,
    >)
        requires
            old(self).wf(),
        ensures
            final(self).wf(),
            exists|start: VM|
                #[trigger] only_pc(*old(self), start, entrypoint.0) && match r {
                    Ok(out) => if out == RunOutcome::Running {
                        steps(start, *final(self), max_steps as nat)
                    } else {
                        exists|mid: VM|
                            reaches(start, mid) && #[trigger] step_post(
                                mid,
                                *final(self),
                                Ok(outcome_event(out)),
                            )
                    },
                    Err(e) => exists|mid: VM|
                        reaches(start, mid) && #[trigger] step_post(mid, *final(self), Err(e)),
                },
    {
        self.pc = entrypoint;
        let ghost start = *self;
        proof {
            assert(only_pc(*old(self), start, entrypoint.0));
        }
        let r = self.resume(max_steps);
        r
    }
}

/// `jal` stores the return address: after a step that fetched a `jal`, the
/// return-address register holds the address of the instruction after the
/// `jal`, and the counter holds the jump target.
#[verifier::rlimit(100)]
pub proof fn lemma_jal_links_return(pre: VM, post: VM, r: Result<StepEvent, VmError>)
    requires
        pre.wf(),
        step_post(pre, post, r),
        spec_fetch(pre) matches Ok(i) && i.kind == InstructionKind::Jal,
        r == Ok::<StepEvent, VmError>(StepEvent::Continue),
    ensures
        post.regs()@[Register::Ra.idx()] == (pre.spec_pc() + 4) % 0x1_0000_0000,
        spec_load_address(pre, spec_fetch(pre).unwrap().args@[0]) == Ok::<u32, VmError>(
            post.spec_pc(),
        ),
{
    let i = spec_fetch(pre).unwrap();
    let pc2 = ((pre.spec_pc() + 4) % 0x1_0000_0000) as u32;
    assert(step_dispatch(pre, post, i, pc2, r));
    assert(i.args@.len() >= 1);
    assert(spec_load_address(pre, i.args@[0]) is Ok);
    let a = spec_load_address(pre, i.args@[0]).unwrap();
    assert(only_reg_pc(pre, post, Register::Ra, pc2, a));
    assert(post.regs()@ == upd_reg(pre.regs()@, Register::Ra, pc2));
}

/// `jr` returns through a register: after a step that fetched a `jr $r`,
/// the counter holds the value `$r` held before. With the return-address
/// register untouched since a `jal`, the `jr $ra` lands on the instruction
/// immediately after that `jal`.
#[verifier::rlimit(100)]
pub proof fn lemma_jr_returns(pre: VM, post: VM, r: Result<StepEvent, VmError>, reg: Register)
    requires
        step_post(pre, post, r),
        spec_fetch(pre) matches Ok(i) && i.kind == InstructionKind::Jr && i.args@.len() >= 1
            && i.args@[0] == InstructionArg::Register(reg),
        r == Ok::<StepEvent, VmError>(StepEvent::Continue),
    ensures
        post.spec_pc() == pre.reg(reg),
{
    let i = spec_fetch(pre).unwrap();
    let pc2 = ((pre.spec_pc() + 4) % 0x1_0000_0000) as u32;
    assert(step_dispatch(pre, post, i, pc2, r));
    assert(spec_load_address(pre, i.args@[0]) == Ok::<u32, VmError>(pre.reg(reg)));
}

/// A call returns to the instruction after the call: a step that executes
/// `jal` leaves the address of the following instruction in `$ra`; any run
/// that keeps `$ra` untouched and then executes `jr $ra` sets the counter
/// to exactly that following instruction.
#[verifier::rlimit(100)]
pub proof fn lemma_call_returns(
    s1: VM,
    s2: VM,
    s3: VM,
    s4: VM,
    r1: Result<StepEvent, VmError>,
    r2: Result<StepEvent, VmError>,
)
    requires
        s1.wf(),
        step_post(s1, s2, r1),
        spec_fetch(s1) matches Ok(i) && i.kind == InstructionKind::Jal,
        r1 == Ok::<StepEvent, VmError>(StepEvent::Continue),
        s3.reg(Register::Ra) == s2.reg(Register::Ra),
        step_post(s3, s4, r2),
        spec_fetch(s3) matches Ok(i) && i.kind == InstructionKind::Jr && i.args@.len() >= 1
            && i.args@[0] == InstructionArg::Register(Register::Ra),
        r2 == Ok::<StepEvent, VmError>(StepEvent::Continue),
    ensures
        s4.spec_pc() == (s1.spec_pc() + 4) % 0x1_0000_0000,
{
    lemma_jal_links_return(s1, s2, r1);
    lemma_jr_returns(s3, s4, r2, Register::Ra);
}

/// A stored byte reads back: after a step that stored the low byte of a
/// word at an address, a step that loads a byte from that address puts it
/// in its destination — sign-extended by `lb`, as it stands by `lbu`.
#[verifier::rlimit(100)]
pub proof fn lemma_byte_store_load(
    s1: VM,
    s2: VM,
    s3: VM,
    r1: Result<StepEvent, VmError>,
    r2: Result<StepEvent, VmError>,
    a: u32,
    v: u32,
)
    requires
        s1.wf(),
        s2.wf(),
        step_post(s1, s2, r1),
        r1 == Ok::<StepEvent, VmError>(StepEvent::Continue),
        spec_fetch(s1) matches Ok(i) && i.kind == InstructionKind::Sb && i.args@.len() >= 2
            && spec_load_word(s1, i.args@[0]) == Ok::<u32, VmError>(v) && spec_load_address(
            s1,
            i.args@[1],
        ) == Ok::<u32, VmError>(a),
        step_post(s2, s3, r2),
        r2 == Ok::<StepEvent, VmError>(StepEvent::Continue),
        spec_fetch(s2) matches Ok(i2) && (i2.kind == InstructionKind::Lb || i2.kind
            == InstructionKind::Lbu) && i2.args@.len() >= 2 && i2.args@[0] is Register && !(
        i2.args@[0]->Register_0 is Zero) && spec_load_address(s2, i2.args@[1]) == Ok::<
            u32,
            VmError,
        >(a),
    ensures
        s3.regs()@[spec_fetch(s2).unwrap().args@[0]->Register_0.idx()] == (if spec_fetch(
            s2,
        ).unwrap().kind == InstructionKind::Lb && v % 0x100 >= 0x80 {
            ((v % 0x100) + 0xFFFF_FF00) as int
        } else {
            (v % 0x100) as int
        }),
{
    let i = spec_fetch(s1).unwrap();
    let pc2 = ((s1.spec_pc() + 4) % 0x1_0000_0000) as u32;
    assert(step_dispatch(s1, s2, i, pc2, r1));
    assert(store_pc(s1, s2, a, seq![(v % 0x100) as u8], pc2));
    assert(s2.mem().byte_at(((a + 0) as int) as u32) == seq![(v % 0x100) as u8][0]);
    assert(((a + 0) as int) as u32 == a);
    assert(s2.mem().byte_at(a) == (v % 0x100) as u8);
    let i2 = spec_fetch(s2).unwrap();
    let pc3 = ((s2.spec_pc() + 4) % 0x1_0000_0000) as u32;
    assert(step_dispatch(s2, s3, i2, pc3, r2));
    let d = i2.args@[0]->Register_0;
    assert(only_reg_pc(s2, s3, d, load_value(s2.mem(), i2.kind, a), pc3));
}

/// A label's datum reads back: after a step that executed `la r, L`, a step
/// that executes `lw` through `r` with no displacement puts the word at the
/// label's address into its destination.
#[verifier::rlimit(100)]
pub proof fn lemma_la_then_lw(
    s1: VM,
    s2: VM,
    s3: VM,
    r1: Result<StepEvent, VmError>,
    r2: Result<StepEvent, VmError>,
    ad: u32,
)
    requires
        s1.wf(),
        s2.wf(),
        step_post(s1, s2, r1),
        r1 == Ok::<StepEvent, VmError>(StepEvent::Continue),
        spec_fetch(s1) matches Ok(i) && i.kind == InstructionKind::La && i.args@.len() >= 2
            && i.args@[0] is Register && !(i.args@[0]->Register_0 is Zero) && spec_load_address(
            s1,
            i.args@[1],
        ) == Ok::<u32, VmError>(ad),
        step_post(s2, s3, r2),
        r2 == Ok::<StepEvent, VmError>(StepEvent::Continue),
        spec_fetch(s2) matches Ok(i2) && i2.kind == InstructionKind::Lw && i2.args@.len() >= 2
            && i2.args@[0] is Register && !(i2.args@[0]->Register_0 is Zero) && i2.args@[1]
            == InstructionArg::RegisterOffset(0, spec_fetch(s1).unwrap().args@[0]->Register_0),
    ensures
        s2.reg(spec_fetch(s1).unwrap().args@[0]->Register_0) == ad,
        s2.mem() == s1.mem(),
        s3.regs()@[spec_fetch(s2).unwrap().args@[0]->Register_0.idx()] == le32(
            s1.mem().byte_at(ad),
            s1.mem().byte_at((ad + 1) as u32),
            s1.mem().byte_at((ad + 2) as u32),
            s1.mem().byte_at((ad + 3) as u32),
        ),
{
    let i = spec_fetch(s1).unwrap();
    let pc2 = ((s1.spec_pc() + 4) % 0x1_0000_0000) as u32;
    assert(step_dispatch(s1, s2, i, pc2, r1));
    let rr = i.args@[0]->Register_0;
    assert(only_reg_pc(s1, s2, rr, ad, pc2));
    assert(s2.regs()@ == upd_reg(s1.regs()@, rr, ad));
    assert(s2.reg(rr) == ad);
    let i2 = spec_fetch(s2).unwrap();
    let pc3 = ((s2.spec_pc() + 4) % 0x1_0000_0000) as u32;
    assert(step_dispatch(s2, s3, i2, pc3, r2));
    assert(spec_load_address(s2, i2.args@[1]) == Ok::<u32, VmError>((((ad + 0) % 0x1_0000_0000)) as u32));
    let d = i2.args@[0]->Register_0;
    assert(only_reg_pc(s2, s3, d, load_value(s2.mem(), i2.kind, ad), pc3));
}

/// Every step keeps every present page present with its protection: the
/// text pages a load left read-execute are never writable in any reachable
/// state.
#[verifier::rlimit(100)]
pub proof fn lemma_step_preserves_protections(pre: VM, post: VM, r: Result<StepEvent, VmError>)
    requires
        step_post(pre, post, r),
    ensures
        forall|pn: u32|
            pre.mem().table().has_page(pn) ==> post.mem().table().has_page(pn) && post.mem()
                .table().page_prot(pn) == pre.mem().table().page_prot(pn),
{
}

} // verus!
