use vstd::prelude::*;

verus! {

use crate::address::Address;
use crate::memory::{LabelMap, MemoryError};
use crate::program::{Immediate, Instruction, InstructionArg, InstructionKind};
use crate::registers::Register;

/// An encoded 32-bit instruction word.
pub type EncodedInstruction = u32;

/// The operand fields of an R-format instruction.
#[derive(Clone, Copy, Debug, PartialEq)]
pub struct RegisterFormat {
    /// The destination register field.
    pub rd: Option<Register>,
    /// The first source register field.
    pub rs: Option<Register>,
    /// The second source register field.
    pub rt: Option<Register>,
    /// The shift amount field.
    pub shamt: Option<u8>,
}

/// The operand fields of an I-format instruction.
#[derive(Clone, Copy, Debug, PartialEq)]
pub struct ImmediateFormat {
    /// The target register field.
    pub rt: Option<Register>,
    /// The source register field.
    pub rs: Option<Register>,
    /// The 16-bit immediate field.
    pub imm: Immediate,
}

/// The operand field of a J-format instruction.
#[derive(Clone, Copy, Debug, PartialEq)]
pub struct JumpFormat {
    /// The target address field.
    pub address: Address,
}

/// The operand fields of an instruction, by format.
#[derive(Clone, Copy, Debug, PartialEq)]
pub enum InstructionFormat {
    /// R-format fields.
    Register(RegisterFormat),
    /// I-format fields.
    Immediate(ImmediateFormat),
    /// J-format fields.
    Jump(JumpFormat),
}

impl InstructionFormat {
    /// R-format fields from the given registers and shift amount.
    pub fn register(
        rd: Option<Register>,
        rs: Option<Register>,
        rt: Option<Register>,
        shamt: Option<u8>,
    ) -> (r: Self)
        ensures
            r == InstructionFormat::Register(RegisterFormat { rd, rs, rt, shamt }),
    {
        Self::Register(RegisterFormat { rd, rs, rt, shamt })
    }

    /// I-format fields from the given registers and immediate.
    pub fn immediate(rt: Option<Register>, rs: Option<Register>, imm: Immediate) -> (r: Self)
        ensures
            r == InstructionFormat::Immediate(ImmediateFormat { rt, rs, imm }),
    {
        Self::Immediate(ImmediateFormat { rt, rs, imm })
    }

    /// J-format fields from the given target address.
    pub fn jump(address: Address) -> (r: Self)
        ensures
            r == InstructionFormat::Jump(JumpFormat { address }),
    {
        Self::Jump(JumpFormat { address })
    }

    /// Whether this is an R-format.
    pub fn is_register(&self) -> (r: bool)
        ensures
            r == (self is Register),
    {
        matches!(self, Self::Register { .. })
    }

    /// The R-format fields.
    pub fn unwrap_register(&self) -> (r: &RegisterFormat)
        requires
            (self is Register),
        ensures
            *self == InstructionFormat::Register(*r),
    {
        match self {
            Self::Register(r) => r,
            _ => unreached(),
        }
    }

    /// Whether this is an I-format.
    pub fn is_immediate(&self) -> (r: bool)
        ensures
            r == (self is Immediate),
    {
        matches!(self, Self::Immediate { .. })
    }

    /// The I-format fields.
    pub fn unwrap_immediate(&self) -> (r: &ImmediateFormat)
        requires
            (self is Immediate),
        ensures
            *self == InstructionFormat::Immediate(*r),
    {
        match self {
            Self::Immediate(i) => i,
            _ => unreached(),
        }
    }

    /// Whether this is a J-format.
    pub fn is_jump(&self) -> (r: bool)
        ensures
            r == (self is Jump),
    {
        matches!(self, Self::Jump { .. })
    }

    /// The J-format fields.
    pub fn unwrap_jump(&self) -> (r: &JumpFormat)
        requires
            (self is Jump),
        ensures
            *self == InstructionFormat::Jump(*r),
    {
        match self {
            Self::Jump(j) => j,
            _ => unreached(),
        }
    }
}

/// An instruction ready for encoding: its opcode, its function code, and its
/// operand fields.
#[derive(Clone, Copy, Debug, PartialEq)]
pub struct InstructionInfo {
    /// The 6-bit opcode field.
    pub opcode: u8,
    /// The 6-bit function code field of R-format instructions.
    pub funct: u8,
    /// The operand fields.
    pub format: InstructionFormat,
}

impl InstructionInfo {
    /// Packs the fields of an instruction.
    pub fn new(format: InstructionFormat, opcode: u8, funct: u8) -> (r: Self)
        ensures
            r == (InstructionInfo { opcode, funct, format }),
    {
        Self { opcode, funct, format }
    }
}

/// The encoding index of an optional register field; an absent field
/// encodes as 0.
pub open spec fn reg_field(r: Option<Register>) -> int {
    match r {
        Some(reg) => reg.idx(),
        None => 0,
    }
}

/// The fields of the instruction at `k` within `args`, where it is a
/// register.
pub open spec fn args_reg(args: Seq<InstructionArg>, k: int) -> Option<Register> {
    if 0 <= k < args.len() {
        match args[k] {
            InstructionArg::Register(r) => Some(r),
            _ => None,
        }
    } else {
        None
    }
}

/// The immediate at `k` within `args`, where it is one.
pub open spec fn args_imm(args: Seq<InstructionArg>, k: int) -> Option<Immediate> {
    if 0 <= k < args.len() {
        match args[k] {
            InstructionArg::Immediate(i) => Some(i),
            _ => None,
        }
    } else {
        None
    }
}

/// The operand walk of the encoder: the fields each instruction kind draws
/// from its arguments, with the opcode and function code of the kind, or
/// the error of a malformed operand list.
pub open spec fn spec_info(i: Instruction, labels: LabelMap) -> Result<
    InstructionInfo,
    MemoryError,
> {
    let args = i.args@;
    match i.kind {
        InstructionKind::Add => spec_info_rrr(args, 0x20),
        InstructionKind::Addu => spec_info_rrr(args, 0x21),
        InstructionKind::Sub => spec_info_rrr(args, 0x22),
        InstructionKind::Subu => spec_info_rrr(args, 0x23),
        InstructionKind::And => spec_info_rrr(args, 0x24),
        InstructionKind::Or => spec_info_rrr(args, 0x25),
        InstructionKind::Xor => spec_info_rrr(args, 0x26),
        InstructionKind::Nor => spec_info_rrr(args, 0x27),
        InstructionKind::Slt => spec_info_rrr(args, 0x2A),
        InstructionKind::Sltu => spec_info_rrr(args, 0x2B),
        InstructionKind::Mult => spec_info_rrr(args, 0x18),
        InstructionKind::Multu => spec_info_rrr(args, 0x19),
        InstructionKind::Addi => spec_info_rri(args, 0x08),
        InstructionKind::Addiu => spec_info_rri(args, 0x09),
        InstructionKind::Andi => spec_info_rri(args, 0x0C),
        InstructionKind::Ori => spec_info_rri(args, 0x0D),
        InstructionKind::Xori => spec_info_rri(args, 0x0E),
        InstructionKind::Slti => spec_info_rri(args, 0x0A),
        InstructionKind::Sltiu => spec_info_rri(args, 0x0B),
        InstructionKind::Beq => spec_info_rri(args, 0x04),
        InstructionKind::Bne => spec_info_rri(args, 0x05),
        InstructionKind::Blez => spec_info_ri(args, 0x06),
        InstructionKind::Bgtz => spec_info_ri(args, 0x07),
        InstructionKind::Sll => spec_info_shift(args, 0x00),
        InstructionKind::Srl => spec_info_shift(args, 0x02),
        InstructionKind::Sra => spec_info_shift(args, 0x03),
        InstructionKind::Sllv => spec_info_shiftv(args, 0x04),
        InstructionKind::Srlv => spec_info_shiftv(args, 0x06),
        InstructionKind::Srav => spec_info_shiftv(args, 0x07),
        InstructionKind::Div => spec_info_rr_src(args, 0x1A),
        InstructionKind::Divu => spec_info_rr_src(args, 0x1B),
        InstructionKind::Jalr => spec_info_jr(args, 0x09),
        InstructionKind::Jr => spec_info_jr(args, 0x08),
        InstructionKind::J => spec_info_jump(args, labels, 0x02),
        InstructionKind::Jal => spec_info_jump(args, labels, 0x03),
        InstructionKind::Lb => spec_info_mem(args, 0x20),
        InstructionKind::Lbu => spec_info_mem(args, 0x24),
        InstructionKind::Lh => spec_info_mem(args, 0x21),
        InstructionKind::Lhu => spec_info_mem(args, 0x25),
        InstructionKind::Lw => spec_info_mem(args, 0x23),
        InstructionKind::Sb => spec_info_mem(args, 0x28),
        InstructionKind::Sh => spec_info_mem(args, 0x29),
        InstructionKind::Sw => spec_info_mem(args, 0x2B),
        InstructionKind::Lui => match args_reg(args, 0) {
            Some(rt) => match args_imm(args, 1) {
                Some(imm) => Ok(
                    InstructionInfo {
                        opcode: 0x0F,
                        funct: 0,
                        format: InstructionFormat::Immediate(
                            ImmediateFormat { rt: None, rs: Some(rt), imm },
                        ),
                    },
                ),
                None => Err(MemoryError::InvalidInstruction),
            },
            None => Err(MemoryError::InvalidInstruction),
        },
        InstructionKind::La => match args_reg(args, 0) {
            Some(r) => if 1 < args.len() && args[1] is Label {
                match labels.spec_get(args[1]->Label_0@) {
                    Some(a) => Ok(
                        InstructionInfo {
                            opcode: 0,
                            funct: 0,
                            format: InstructionFormat::Immediate(
                                ImmediateFormat {
                                    rt: None,
                                    rs: Some(r),
                                    imm: (a.0 % 0x10000) as u16,
                                },
                            ),
                        },
                    ),
                    None => Err(MemoryError::InvalidLabel),
                }
            } else {
                Err(MemoryError::InvalidInstruction)
            },
            None => Err(MemoryError::InvalidInstruction),
        },
        InstructionKind::Li => match args_reg(args, 0) {
            Some(r) => match args_imm(args, 1) {
                Some(imm) => Ok(
                    InstructionInfo {
                        opcode: 0,
                        funct: 0,
                        format: InstructionFormat::Immediate(
                            ImmediateFormat { rt: None, rs: Some(r), imm },
                        ),
                    },
                ),
                None => Err(MemoryError::InvalidInstruction),
            },
            None => Err(MemoryError::InvalidInstruction),
        },
        InstructionKind::Move => match (args_reg(args, 0), args_reg(args, 1)) {
            (Some(rd), Some(rs)) => Ok(
                InstructionInfo {
                    opcode: 0,
                    funct: 0,
                    format: InstructionFormat::Register(
                        RegisterFormat { rd: Some(rd), rs: Some(rs), rt: None, shamt: None },
                    ),
                },
            ),
            _ => Err(MemoryError::InvalidInstruction),
        },
        InstructionKind::Nop => Ok(
            InstructionInfo {
                opcode: 0,
                funct: 0,
                format: InstructionFormat::Register(
                    RegisterFormat { rd: None, rs: None, rt: None, shamt: None },
                ),
            },
        ),
        InstructionKind::Syscall => Ok(
            InstructionInfo {
                opcode: 0,
                funct: 0x0C,
                format: InstructionFormat::Register(
                    RegisterFormat { rd: None, rs: None, rt: None, shamt: None },
                ),
            },
        ),
    }
}

/// Three register operands `rd, rs, rt` of an R-format instruction.
pub open spec fn spec_info_rrr(args: Seq<InstructionArg>, funct: u8) -> Result<
    InstructionInfo,
    MemoryError,
> {
    match (args_reg(args, 0), args_reg(args, 1), args_reg(args, 2)) {
        (Some(rd), Some(rs), Some(rt)) => Ok(
            InstructionInfo {
                opcode: 0,
                funct,
                format: InstructionFormat::Register(
                    RegisterFormat { rd: Some(rd), rs: Some(rs), rt: Some(rt), shamt: None },
                ),
            },
        ),
        _ => Err(MemoryError::InvalidInstruction),
    }
}

/// Two source registers `rs, rt` of an R-format instruction without a
/// destination field.
pub open spec fn spec_info_rr_src(args: Seq<InstructionArg>, funct: u8) -> Result<
    InstructionInfo,
    MemoryError,
> {
    match (args_reg(args, 0), args_reg(args, 1)) {
        (Some(rs), Some(rt)) => Ok(
            InstructionInfo {
                opcode: 0,
                funct,
                format: InstructionFormat::Register(
                    RegisterFormat { rd: None, rs: Some(rs), rt: Some(rt), shamt: None },
                ),
            },
        ),
        _ => Err(MemoryError::InvalidInstruction),
    }
}

/// One register operand `rs` of an R-format jump-through-register.
pub open spec fn spec_info_jr(args: Seq<InstructionArg>, funct: u8) -> Result<
    InstructionInfo,
    MemoryError,
> {
    match args_reg(args, 0) {
        Some(rs) => Ok(
            InstructionInfo {
                opcode: 0,
                funct,
                format: InstructionFormat::Register(
                    RegisterFormat { rd: None, rs: Some(rs), rt: None, shamt: None },
                ),
            },
        ),
        None => Err(MemoryError::InvalidInstruction),
    }
}

/// A shift by immediate: `rd, rt, shamt`.
pub open spec fn spec_info_shift(args: Seq<InstructionArg>, funct: u8) -> Result<
    InstructionInfo,
    MemoryError,
> {
    match (args_reg(args, 0), args_reg(args, 1), args_imm(args, 2)) {
        (Some(rd), Some(rt), Some(imm)) => Ok(
            InstructionInfo {
                opcode: 0,
                funct,
                format: InstructionFormat::Register(
                    RegisterFormat {
                        rd: Some(rd),
                        rs: None,
                        rt: Some(rt),
                        shamt: Some((imm % 0x100) as u8),
                    },
                ),
            },
        ),
        _ => Err(MemoryError::InvalidInstruction),
    }
}

/// A shift by register: `rd, rt, rs`.
pub open spec fn spec_info_shiftv(args: Seq<InstructionArg>, funct: u8) -> Result<
    InstructionInfo,
    MemoryError,
> {
    match (args_reg(args, 0), args_reg(args, 1), args_reg(args, 2)) {
        (Some(rd), Some(rt), Some(rs)) => Ok(
            InstructionInfo {
                opcode: 0,
                funct,
                format: InstructionFormat::Register(
                    RegisterFormat { rd: Some(rd), rs: Some(rs), rt: Some(rt), shamt: None },
                ),
            },
        ),
        _ => Err(MemoryError::InvalidInstruction),
    }
}

/// Two registers and an immediate of an I-format instruction: `rt, rs, imm`.
pub open spec fn spec_info_rri(args: Seq<InstructionArg>, opcode: u8) -> Result<
    InstructionInfo,
    MemoryError,
> {
    match (args_reg(args, 0), args_reg(args, 1), args_imm(args, 2)) {
        (Some(rt), Some(rs), Some(imm)) => Ok(
            InstructionInfo {
                opcode,
                funct: 0,
                format: InstructionFormat::Immediate(
                    ImmediateFormat { rt: Some(rt), rs: Some(rs), imm },
                ),
            },
        ),
        _ => Err(MemoryError::InvalidInstruction),
    }
}

/// One register and an immediate of an I-format instruction: `rt, imm`.
pub open spec fn spec_info_ri(args: Seq<InstructionArg>, opcode: u8) -> Result<
    InstructionInfo,
    MemoryError,
> {
    match (args_reg(args, 0), args_imm(args, 1)) {
        (Some(rt), Some(imm)) => Ok(
            InstructionInfo {
                opcode,
                funct: 0,
                format: InstructionFormat::Immediate(
                    ImmediateFormat { rt: Some(rt), rs: None, imm },
                ),
            },
        ),
        _ => Err(MemoryError::InvalidInstruction),
    }
}

/// A load or store: a target register and a base-plus-displacement operand.
pub open spec fn spec_info_mem(args: Seq<InstructionArg>, opcode: u8) -> Result<
    InstructionInfo,
    MemoryError,
> {
    if args_reg(args, 0) is Some && 1 < args.len() && args[1] is RegisterOffset {
        Ok(
            InstructionInfo {
                opcode,
                funct: 0,
                format: InstructionFormat::Immediate(
                    ImmediateFormat {
                        rt: Some(args[1]->RegisterOffset_1),
                        rs: args_reg(args, 0),
                        imm: args[1]->RegisterOffset_0,
                    },
                ),
            },
        )
    } else {
        Err(MemoryError::InvalidInstruction)
    }
}

/// A jump to a label: the label must resolve.
pub open spec fn spec_info_jump(args: Seq<InstructionArg>, labels: LabelMap, opcode: u8) -> Result<
    InstructionInfo,
    MemoryError,
> {
    if 0 < args.len() && args[0] is Label {
        match labels.spec_get(args[0]->Label_0@) {
            Some(a) => Ok(
                InstructionInfo {
                    opcode,
                    funct: 0,
                    format: InstructionFormat::Jump(JumpFormat { address: a }),
                },
            ),
            None => Err(MemoryError::InvalidLabel),
        }
    } else {
        Err(MemoryError::InvalidInstruction)
    }
}

/// The shift amount of an optional shift field; an absent field encodes as 0.
pub open spec fn shamt_field(s: Option<u8>) -> int {
    match s {
        Some(v) => v as int,
        None => 0,
    }
}

/// The packed R-format word:
/// `[opcode:6 | rs:5 | rt:5 | rd:5 | shamt:5 | funct:6]`.
pub open spec fn spec_enc_r(opcode: int, rs: int, rt: int, rd: int, shamt: int, funct: int) -> u32 {
    (opcode * 0x400_0000 + rs * 0x20_0000 + rt * 0x1_0000 + rd * 0x800 + shamt * 0x40 + funct) as u32
}

/// The packed I-format word: `[opcode:6 | rs:5 | rt:5 | imm:16]`.
pub open spec fn spec_enc_i(opcode: int, rs: int, rt: int, imm: int) -> u32 {
    (opcode * 0x400_0000 + rs * 0x20_0000 + rt * 0x1_0000 + imm) as u32
}

/// The packed J-format word: `[opcode:6 | target:26]`.
pub open spec fn spec_enc_j(opcode: int, target: int) -> u32 {
    (opcode * 0x400_0000 + target) as u32
}

/// The word an instruction encodes to: its fields packed by format, after
/// the field-width checks. A shift amount or jump target too wide for its
/// slot is an `InvalidInstruction` error.
pub open spec fn spec_encode(i: Instruction, labels: LabelMap) -> Result<u32, MemoryError> {
    match spec_info(i, labels) {
        Err(e) => Err(e),
        Ok(info) => match info.format {
            InstructionFormat::Register(f) => if shamt_field(f.shamt) < 32 {
                Ok(
                    spec_enc_r(
                        info.opcode as int,
                        reg_field(f.rs),
                        reg_field(f.rt),
                        reg_field(f.rd),
                        shamt_field(f.shamt),
                        info.funct as int,
                    ),
                )
            } else {
                Err(MemoryError::InvalidInstruction)
            },
            InstructionFormat::Immediate(f) => Ok(
                spec_enc_i(info.opcode as int, reg_field(f.rs), reg_field(f.rt), f.imm as int),
            ),
            InstructionFormat::Jump(f) => if f.address.0 < 0x400_0000 {
                Ok(spec_enc_j(info.opcode as int, f.address.0 as int))
            } else {
                Err(MemoryError::InvalidInstruction)
            },
        },
    }
}

/// The register of the argument at `k`, where it is one.
fn get_reg(args: &Vec<InstructionArg>, k: usize) -> (r: Option<Register>)
    ensures
        r == args_reg(args@, k as int),
{
    if k < args.len() {
        match &args[k] {
            InstructionArg::Register(reg) => Some(*reg),
            _ => None,
        }
    } else {
        None
    }
}

/// The immediate of the argument at `k`, where it is one.
fn get_imm(args: &Vec<InstructionArg>, k: usize) -> (r: Option<Immediate>)
    ensures
        r == args_imm(args@, k as int),
{
    if k < args.len() {
        match &args[k] {
            InstructionArg::Immediate(i) => Some(*i),
            _ => None,
        }
    } else {
        None
    }
}

fn info_rrr(args: &Vec<InstructionArg>, funct: u8) -> (r: Result<InstructionInfo, MemoryError>)
    ensures
        r == spec_info_rrr(args@, funct),
{
    match (get_reg(args, 0), get_reg(args, 1), get_reg(args, 2)) {
        (Some(rd), Some(rs), Some(rt)) => Ok(
            InstructionInfo::new(
                InstructionFormat::register(Some(rd), Some(rs), Some(rt), None),
                0,
                funct,
            ),
        ),
        _ => Err(MemoryError::InvalidInstruction),
    }
}

fn info_rr_src(args: &Vec<InstructionArg>, funct: u8) -> (r: Result<InstructionInfo, MemoryError>)
    ensures
        r == spec_info_rr_src(args@, funct),
{
    match (get_reg(args, 0), get_reg(args, 1)) {
        (Some(rs), Some(rt)) => Ok(
            InstructionInfo::new(
                InstructionFormat::register(None, Some(rs), Some(rt), None),
                0,
                funct,
            ),
        ),
        _ => Err(MemoryError::InvalidInstruction),
    }
}

fn info_jr(args: &Vec<InstructionArg>, funct: u8) -> (r: Result<InstructionInfo, MemoryError>)
    ensures
        r == spec_info_jr(args@, funct),
{
    match get_reg(args, 0) {
        Some(rs) => Ok(
            InstructionInfo::new(InstructionFormat::register(None, Some(rs), None, None), 0, funct),
        ),
        None => Err(MemoryError::InvalidInstruction),
    }
}

fn info_shift(args: &Vec<InstructionArg>, funct: u8) -> (r: Result<InstructionInfo, MemoryError>)
    ensures
        r == spec_info_shift(args@, funct),
{
    match (get_reg(args, 0), get_reg(args, 1), get_imm(args, 2)) {
        (Some(rd), Some(rt), Some(imm)) => Ok(
            InstructionInfo::new(
                InstructionFormat::register(
                    Some(rd),
                    None,
                    Some(rt),
                    Some((imm % 0x100) as u8),
                ),
                0,
                funct,
            ),
        ),
        _ => Err(MemoryError::InvalidInstruction),
    }
}

fn info_shiftv(args: &Vec<InstructionArg>, funct: u8) -> (r: Result<InstructionInfo, MemoryError>)
    ensures
        r == spec_info_shiftv(args@, funct),
{
    match (get_reg(args, 0), get_reg(args, 1), get_reg(args, 2)) {
        (Some(rd), Some(rt), Some(rs)) => Ok(
            InstructionInfo::new(
                InstructionFormat::register(Some(rd), Some(rs), Some(rt), None),
                0,
                funct,
            ),
        ),
        _ => Err(MemoryError::InvalidInstruction),
    }
}

fn info_rri(args: &Vec<InstructionArg>, opcode: u8) -> (r: Result<InstructionInfo, MemoryError>)
    ensures
        r == spec_info_rri(args@, opcode),
{
    match (get_reg(args, 0), get_reg(args, 1), get_imm(args, 2)) {
        (Some(rt), Some(rs), Some(imm)) => Ok(
            InstructionInfo::new(
                InstructionFormat::immediate(Some(rt), Some(rs), imm),
                opcode,
                0,
            ),
        ),
        _ => Err(MemoryError::InvalidInstruction),
    }
}

fn info_ri(args: &Vec<InstructionArg>, opcode: u8) -> (r: Result<InstructionInfo, MemoryError>)
    ensures
        r == spec_info_ri(args@, opcode),
{
    match (get_reg(args, 0), get_imm(args, 1)) {
        (Some(rt), Some(imm)) => Ok(
            InstructionInfo::new(InstructionFormat::immediate(Some(rt), None, imm), opcode, 0),
        ),
        _ => Err(MemoryError::InvalidInstruction),
    }
}

fn info_mem(args: &Vec<InstructionArg>, opcode: u8) -> (r: Result<InstructionInfo, MemoryError>)
    ensures
        r == spec_info_mem(args@, opcode),
{
    match get_reg(args, 0) {
        Some(target) => {
            if 1 < args.len() {
                match &args[1] {
                    InstructionArg::RegisterOffset(off, base) => Ok(
                        InstructionInfo::new(
                            InstructionFormat::immediate(Some(*base), Some(target), *off),
                            opcode,
                            0,
                        ),
                    ),
                    _ => Err(MemoryError::InvalidInstruction),
                }
            } else {
                Err(MemoryError::InvalidInstruction)
            }
        }
        None => Err(MemoryError::InvalidInstruction),
    }
}

fn info_jump(args: &Vec<InstructionArg>, labels: &LabelMap, opcode: u8) -> (r: Result<
    InstructionInfo,
    MemoryError,
>)
    requires
        labels.wf(),
    ensures
        r == spec_info_jump(args@, *labels, opcode),
{
    if 0 < args.len() {
        match &args[0] {
            InstructionArg::Label(l) => match labels.get(l.as_str()) {
                Some(a) => Ok(
                    InstructionInfo::new(InstructionFormat::jump(a), opcode, 0),
                ),
                None => Err(MemoryError::InvalidLabel),
            },
            _ => Err(MemoryError::InvalidInstruction),
        }
    } else {
        Err(MemoryError::InvalidInstruction)
    }
}

/// The operand walk of the encoder: draws each kind's fields from its
/// argument list in the kind's fixed order.
pub fn info(instruction: &Instruction, labels: &LabelMap) -> (r: Result<
    InstructionInfo,
    MemoryError,
>)
    requires
        labels.wf(),
    ensures
        r == spec_info(*instruction, *labels),
{
    let args = &instruction.args;
    match instruction.kind {
        InstructionKind::Add => info_rrr(args, 0x20),
        InstructionKind::Addu => info_rrr(args, 0x21),
        InstructionKind::Sub => info_rrr(args, 0x22),
        InstructionKind::Subu => info_rrr(args, 0x23),
        InstructionKind::And => info_rrr(args, 0x24),
        InstructionKind::Or => info_rrr(args, 0x25),
        InstructionKind::Xor => info_rrr(args, 0x26),
        InstructionKind::Nor => info_rrr(args, 0x27),
        InstructionKind::Slt => info_rrr(args, 0x2A),
        InstructionKind::Sltu => info_rrr(args, 0x2B),
        InstructionKind::Mult => info_rrr(args, 0x18),
        InstructionKind::Multu => info_rrr(args, 0x19),
        InstructionKind::Addi => info_rri(args, 0x08),
        InstructionKind::Addiu => info_rri(args, 0x09),
        InstructionKind::Andi => info_rri(args, 0x0C),
        InstructionKind::Ori => info_rri(args, 0x0D),
        InstructionKind::Xori => info_rri(args, 0x0E),
        InstructionKind::Slti => info_rri(args, 0x0A),
        InstructionKind::Sltiu => info_rri(args, 0x0B),
        InstructionKind::Beq => info_rri(args, 0x04),
        InstructionKind::Bne => info_rri(args, 0x05),
        InstructionKind::Blez => info_ri(args, 0x06),
        InstructionKind::Bgtz => info_ri(args, 0x07),
        InstructionKind::Sll => info_shift(args, 0x00),
        InstructionKind::Srl => info_shift(args, 0x02),
        InstructionKind::Sra => info_shift(args, 0x03),
        InstructionKind::Sllv => info_shiftv(args, 0x04),
        InstructionKind::Srlv => info_shiftv(args, 0x06),
        InstructionKind::Srav => info_shiftv(args, 0x07),
        InstructionKind::Div => info_rr_src(args, 0x1A),
        InstructionKind::Divu => info_rr_src(args, 0x1B),
        InstructionKind::Jalr => info_jr(args, 0x09),
        InstructionKind::Jr => info_jr(args, 0x08),
        InstructionKind::J => info_jump(args, labels, 0x02),
        InstructionKind::Jal => info_jump(args, labels, 0x03),
        InstructionKind::Lb => info_mem(args, 0x20),
        InstructionKind::Lbu => info_mem(args, 0x24),
        InstructionKind::Lh => info_mem(args, 0x21),
        InstructionKind::Lhu => info_mem(args, 0x25),
        InstructionKind::Lw => info_mem(args, 0x23),
        InstructionKind::Sb => info_mem(args, 0x28),
        InstructionKind::Sh => info_mem(args, 0x29),
        InstructionKind::Sw => info_mem(args, 0x2B),
        InstructionKind::Lui => {
            match (get_reg(args, 0), get_imm(args, 1)) {
                (Some(rt), Some(imm)) => Ok(
                    InstructionInfo::new(InstructionFormat::immediate(None, Some(rt), imm), 0x0F, 0),
                ),
                _ => Err(MemoryError::InvalidInstruction),
            }
        }
        InstructionKind::La => {
            match get_reg(args, 0) {
                Some(r) => {
                    if 1 < args.len() {
                        match &args[1] {
                            InstructionArg::Label(l) => match labels.get(l.as_str()) {
                                Some(a) => Ok(
                                    InstructionInfo::new(
                                        InstructionFormat::immediate(
                                            None,
                                            Some(r),
                                            (a.unwrap() % 0x10000) as u16,
                                        ),
                                        0,
                                        0,
                                    ),
                                ),
                                None => Err(MemoryError::InvalidLabel),
                            },
                            _ => Err(MemoryError::InvalidInstruction),
                        }
                    } else {
                        Err(MemoryError::InvalidInstruction)
                    }
                }
                None => Err(MemoryError::InvalidInstruction),
            }
        }
        InstructionKind::Li => {
            match (get_reg(args, 0), get_imm(args, 1)) {
                (Some(r), Some(imm)) => Ok(
                    InstructionInfo::new(InstructionFormat::immediate(None, Some(r), imm), 0, 0),
                ),
                _ => Err(MemoryError::InvalidInstruction),
            }
        }
        InstructionKind::Move => {
            match (get_reg(args, 0), get_reg(args, 1)) {
                (Some(rd), Some(rs)) => Ok(
                    InstructionInfo::new(
                        InstructionFormat::register(Some(rd), Some(rs), None, None),
                        0,
                        0,
                    ),
                ),
                _ => Err(MemoryError::InvalidInstruction),
            }
        }
        InstructionKind::Nop => Ok(
            InstructionInfo::new(InstructionFormat::register(None, None, None, None), 0, 0),
        ),
        InstructionKind::Syscall => Ok(
            InstructionInfo::new(InstructionFormat::register(None, None, None, None), 0, 0x0C),
        ),
    }
}

/// Packs R-format fields:
/// `[opcode:6 | rs:5 | rt:5 | rd:5 | shamt:5 | funct:6]`.
pub fn encode_register_type(info: &InstructionInfo, args: &RegisterFormat) -> (r:
    EncodedInstruction)
    requires
        info.opcode < 64,
        info.funct < 64,
        shamt_field(args.shamt) < 32,
    ensures
        r == spec_enc_r(
            info.opcode as int,
            reg_field(args.rs),
            reg_field(args.rt),
            reg_field(args.rd),
            shamt_field(args.shamt),
            info.funct as int,
        ),
{
    let rs: u32 = match &args.rs {
        Some(r) => r.encode() as u32,
        None => 0,
    };
    let rt: u32 = match &args.rt {
        Some(r) => r.encode() as u32,
        None => 0,
    };
    let rd: u32 = match &args.rd {
        Some(r) => r.encode() as u32,
        None => 0,
    };
    let shamt: u32 = match args.shamt {
        Some(s) => s as u32,
        None => 0,
    };
    (info.opcode as u32) * 0x400_0000 + rs * 0x20_0000 + rt * 0x1_0000 + rd * 0x800 + shamt * 0x40
        + (info.funct as u32)
}

/// Packs I-format fields: `[opcode:6 | rs:5 | rt:5 | imm:16]`.
pub fn encode_immediate_type(info: &InstructionInfo, args: &ImmediateFormat) -> (r:
    EncodedInstruction)
    requires
        info.opcode < 64,
    ensures
        r == spec_enc_i(
            info.opcode as int,
            reg_field(args.rs),
            reg_field(args.rt),
            args.imm as int,
        ),
{
    let rs: u32 = match &args.rs {
        Some(r) => r.encode() as u32,
        None => 0,
    };
    let rt: u32 = match &args.rt {
        Some(r) => r.encode() as u32,
        None => 0,
    };
    (info.opcode as u32) * 0x400_0000 + rs * 0x20_0000 + rt * 0x1_0000 + (args.imm as u32)
}

/// Packs J-format fields: `[opcode:6 | target:26]`.
pub fn encode_jump_type(info: &InstructionInfo, args: &JumpFormat) -> (r: EncodedInstruction)
    requires
        info.opcode < 64,
        args.address.0 < 0x400_0000,
    ensures
        r == spec_enc_j(info.opcode as int, args.address.0 as int),
{
    (info.opcode as u32) * 0x400_0000 + args.address.unwrap()
}

/// Encodes one instruction to its 32-bit word: draws the fields with the
/// encoder's operand walk, checks the field widths, and packs by format.
pub fn encode_instruction(instruction: &Instruction, labels: &LabelMap) -> (r: Result<
    EncodedInstruction,
    MemoryError,
>)
    requires
        labels.wf(),
    ensures
        r == spec_encode(*instruction, *labels),
{
    let inf = match info(instruction, labels) {
        Ok(inf) => inf,
        Err(e) => {
            return Err(e);
        }
    };
    proof {
        assert(inf.opcode < 64 && inf.funct < 64);
    }
    match &inf.format {
        InstructionFormat::Register(f) => {
            let sh_ok = match f.shamt {
                Some(s) => s < 32,
                None => true,
            };
            if !sh_ok {
                return Err(MemoryError::InvalidInstruction);
            }
            Ok(encode_register_type(&inf, f))
        }
        InstructionFormat::Immediate(f) => Ok(encode_immediate_type(&inf, f)),
        InstructionFormat::Jump(f) => {
            if f.address.unwrap() >= 0x400_0000 {
                return Err(MemoryError::InvalidInstruction);
            }
            Ok(encode_jump_type(&inf, f))
        }
    }
}

/// Encodes every instruction of the list, or reports the first failure.
pub fn assemble_all(instructions: &Vec<Instruction>, labels: &LabelMap) -> (r: Result<
    Vec<EncodedInstruction>,
    MemoryError,
>)
    requires
        labels.wf(),
    ensures
        match r {
            Ok(v) => v@.len() == instructions@.len() && forall|k: int|
                0 <= k < v@.len() ==> spec_encode(instructions@[k], *labels) == Ok::<
                    u32,
                    MemoryError,
                >(v@[k]),
            Err(e) => exists|k: int|
                0 <= k < instructions@.len() && spec_encode(#[trigger] instructions@[k], *labels)
                    == Err::<u32, MemoryError>(e),
        },
{
    let mut out: Vec<EncodedInstruction> = Vec::new();
    let mut i: usize = 0;
    while i < instructions.len()
        invariant
            labels.wf(),
            i <= instructions@.len(),
            out@.len() == i,
            forall|k: int|
                0 <= k < i ==> spec_encode(instructions@[k], *labels) == Ok::<u32, MemoryError>(
                    out@[k],
                ),
        decreases instructions@.len() - i,
    {
        match encode_instruction(&instructions[i], labels) {
            Ok(w) => {
                out.push(w);
            }
            Err(e) => {
                return Err(e);
            }
        }
        i = i + 1;
    }
    Ok(out)
}

/// The 6-bit opcode field of a word.
pub open spec fn dec_opcode(w: u32) -> int {
    w as int / 0x400_0000
}

/// The 5-bit `rs` field of a word.
pub open spec fn dec_rs(w: u32) -> int {
    (w as int / 0x20_0000) % 32
}

/// The 5-bit `rt` field of a word.
pub open spec fn dec_rt(w: u32) -> int {
    (w as int / 0x1_0000) % 32
}

/// The 5-bit `rd` field of a word.
pub open spec fn dec_rd(w: u32) -> int {
    (w as int / 0x800) % 32
}

/// The 5-bit `shamt` field of a word.
pub open spec fn dec_shamt(w: u32) -> int {
    (w as int / 0x40) % 32
}

/// The 6-bit `funct` field of a word.
pub open spec fn dec_funct(w: u32) -> int {
    w as int % 0x40
}

/// The 16-bit immediate field of a word.
pub open spec fn dec_imm(w: u32) -> int {
    w as int % 0x1_0000
}

/// The 26-bit target field of a word.
pub open spec fn dec_target(w: u32) -> int {
    w as int % 0x400_0000
}

/// The kind and operand fields a 32-bit word decodes to, for the words that
/// encode a non-pseudo instruction: R-format words by function code,
/// I-format and J-format words by opcode. Fields a kind does not draw are
/// decoded as absent.
pub open spec fn spec_decode(w: u32) -> Option<(InstructionKind, InstructionFormat)> {
    let rs = Some(crate::registers::reg_of_idx(dec_rs(w)));
    let rt = Some(crate::registers::reg_of_idx(dec_rt(w)));
    let rd = Some(crate::registers::reg_of_idx(dec_rd(w)));
    let sh = Some(dec_shamt(w) as u8);
    let imm = dec_imm(w) as u16;
    if dec_opcode(w) == 0 {
        let f = dec_funct(w);
        if f == 0x20 || f == 0x21 || f == 0x22 || f == 0x23 || f == 0x24 || f == 0x25 || f == 0x26
            || f == 0x27 || f == 0x2A || f == 0x2B || f == 0x18 || f == 0x19 {
            let kind = if f == 0x20 {
                InstructionKind::Add
            } else if f == 0x21 {
                InstructionKind::Addu
            } else if f == 0x22 {
                InstructionKind::Sub
            } else if f == 0x23 {
                InstructionKind::Subu
            } else if f == 0x24 {
                InstructionKind::And
            } else if f == 0x25 {
                InstructionKind::Or
            } else if f == 0x26 {
                InstructionKind::Xor
            } else if f == 0x27 {
                InstructionKind::Nor
            } else if f == 0x2A {
                InstructionKind::Slt
            } else if f == 0x2B {
                InstructionKind::Sltu
            } else if f == 0x18 {
                InstructionKind::Mult
            } else {
                InstructionKind::Multu
            };
            Some(
                (
                    kind,
                    InstructionFormat::Register(RegisterFormat { rd, rs, rt, shamt: None }),
                ),
            )
        } else if f == 0x00 || f == 0x02 || f == 0x03 {
            let kind = if f == 0x00 {
                InstructionKind::Sll
            } else if f == 0x02 {
                InstructionKind::Srl
            } else {
                InstructionKind::Sra
            };
            Some(
                (
                    kind,
                    InstructionFormat::Register(RegisterFormat { rd, rs: None, rt, shamt: sh }),
                ),
            )
        } else if f == 0x04 || f == 0x06 || f == 0x07 {
            let kind = if f == 0x04 {
                InstructionKind::Sllv
            } else if f == 0x06 {
                InstructionKind::Srlv
            } else {
                InstructionKind::Srav
            };
            Some(
                (
                    kind,
                    InstructionFormat::Register(RegisterFormat { rd, rs, rt, shamt: None }),
                ),
            )
        } else if f == 0x1A || f == 0x1B {
            let kind = if f == 0x1A {
                InstructionKind::Div
            } else {
                InstructionKind::Divu
            };
            Some(
                (
                    kind,
                    InstructionFormat::Register(RegisterFormat { rd: None, rs, rt, shamt: None }),
                ),
            )
        } else if f == 0x08 || f == 0x09 {
            let kind = if f == 0x08 {
                InstructionKind::Jr
            } else {
                InstructionKind::Jalr
            };
            Some(
                (
                    kind,
                    InstructionFormat::Register(
                        RegisterFormat { rd: None, rs, rt: None, shamt: None },
                    ),
                ),
            )
        } else if f == 0x0C {
            Some(
                (
                    InstructionKind::Syscall,
                    InstructionFormat::Register(
                        RegisterFormat { rd: None, rs: None, rt: None, shamt: None },
                    ),
                ),
            )
        } else {
            None
        }
    } else {
        let op = dec_opcode(w);
        if op == 0x08 || op == 0x09 || op == 0x0C || op == 0x0D || op == 0x0E || op == 0x0A || op
            == 0x0B || op == 0x04 || op == 0x05 {
            let kind = if op == 0x08 {
                InstructionKind::Addi
            } else if op == 0x09 {
                InstructionKind::Addiu
            } else if op == 0x0C {
                InstructionKind::Andi
            } else if op == 0x0D {
                InstructionKind::Ori
            } else if op == 0x0E {
                InstructionKind::Xori
            } else if op == 0x0A {
                InstructionKind::Slti
            } else if op == 0x0B {
                InstructionKind::Sltiu
            } else if op == 0x04 {
                InstructionKind::Beq
            } else {
                InstructionKind::Bne
            };
            Some((kind, InstructionFormat::Immediate(ImmediateFormat { rt, rs, imm })))
        } else if op == 0x06 || op == 0x07 {
            let kind = if op == 0x06 {
                InstructionKind::Blez
            } else {
                InstructionKind::Bgtz
            };
            Some((kind, InstructionFormat::Immediate(ImmediateFormat { rt, rs: None, imm })))
        } else if op == 0x0F {
            Some(
                (
                    InstructionKind::Lui,
                    InstructionFormat::Immediate(ImmediateFormat { rt: None, rs, imm }),
                ),
            )
        } else if op == 0x20 || op == 0x24 || op == 0x21 || op == 0x25 || op == 0x23 || op == 0x28
            || op == 0x29 || op == 0x2B {
            let kind = if op == 0x20 {
                InstructionKind::Lb
            } else if op == 0x24 {
                InstructionKind::Lbu
            } else if op == 0x21 {
                InstructionKind::Lh
            } else if op == 0x25 {
                InstructionKind::Lhu
            } else if op == 0x23 {
                InstructionKind::Lw
            } else if op == 0x28 {
                InstructionKind::Sb
            } else if op == 0x29 {
                InstructionKind::Sh
            } else {
                InstructionKind::Sw
            };
            Some((kind, InstructionFormat::Immediate(ImmediateFormat { rt, rs, imm })))
        } else if op == 0x02 || op == 0x03 {
            let kind = if op == 0x02 {
                InstructionKind::J
            } else {
                InstructionKind::Jal
            };
            Some(
                (
                    kind,
                    InstructionFormat::Jump(JumpFormat { address: Address(dec_target(w) as u32) }),
                ),
            )
        } else {
            None
        }
    }
}

/// Decodes a 32-bit word to the kind and operand fields it encodes, for the
/// words that encode a non-pseudo instruction.
pub fn decode(word: u32) -> (r: Option<(InstructionKind, InstructionFormat)>)
    ensures
        r == spec_decode(word),
{
    let opcode: u32 = word / 0x400_0000;
    let rs_i: u32 = (word / 0x20_0000) % 32;
    let rt_i: u32 = (word / 0x1_0000) % 32;
    let rd_i: u32 = (word / 0x800) % 32;
    let shamt: u32 = (word / 0x40) % 32;
    let funct: u32 = word % 0x40;
    let imm: u16 = (word % 0x1_0000) as u16;
    let target: u32 = word % 0x400_0000;
    let rs = Register::from_index(rs_i as u8);
    let rt = Register::from_index(rt_i as u8);
    let rd = Register::from_index(rd_i as u8);
    if opcode == 0 {
        match funct {
            0x20 => Some((InstructionKind::Add, InstructionFormat::register(rd, rs, rt, None))),
            0x21 => Some((InstructionKind::Addu, InstructionFormat::register(rd, rs, rt, None))),
            0x22 => Some((InstructionKind::Sub, InstructionFormat::register(rd, rs, rt, None))),
            0x23 => Some((InstructionKind::Subu, InstructionFormat::register(rd, rs, rt, None))),
            0x24 => Some((InstructionKind::And, InstructionFormat::register(rd, rs, rt, None))),
            0x25 => Some((InstructionKind::Or, InstructionFormat::register(rd, rs, rt, None))),
            0x26 => Some((InstructionKind::Xor, InstructionFormat::register(rd, rs, rt, None))),
            0x27 => Some((InstructionKind::Nor, InstructionFormat::register(rd, rs, rt, None))),
            0x2A => Some((InstructionKind::Slt, InstructionFormat::register(rd, rs, rt, None))),
            0x2B => Some((InstructionKind::Sltu, InstructionFormat::register(rd, rs, rt, None))),
            0x18 => Some((InstructionKind::Mult, InstructionFormat::register(rd, rs, rt, None))),
            0x19 => Some((InstructionKind::Multu, InstructionFormat::register(rd, rs, rt, None))),
            0x00 => Some(
                (
                    InstructionKind::Sll,
                    InstructionFormat::register(rd, None, rt, Some(shamt as u8)),
                ),
            ),
            0x02 => Some(
                (
                    InstructionKind::Srl,
                    InstructionFormat::register(rd, None, rt, Some(shamt as u8)),
                ),
            ),
            0x03 => Some(
                (
                    InstructionKind::Sra,
                    InstructionFormat::register(rd, None, rt, Some(shamt as u8)),
                ),
            ),
            0x04 => Some((InstructionKind::Sllv, InstructionFormat::register(rd, rs, rt, None))),
            0x06 => Some((InstructionKind::Srlv, InstructionFormat::register(rd, rs, rt, None))),
            0x07 => Some((InstructionKind::Srav, InstructionFormat::register(rd, rs, rt, None))),
            0x1A => Some((InstructionKind::Div, InstructionFormat::register(None, rs, rt, None))),
            0x1B => Some((InstructionKind::Divu, InstructionFormat::register(None, rs, rt, None))),
            0x08 => Some((InstructionKind::Jr, InstructionFormat::register(None, rs, None, None))),
            0x09 => Some(
                (InstructionKind::Jalr, InstructionFormat::register(None, rs, None, None)),
            ),
            0x0C => Some(
                (InstructionKind::Syscall, InstructionFormat::register(None, None, None, None)),
            ),
            _ => None,
        }
    } else {
        match opcode {
            0x08 => Some((InstructionKind::Addi, InstructionFormat::immediate(rt, rs, imm))),
            0x09 => Some((InstructionKind::Addiu, InstructionFormat::immediate(rt, rs, imm))),
            0x0C => Some((InstructionKind::Andi, InstructionFormat::immediate(rt, rs, imm))),
            0x0D => Some((InstructionKind::Ori, InstructionFormat::immediate(rt, rs, imm))),
            0x0E => Some((InstructionKind::Xori, InstructionFormat::immediate(rt, rs, imm))),
            0x0A => Some((InstructionKind::Slti, InstructionFormat::immediate(rt, rs, imm))),
            0x0B => Some((InstructionKind::Sltiu, InstructionFormat::immediate(rt, rs, imm))),
            0x04 => Some((InstructionKind::Beq, InstructionFormat::immediate(rt, rs, imm))),
            0x05 => Some((InstructionKind::Bne, InstructionFormat::immediate(rt, rs, imm))),
            0x06 => Some((InstructionKind::Blez, InstructionFormat::immediate(rt, None, imm))),
            0x07 => Some((InstructionKind::Bgtz, InstructionFormat::immediate(rt, None, imm))),
            0x0F => Some((InstructionKind::Lui, InstructionFormat::immediate(None, rs, imm))),
            0x20 => Some((InstructionKind::Lb, InstructionFormat::immediate(rt, rs, imm))),
            0x24 => Some((InstructionKind::Lbu, InstructionFormat::immediate(rt, rs, imm))),
            0x21 => Some((InstructionKind::Lh, InstructionFormat::immediate(rt, rs, imm))),
            0x25 => Some((InstructionKind::Lhu, InstructionFormat::immediate(rt, rs, imm))),
            0x23 => Some((InstructionKind::Lw, InstructionFormat::immediate(rt, rs, imm))),
            0x28 => Some((InstructionKind::Sb, InstructionFormat::immediate(rt, rs, imm))),
            0x29 => Some((InstructionKind::Sh, InstructionFormat::immediate(rt, rs, imm))),
            0x2B => Some((InstructionKind::Sw, InstructionFormat::immediate(rt, rs, imm))),
            0x02 => Some((InstructionKind::J, InstructionFormat::jump(Address::new(target)))),
            0x03 => Some((InstructionKind::Jal, InstructionFormat::jump(Address::new(target)))),
            _ => None,
        }
    }
}

/// Whether a kind is a pseudo-instruction: one the encoder gives only a
/// placeholder word.
pub open spec fn is_pseudo(k: InstructionKind) -> bool {
    k == InstructionKind::Li || k == InstructionKind::La || k == InstructionKind::Move || k
        == InstructionKind::Nop
}

proof fn lemma_enc_r_fields(opcode: u32, rs: u32, rt: u32, rd: u32, shamt: u32, funct: u32)
    requires
        opcode < 64,
        rs < 32,
        rt < 32,
        rd < 32,
        shamt < 32,
        funct < 64,
    ensures
        ({
            let w = (opcode * 0x400_0000 + rs * 0x20_0000 + rt * 0x1_0000 + rd * 0x800 + shamt
                * 0x40 + funct) as u32;
            &&& w == opcode * 0x400_0000 + rs * 0x20_0000 + rt * 0x1_0000 + rd * 0x800 + shamt
                * 0x40 + funct
            &&& dec_opcode(w) == opcode
            &&& dec_rs(w) == rs
            &&& dec_rt(w) == rt
            &&& dec_rd(w) == rd
            &&& dec_shamt(w) == shamt
            &&& dec_funct(w) == funct
        }),
{
    assert(({
        let w = (opcode * 0x400_0000 + rs * 0x20_0000 + rt * 0x1_0000 + rd * 0x800 + shamt * 0x40
            + funct) as u32;
        &&& w / 0x400_0000 == opcode
        &&& (w / 0x20_0000) % 32 == rs
        &&& (w / 0x1_0000) % 32 == rt
        &&& (w / 0x800) % 32 == rd
        &&& (w / 0x40) % 32 == shamt
        &&& w % 0x40 == funct
    })) by (bit_vector)
        requires
            opcode < 64,
            rs < 32,
            rt < 32,
            rd < 32,
            shamt < 32,
            funct < 64,
    ;
}

proof fn lemma_enc_i_fields(opcode: u32, rs: u32, rt: u32, imm: u32)
    requires
        opcode < 64,
        rs < 32,
        rt < 32,
        imm < 0x1_0000,
    ensures
        ({
            let w = (opcode * 0x400_0000 + rs * 0x20_0000 + rt * 0x1_0000 + imm) as u32;
            &&& w == opcode * 0x400_0000 + rs * 0x20_0000 + rt * 0x1_0000 + imm
            &&& dec_opcode(w) == opcode
            &&& dec_rs(w) == rs
            &&& dec_rt(w) == rt
            &&& dec_imm(w) == imm
        }),
{
    assert(({
        let w = (opcode * 0x400_0000 + rs * 0x20_0000 + rt * 0x1_0000 + imm) as u32;
        &&& w / 0x400_0000 == opcode
        &&& (w / 0x20_0000) % 32 == rs
        &&& (w / 0x1_0000) % 32 == rt
        &&& w % 0x1_0000 == imm
    })) by (bit_vector)
        requires
            opcode < 64,
            rs < 32,
            rt < 32,
            imm < 0x1_0000,
    ;
}

proof fn lemma_enc_j_fields(opcode: u32, target: u32)
    requires
        opcode < 64,
        target < 0x400_0000,
    ensures
        ({
            let w = (opcode * 0x400_0000 + target) as u32;
            &&& w == opcode * 0x400_0000 + target
            &&& dec_opcode(w) == opcode
            &&& dec_target(w) == target
        }),
{
    assert(({
        let w = (opcode * 0x400_0000 + target) as u32;
        &&& w / 0x400_0000 == opcode
        &&& w % 0x400_0000 == target
    })) by (bit_vector)
        requires
            opcode < 64,
            target < 0x400_0000,
    ;
}

/// Encoding then decoding reproduces an instruction's kind and operand
/// fields: for every non-pseudo instruction whose word the encoder accepts,
/// the word decodes to the same kind and the same fields the encoder's
/// operand walk drew from the argument list.
#[verifier::rlimit(60)]
pub proof fn lemma_encode_decode(i: Instruction, labels: LabelMap)
    requires
        !is_pseudo(i.kind),
        spec_encode(i, labels) is Ok,
    ensures
        spec_decode(spec_encode(i, labels).unwrap()) == Some(
            (i.kind, spec_info(i, labels).unwrap().format),
        ),
{
    let info = spec_info(i, labels).unwrap();
    let w = spec_encode(i, labels).unwrap();
    match info.format {
        InstructionFormat::Register(f) => {
            lemma_enc_r_fields(
                info.opcode as u32,
                reg_field(f.rs) as u32,
                reg_field(f.rt) as u32,
                reg_field(f.rd) as u32,
                shamt_field(f.shamt) as u32,
                info.funct as u32,
            );
            if f.rs is Some {
                crate::registers::lemma_reg_of_idx(f.rs.unwrap());
            }
            if f.rt is Some {
                crate::registers::lemma_reg_of_idx(f.rt.unwrap());
            }
            if f.rd is Some {
                crate::registers::lemma_reg_of_idx(f.rd.unwrap());
            }
        }
        InstructionFormat::Immediate(f) => {
            lemma_enc_i_fields(
                info.opcode as u32,
                reg_field(f.rs) as u32,
                reg_field(f.rt) as u32,
                f.imm as u32,
            );
            if f.rs is Some {
                crate::registers::lemma_reg_of_idx(f.rs.unwrap());
            }
            if f.rt is Some {
                crate::registers::lemma_reg_of_idx(f.rt.unwrap());
            }
        }
        InstructionFormat::Jump(f) => {
            lemma_enc_j_fields(info.opcode as u32, f.address.0);
        }
    }
}

} // verus!
