use vstd::prelude::*;

verus! {

use vstd::string::StringExecFns;
use crate::fmt::{colored, colored_seq, dec_seq, hex_seq, hexv_seq, append_dec, append_hex,
    append_hexv};
use crate::registers::Register;

/// A 32-bit architectural word.
pub type Word = u32;

/// A 16-bit literal immediate value.
pub type Immediate = u16;

/// ANSI 256-colour code used for directives.
pub const DIRECTIVE_COLOR: u8 = 9;

/// ANSI 256-colour code used for labels.
pub const LABEL_COLOR: u8 = 10;

/// ANSI 256-colour code used for registers.
pub const REGISTER_COLOR: u8 = 214;

/// ANSI 256-colour code used for immediates.
pub const IMMEDIATE_COLOR: u8 = 5;

/// ANSI 256-colour code used for instruction mnemonics.
pub const INSTRUCTION_COLOR: u8 = 14;

/// ANSI 256-colour code used for data directive sources.
pub const DATA_SOURCE_COLOR: u8 = 3;

/// ANSI 256-colour code used for raw data bytes.
pub const DATA_BYTES_COLOR: u8 = 8;

/// One of the two sections of a program.
#[derive(Clone, Copy, Debug, PartialEq, Eq, Structural)]
pub enum Section {
    /// The data section: global and static data.
    Data,
    /// The text section: executable instructions.
    Text,
}

/// The directive that introduces a section.
pub open spec fn section_name(s: Section) -> Seq<char> {
    match s {
        Section::Data => ".data"@,
        Section::Text => ".text"@,
    }
}

impl Section {
    /// The directive that introduces the section.
    pub fn show(&self) -> (r: &'static str)
        ensures
            r@ == section_name(*self),
    {
        match self {
            Section::Data => ".data",
            Section::Text => ".text",
        }
    }

    /// The directive coloured for terminal display.
    pub fn show_color(&self) -> (r: String)
        ensures
            r@ == colored_seq(section_name(*self), DIRECTIVE_COLOR),
    {
        colored(self.show(), DIRECTIVE_COLOR)
    }
}

/// One initialised datum of the data section: a label and its raw bytes,
/// together with the source text of the directive that produced it.
#[derive(Clone, Debug, PartialEq)]
pub struct StaticData {
    /// The source text of the data directive.
    pub source: String,
    /// The label of the datum.
    pub label: String,
    /// The raw bytes.
    pub data: Vec<u8>,
}

/// The plain rendering of one datum: `label: source`.
pub open spec fn static_data_shown(d: StaticData) -> Seq<char> {
    d.label@ + ": "@ + d.source@ + "\n"@
}

/// The coloured rendering of the raw bytes of a datum, two hex digits and a
/// space for each byte.
pub open spec fn data_bytes_colored(data: Seq<u8>) -> Seq<char>
    decreases data.len(),
{
    if data.len() == 0 {
        Seq::empty()
    } else {
        data_bytes_colored(data.drop_last()) + colored_seq(
            hex_seq(data.last() as nat, 2) + " "@,
            DATA_BYTES_COLOR,
        )
    }
}

/// The coloured rendering of one datum.
pub open spec fn static_data_shown_color(d: StaticData) -> Seq<char> {
    colored_seq(d.label@, LABEL_COLOR) + ": "@ + colored_seq(d.source@, DATA_SOURCE_COLOR) + "\n"@
        + colored_seq("# "@, DATA_BYTES_COLOR) + data_bytes_colored(d.data@)
}

impl StaticData {
    /// Renders the datum as `label: source`.
    pub fn show(&self) -> (r: String)
        ensures
            r@ == static_data_shown(*self),
    {
        let mut s = String::new();
        s.append(self.label.as_str());
        s.append(": ");
        s.append(self.source.as_str());
        s.append("\n");
        proof {
            assert(s@ =~= static_data_shown(*self));
        }
        s
    }

    /// Renders the datum coloured for terminal display, with its raw bytes
    /// appended as a hex comment.
    pub fn show_color(&self) -> (r: String)
        ensures
            r@ == static_data_shown_color(*self),
    {
        let mut s = colored(self.label.as_str(), LABEL_COLOR);
        s.append(": ");
        let src = colored(self.source.as_str(), DATA_SOURCE_COLOR);
        s.append(src.as_str());
        s.append("\n");
        let hdr = colored("# ", DATA_BYTES_COLOR);
        s.append(hdr.as_str());
        let mut i: usize = 0;
        while i < self.data.len()
            invariant
                i <= self.data@.len(),
                s@ == colored_seq(self.label@, LABEL_COLOR) + ": "@ + colored_seq(
                    self.source@,
                    DATA_SOURCE_COLOR,
                ) + "\n"@ + colored_seq("# "@, DATA_BYTES_COLOR) + data_bytes_colored(
                    self.data@.take(i as int),
                ),
            decreases self.data@.len() - i,
        {
            let mut byte_txt = String::new();
            append_hex(&mut byte_txt, self.data[i] as u32, 2);
            byte_txt.append(" ");
            let piece = colored(byte_txt.as_str(), DATA_BYTES_COLOR);
            s.append(piece.as_str());
            proof {
                assert(self.data@.take(i + 1).drop_last() =~= self.data@.take(i as int));
                assert(self.data@.take(i + 1).last() == self.data@[i as int]);
            }
            i = i + 1;
        }
        proof {
            assert(self.data@.take(self.data@.len() as int) =~= self.data@);
            assert(s@ =~= static_data_shown_color(*self));
        }
        s
    }

    /// The number of bytes of the datum.
    pub fn size(&self) -> (r: usize)
        ensures
            r == self.data@.len(),
    {
        self.data.len()
    }
}

/// The rendering of a sequence of data, one per line.
pub open spec fn data_section_shown(data: Seq<StaticData>) -> Seq<char>
    decreases data.len(),
{
    if data.len() == 0 {
        Seq::empty()
    } else {
        data_section_shown(data.drop_last()) + static_data_shown(data.last())
    }
}

/// The coloured rendering of a sequence of data, one per line.
pub open spec fn data_section_shown_color(data: Seq<StaticData>) -> Seq<char>
    decreases data.len(),
{
    if data.len() == 0 {
        Seq::empty()
    } else {
        data_section_shown_color(data.drop_last()) + static_data_shown_color(data.last())
    }
}

/// The data section of a program: its initialised data in order.
#[derive(Clone, Debug, PartialEq)]
pub struct DataSection {
    /// Initialised data, in source order.
    pub initialized: Vec<StaticData>,
}

impl DataSection {
    /// Whether the section holds no data.
    pub fn empty(&self) -> (r: bool)
        ensures
            r == (self.initialized@.len() == 0),
    {
        self.initialized.len() == 0
    }

    /// The initialised data of the section.
    pub fn initialized(&self) -> (r: &Vec<StaticData>)
        ensures
            r@ == self.initialized@,
    {
        &self.initialized
    }

    /// Takes the initialised data out of the section.
    pub fn initialized_static_move(self) -> (r: Vec<StaticData>)
        ensures
            r@ == self.initialized@,
    {
        self.initialized
    }

    /// Renders the section, one datum per line.
    pub fn show(&self) -> (r: String)
        ensures
            r@ == data_section_shown(self.initialized@),
    {
        let mut s = String::new();
        let mut i: usize = 0;
        while i < self.initialized.len()
            invariant
                i <= self.initialized@.len(),
                s@ == data_section_shown(self.initialized@.take(i as int)),
            decreases self.initialized@.len() - i,
        {
            let piece = self.initialized[i].show();
            s.append(piece.as_str());
            proof {
                assert(self.initialized@.take(i + 1).drop_last() =~= self.initialized@.take(
                    i as int,
                ));
            }
            i = i + 1;
        }
        proof {
            assert(self.initialized@.take(self.initialized@.len() as int) =~= self.initialized@);
        }
        s
    }

    /// Renders the section coloured for terminal display.
    pub fn show_color(&self) -> (r: String)
        ensures
            r@ == data_section_shown_color(self.initialized@),
    {
        let mut s = String::new();
        let mut i: usize = 0;
        while i < self.initialized.len()
            invariant
                i <= self.initialized@.len(),
                s@ == data_section_shown_color(self.initialized@.take(i as int)),
            decreases self.initialized@.len() - i,
        {
            let piece = self.initialized[i].show_color();
            s.append(piece.as_str());
            proof {
                assert(self.initialized@.take(i + 1).drop_last() =~= self.initialized@.take(
                    i as int,
                ));
            }
            i = i + 1;
        }
        proof {
            assert(self.initialized@.take(self.initialized@.len() as int) =~= self.initialized@);
        }
        s
    }
}

/// The kinds of instruction the machine executes.
#[derive(Clone, Copy, Debug, PartialEq, Eq, Structural)]
pub enum InstructionKind {
    /// `add $d, $s, $t`: `$d = $s + $t`.
    Add,
    /// `addi $d, $s, imm`: `$d = $s + imm` (immediate sign-extended).
    Addi,
    /// `addiu $d, $s, imm`: `$d = $s + imm`, wrapping.
    Addiu,
    /// `addu $d, $s, $t`: `$d = $s + $t`, wrapping.
    Addu,
    /// `and $d, $s, $t`: `$d = $s & $t`.
    And,
    /// `andi $d, $s, imm`: `$d = $s & imm` (immediate zero-extended).
    Andi,
    /// `beq $s, $t, offset`: branch by `offset` when `$s == $t`.
    Beq,
    /// `blez $s, offset`: branch by `offset` when `$s <= 0` (signed).
    Blez,
    /// `bne $s, $t, offset`: branch by `offset` when `$s != $t`.
    Bne,
    /// `bgtz $s, offset`: branch by `offset` when `$s > 0` (signed).
    Bgtz,
    /// `jalr $d, $s`: `$d = pc`, then jump to the address in `$s`.
    Jalr,
    /// `jr $s`: jump to the address in `$s`.
    Jr,
    /// `j target`: jump to `target`.
    J,
    /// `jal target`: `$ra = pc`, then jump to `target`.
    Jal,
    /// `li $t, imm`: `$t = imm`.
    Li,
    /// `la $t, label`: `$t = address of label`.
    La,
    /// `lb $t, offset($s)`: load one byte, sign-extended.
    Lb,
    /// `lbu $t, offset($s)`: load one byte, zero-extended.
    Lbu,
    /// `lh $t, offset($s)`: load a halfword, sign-extended.
    Lh,
    /// `lhu $t, offset($s)`: load a halfword, zero-extended.
    Lhu,
    /// `lui $t, imm`: `$t = imm << 16`.
    Lui,
    /// `lw $t, offset($s)`: load a word.
    Lw,
    /// `mult $d, $s, $t`: `$d = $s * $t` (signed, fused destination).
    Mult,
    /// `multu $d, $s, $t`: `$d = $s * $t` (unsigned, fused destination).
    Multu,
    /// `div $d, $s, $t`: `$d = $s / $t` (signed, fused destination).
    Div,
    /// `divu $d, $s, $t`: `$d = $s / $t` (unsigned, fused destination).
    Divu,
    /// `nor $d, $s, $t`: `$d = ~($s | $t)`.
    Nor,
    /// `or $d, $s, $t`: `$d = $s | $t`.
    Or,
    /// `ori $d, $s, imm`: `$d = $s | imm` (immediate zero-extended).
    Ori,
    /// `slt $d, $s, $t`: `$d = ($s < $t) ? 1 : 0` (signed).
    Slt,
    /// `sltu $d, $s, $t`: `$d = ($s < $t) ? 1 : 0` (unsigned).
    Sltu,
    /// `slti $d, $s, imm`: `$d = ($s < imm) ? 1 : 0` (signed).
    Slti,
    /// `sltiu $d, $s, imm`: `$d = ($s < imm) ? 1 : 0` (unsigned).
    Sltiu,
    /// `sll $d, $t, shamt`: `$d = $t << shamt`.
    Sll,
    /// `sllv $d, $t, $s`: `$d = $t << ($s & 31)`.
    Sllv,
    /// `sra $d, $t, shamt`: `$d = $t >> shamt`, arithmetic.
    Sra,
    /// `srav $d, $t, $s`: `$d = $t >> ($s & 31)`, arithmetic.
    Srav,
    /// `srl $d, $t, shamt`: `$d = $t >> shamt`, logical.
    Srl,
    /// `srlv $d, $t, $s`: `$d = $t >> ($s & 31)`, logical.
    Srlv,
    /// `sb $t, offset($s)`: store the low byte of `$t`.
    Sb,
    /// `sh $t, offset($s)`: store the low halfword of `$t`.
    Sh,
    /// `sw $t, offset($s)`: store the word `$t`.
    Sw,
    /// `sub $d, $s, $t`: `$d = $s - $t`.
    Sub,
    /// `subu $d, $s, $t`: `$d = $s - $t`, wrapping.
    Subu,
    /// `xor $d, $s, $t`: `$d = $s ^ $t`.
    Xor,
    /// `xori $d, $s, imm`: `$d = $s ^ imm` (immediate zero-extended).
    Xori,
    /// `move $d, $s`: `$d = $s`.
    Move,
    /// `nop`: do nothing.
    Nop,
    /// `syscall`: perform a system call selected by `$v0`.
    Syscall,
}

/// The mnemonic of an instruction kind.
pub open spec fn kind_name(k: InstructionKind) -> Seq<char> {
    match k {
        InstructionKind::Add => "add"@,
        InstructionKind::Addi => "addi"@,
        InstructionKind::Addiu => "addiu"@,
        InstructionKind::Addu => "addu"@,
        InstructionKind::Sub => "sub"@,
        InstructionKind::Mult => "mult"@,
        InstructionKind::Div => "div"@,
        InstructionKind::And => "and"@,
        InstructionKind::Andi => "andi"@,
        InstructionKind::Or => "or"@,
        InstructionKind::Xor => "xor"@,
        InstructionKind::Nor => "nor"@,
        InstructionKind::Slt => "slt"@,
        InstructionKind::Sll => "sll"@,
        InstructionKind::Srl => "srl"@,
        InstructionKind::Sra => "sra"@,
        InstructionKind::Jr => "jr"@,
        InstructionKind::Beq => "beq"@,
        InstructionKind::Bne => "bne"@,
        InstructionKind::Lw => "lw"@,
        InstructionKind::Sw => "sw"@,
        InstructionKind::Li => "li"@,
        InstructionKind::Lui => "lui"@,
        InstructionKind::Move => "move"@,
        InstructionKind::La => "la"@,
        InstructionKind::J => "j"@,
        InstructionKind::Jal => "jal"@,
        InstructionKind::Nop => "nop"@,
        InstructionKind::Syscall => "syscall"@,
        InstructionKind::Jalr => "jalr"@,
        InstructionKind::Lb => "lb"@,
        InstructionKind::Lbu => "lbu"@,
        InstructionKind::Ori => "ori"@,
        InstructionKind::Sltu => "sltu"@,
        InstructionKind::Slti => "slti"@,
        InstructionKind::Sltiu => "sltiu"@,
        InstructionKind::Sllv => "sllv"@,
        InstructionKind::Srlv => "srlv"@,
        InstructionKind::Sb => "sb"@,
        InstructionKind::Subu => "subu"@,
        InstructionKind::Xori => "xori"@,
        InstructionKind::Blez => "blez"@,
        InstructionKind::Bgtz => "bgtz"@,
        InstructionKind::Lhu => "lhu"@,
        InstructionKind::Multu => "multu"@,
        InstructionKind::Sh => "sh"@,
        InstructionKind::Lh => "lh"@,
        InstructionKind::Srav => "srav"@,
        InstructionKind::Divu => "divu"@,
    }
}

impl InstructionKind {
    /// The mnemonic of the instruction kind.
    pub fn show(&self) -> (r: &'static str)
        ensures
            r@ == kind_name(*self),
    {
        match self {
            InstructionKind::Add => "add",
            InstructionKind::Addi => "addi",
            InstructionKind::Addiu => "addiu",
            InstructionKind::Addu => "addu",
            InstructionKind::Sub => "sub",
            InstructionKind::Mult => "mult",
            InstructionKind::Div => "div",
            InstructionKind::And => "and",
            InstructionKind::Andi => "andi",
            InstructionKind::Or => "or",
            InstructionKind::Xor => "xor",
            InstructionKind::Nor => "nor",
            InstructionKind::Slt => "slt",
            InstructionKind::Sll => "sll",
            InstructionKind::Srl => "srl",
            InstructionKind::Sra => "sra",
            InstructionKind::Jr => "jr",
            InstructionKind::Beq => "beq",
            InstructionKind::Bne => "bne",
            InstructionKind::Lw => "lw",
            InstructionKind::Sw => "sw",
            InstructionKind::Li => "li",
            InstructionKind::Lui => "lui",
            InstructionKind::Move => "move",
            InstructionKind::La => "la",
            InstructionKind::J => "j",
            InstructionKind::Jal => "jal",
            InstructionKind::Nop => "nop",
            InstructionKind::Syscall => "syscall",
            InstructionKind::Jalr => "jalr",
            InstructionKind::Lb => "lb",
            InstructionKind::Lbu => "lbu",
            InstructionKind::Ori => "ori",
            InstructionKind::Sltu => "sltu",
            InstructionKind::Slti => "slti",
            InstructionKind::Sltiu => "sltiu",
            InstructionKind::Sllv => "sllv",
            InstructionKind::Srlv => "srlv",
            InstructionKind::Sb => "sb",
            InstructionKind::Subu => "subu",
            InstructionKind::Xori => "xori",
            InstructionKind::Blez => "blez",
            InstructionKind::Bgtz => "bgtz",
            InstructionKind::Lhu => "lhu",
            InstructionKind::Multu => "multu",
            InstructionKind::Sh => "sh",
            InstructionKind::Lh => "lh",
            InstructionKind::Srav => "srav",
            InstructionKind::Divu => "divu",
        }
    }
}

/// An argument of an instruction.
#[derive(Clone, Debug, PartialEq)]
pub enum InstructionArg {
    /// A register.
    Register(Register),
    /// A 16-bit immediate.
    Immediate(Immediate),
    /// A base register with a 16-bit displacement.
    RegisterOffset(Immediate, Register),
    /// A label, resolved at load time.
    Label(String),
}

impl InstructionArg {
    /// The register of a register argument.
    pub fn as_register(self) -> (r: Option<Register>)
        ensures
            match r {
                Some(reg) => self == InstructionArg::Register(reg),
                None => !(self is Register),
            },
    {
        match self {
            InstructionArg::Register(r) => Some(r),
            _ => None,
        }
    }

    /// The value of an immediate argument.
    pub fn as_immediate(self) -> (r: Option<Immediate>)
        ensures
            match r {
                Some(i) => self == InstructionArg::Immediate(i),
                None => !(self is Immediate),
            },
    {
        match self {
            InstructionArg::Immediate(i) => Some(i),
            _ => None,
        }
    }

    /// The name of a label argument.
    pub fn as_label(self) -> (r: Option<String>)
        ensures
            match r {
                Some(l) => self == InstructionArg::Label(l),
                None => !(self is Label),
            },
    {
        match self {
            InstructionArg::Label(l) => Some(l),
            _ => None,
        }
    }

    /// The displacement and base register of a register-offset argument.
    pub fn as_offset(self) -> (r: Option<(Immediate, Register)>)
        ensures
            match r {
                Some(p) => self == InstructionArg::RegisterOffset(p.0, p.1),
                None => !(self is RegisterOffset),
            },
    {
        match self {
            InstructionArg::RegisterOffset(o, r) => Some((o, r)),
            _ => None,
        }
    }
}

/// The plain rendering of one argument.
pub open spec fn arg_shown(a: InstructionArg) -> Seq<char> {
    match a {
        InstructionArg::Register(r) => crate::registers::reg_name(r),
        InstructionArg::Immediate(i) => "0x"@ + hexv_seq(i as nat),
        InstructionArg::RegisterOffset(o, r) => dec_seq(o as nat) + "("@
            + crate::registers::reg_name(r) + ")"@,
        InstructionArg::Label(l) => l@,
    }
}

/// The coloured rendering of one argument.
pub open spec fn arg_shown_color(a: InstructionArg) -> Seq<char> {
    match a {
        InstructionArg::Register(r) => colored_seq(crate::registers::reg_name(r), REGISTER_COLOR),
        InstructionArg::Immediate(i) => colored_seq("0x"@ + hexv_seq(i as nat), IMMEDIATE_COLOR),
        InstructionArg::RegisterOffset(o, r) => colored_seq(
            colored_seq(dec_seq(o as nat), IMMEDIATE_COLOR) + "("@ + colored_seq(
                crate::registers::reg_name(r),
                REGISTER_COLOR,
            ) + ")"@,
            REGISTER_COLOR,
        ),
        InstructionArg::Label(l) => colored_seq(l@, LABEL_COLOR),
    }
}

impl InstructionArg {
    /// Renders the argument.
    pub fn show(&self) -> (r: String)
        ensures
            r@ == arg_shown(*self),
    {
        match self {
            InstructionArg::Register(r) => String::from_str(r.show()),
            InstructionArg::Immediate(i) => {
                let mut s = String::from_str("0x");
                append_hexv(&mut s, *i as u32);
                s
            }
            InstructionArg::RegisterOffset(o, r) => {
                let mut s = String::new();
                append_dec(&mut s, *o as u32);
                s.append("(");
                s.append(r.show());
                s.append(")");
                proof {
                    assert(s@ =~= arg_shown(*self));
                }
                s
            }
            InstructionArg::Label(l) => l.clone(),
        }
    }

    /// Renders the argument coloured for terminal display.
    pub fn show_color(&self) -> (r: String)
        ensures
            r@ == arg_shown_color(*self),
    {
        match self {
            InstructionArg::Register(r) => r.show_color(),
            InstructionArg::Immediate(i) => {
                let mut s = String::from_str("0x");
                append_hexv(&mut s, *i as u32);
                colored(s.as_str(), IMMEDIATE_COLOR)
            }
            InstructionArg::RegisterOffset(o, r) => {
                let mut num = String::new();
                append_dec(&mut num, *o as u32);
                let mut s = colored(num.as_str(), IMMEDIATE_COLOR);
                s.append("(");
                let reg = r.show_color();
                s.append(reg.as_str());
                s.append(")");
                let res = colored(s.as_str(), REGISTER_COLOR);
                proof {
                    assert(s@ =~= colored_seq(dec_seq(*o as nat), IMMEDIATE_COLOR) + "("@
                        + colored_seq(crate::registers::reg_name(*r), REGISTER_COLOR) + ")"@);
                }
                res
            }
            InstructionArg::Label(l) => {
                let cl = l.clone();
                colored(cl.as_str(), LABEL_COLOR)
            }
        }
    }
}

/// One instruction: a kind and its arguments.
#[derive(Clone, Debug, PartialEq)]
pub struct Instruction {
    /// The kind of the instruction.
    pub kind: InstructionKind,
    /// The arguments of the instruction.
    pub args: Vec<InstructionArg>,
}

/// The rendering of an argument list: the first argument is preceded by a
/// space, the rest by a comma and a space.
pub open spec fn args_shown(args: Seq<InstructionArg>) -> Seq<char>
    decreases args.len(),
{
    if args.len() == 0 {
        Seq::empty()
    } else {
        args_shown(args.drop_last()) + (if args.len() == 1 {
            " "@
        } else {
            ", "@
        }) + arg_shown(args.last())
    }
}

/// The coloured rendering of an argument list.
pub open spec fn args_shown_color(args: Seq<InstructionArg>) -> Seq<char>
    decreases args.len(),
{
    if args.len() == 0 {
        Seq::empty()
    } else {
        args_shown_color(args.drop_last()) + (if args.len() == 1 {
            " "@
        } else {
            ", "@
        }) + arg_shown_color(args.last())
    }
}

/// The plain rendering of one instruction.
pub open spec fn instruction_shown(i: Instruction) -> Seq<char> {
    kind_name(i.kind) + args_shown(i.args@)
}

/// The coloured rendering of one instruction.
pub open spec fn instruction_shown_color(i: Instruction) -> Seq<char> {
    colored_seq(kind_name(i.kind), INSTRUCTION_COLOR) + args_shown_color(i.args@)
}

impl Instruction {
    /// Renders the instruction: mnemonic and comma-separated arguments.
    pub fn show(&self) -> (r: String)
        ensures
            r@ == instruction_shown(*self),
    {
        let mut s = String::from_str(self.kind.show());
        let mut i: usize = 0;
        while i < self.args.len()
            invariant
                i <= self.args@.len(),
                s@ == kind_name(self.kind) + args_shown(self.args@.take(i as int)),
            decreases self.args@.len() - i,
        {
            if i == 0 {
                s.append(" ");
            } else {
                s.append(", ");
            }
            let piece = self.args[i].show();
            s.append(piece.as_str());
            proof {
                assert(self.args@.take(i + 1).drop_last() =~= self.args@.take(i as int));
                assert(s@ =~= kind_name(self.kind) + args_shown(self.args@.take(i + 1)));
            }
            i = i + 1;
        }
        proof {
            assert(self.args@.take(self.args@.len() as int) =~= self.args@);
        }
        s
    }

    /// Renders the instruction coloured for terminal display.
    pub fn show_color(&self) -> (r: String)
        ensures
            r@ == instruction_shown_color(*self),
    {
        let kind = colored(self.kind.show(), INSTRUCTION_COLOR);
        let mut s = kind;
        let mut i: usize = 0;
        while i < self.args.len()
            invariant
                i <= self.args@.len(),
                s@ == colored_seq(kind_name(self.kind), INSTRUCTION_COLOR) + args_shown_color(
                    self.args@.take(i as int),
                ),
            decreases self.args@.len() - i,
        {
            if i == 0 {
                s.append(" ");
            } else {
                s.append(", ");
            }
            let piece = self.args[i].show_color();
            s.append(piece.as_str());
            proof {
                assert(self.args@.take(i + 1).drop_last() =~= self.args@.take(i as int));
                assert(s@ =~= colored_seq(kind_name(self.kind), INSTRUCTION_COLOR)
                    + args_shown_color(self.args@.take(i + 1)));
            }
            i = i + 1;
        }
        proof {
            assert(self.args@.take(self.args@.len() as int) =~= self.args@);
        }
        s
    }

    /// The size in bytes of every encoded instruction.
    pub fn size() -> (r: usize)
        ensures
            r == 4,
    {
        4
    }
}

/// A labelled block of instructions in the text section.
#[derive(Clone, Debug, PartialEq)]
pub struct Block {
    /// The label of the block; empty for the unlabelled leading block.
    pub label: String,
    /// The instructions of the block.
    pub instructions: Vec<Instruction>,
}

/// The rendering of a list of instructions, indented one per line.
pub open spec fn instructions_shown(instrs: Seq<Instruction>) -> Seq<char>
    decreases instrs.len(),
{
    if instrs.len() == 0 {
        Seq::empty()
    } else {
        instructions_shown(instrs.drop_last()) + "    "@ + instruction_shown(instrs.last()) + "\n"@
    }
}

/// The coloured rendering of a list of instructions.
pub open spec fn instructions_shown_color(instrs: Seq<Instruction>) -> Seq<char>
    decreases instrs.len(),
{
    if instrs.len() == 0 {
        Seq::empty()
    } else {
        instructions_shown_color(instrs.drop_last()) + "    "@ + instruction_shown_color(
            instrs.last(),
        ) + "\n"@
    }
}

/// The plain rendering of a block: its label line, then its instructions.
pub open spec fn block_shown(b: Block) -> Seq<char> {
    (if b.label@.len() == 0 {
        Seq::<char>::empty()
    } else {
        b.label@ + ":\n"@
    }) + instructions_shown(b.instructions@)
}

/// The coloured rendering of a block.
pub open spec fn block_shown_color(b: Block) -> Seq<char> {
    (if b.label@.len() == 0 {
        Seq::<char>::empty()
    } else {
        colored_seq(b.label@, LABEL_COLOR) + ":\n"@
    }) + instructions_shown_color(b.instructions@)
}

impl Block {
    /// Renders the block: its label line, then its instructions indented.
    pub fn show(&self) -> (r: String)
        ensures
            r@ == block_shown(*self),
    {
        let mut s = String::new();
        if !self.label.as_str().is_empty() {
            s.append(self.label.as_str());
            s.append(":\n");
        }
        proof {
            assert(s@ =~= (if self.label@.len() == 0 {
                Seq::<char>::empty()
            } else {
                self.label@ + ":\n"@
            }));
        }
        let ghost head = s@;
        let mut i: usize = 0;
        while i < self.instructions.len()
            invariant
                i <= self.instructions@.len(),
                s@ == head + instructions_shown(self.instructions@.take(i as int)),
            decreases self.instructions@.len() - i,
        {
            s.append("    ");
            let piece = self.instructions[i].show();
            s.append(piece.as_str());
            s.append("\n");
            proof {
                assert(self.instructions@.take(i + 1).drop_last() =~= self.instructions@.take(
                    i as int,
                ));
                assert(s@ =~= head + instructions_shown(self.instructions@.take(i + 1)));
            }
            i = i + 1;
        }
        proof {
            assert(self.instructions@.take(self.instructions@.len() as int)
                =~= self.instructions@);
            assert(s@ =~= block_shown(*self));
        }
        s
    }

    /// Renders the block coloured for terminal display.
    pub fn show_color(&self) -> (r: String)
        ensures
            r@ == block_shown_color(*self),
    {
        let mut s = String::new();
        if !self.label.as_str().is_empty() {
            let l = colored(self.label.as_str(), LABEL_COLOR);
            s.append(l.as_str());
            s.append(":\n");
        }
        proof {
            assert(s@ =~= (if self.label@.len() == 0 {
                Seq::<char>::empty()
            } else {
                colored_seq(self.label@, LABEL_COLOR) + ":\n"@
            }));
        }
        let ghost head = s@;
        let mut i: usize = 0;
        while i < self.instructions.len()
            invariant
                i <= self.instructions@.len(),
                s@ == head + instructions_shown_color(self.instructions@.take(i as int)),
            decreases self.instructions@.len() - i,
        {
            s.append("    ");
            let piece = self.instructions[i].show_color();
            s.append(piece.as_str());
            s.append("\n");
            proof {
                assert(self.instructions@.take(i + 1).drop_last() =~= self.instructions@.take(
                    i as int,
                ));
                assert(s@ =~= head + instructions_shown_color(self.instructions@.take(i + 1)));
            }
            i = i + 1;
        }
        proof {
            assert(self.instructions@.take(self.instructions@.len() as int)
                =~= self.instructions@);
            assert(s@ =~= block_shown_color(*self));
        }
        s
    }
}

/// The instructions of a sequence of blocks, in block order.
pub open spec fn flat_instructions(blocks: Seq<Block>) -> Seq<Instruction>
    decreases blocks.len(),
{
    if blocks.len() == 0 {
        Seq::empty()
    } else {
        flat_instructions(blocks.drop_last()) + blocks.last().instructions@
    }
}

/// The rendering of the `.global` directives of a text section.
pub open spec fn globals_shown(labels: Seq<String>) -> Seq<char>
    decreases labels.len(),
{
    if labels.len() == 0 {
        Seq::empty()
    } else {
        globals_shown(labels.drop_last()) + ".global "@ + labels.last()@ + "\n"@
    }
}

/// The coloured rendering of the `.global` directives of a text section.
pub open spec fn globals_shown_color(labels: Seq<String>) -> Seq<char>
    decreases labels.len(),
{
    if labels.len() == 0 {
        Seq::empty()
    } else {
        globals_shown_color(labels.drop_last()) + colored_seq(".global"@, DIRECTIVE_COLOR) + " "@
            + colored_seq(labels.last()@, LABEL_COLOR) + "\n"@
    }
}

/// The rendering of a sequence of blocks.
pub open spec fn blocks_shown(blocks: Seq<Block>) -> Seq<char>
    decreases blocks.len(),
{
    if blocks.len() == 0 {
        Seq::empty()
    } else {
        blocks_shown(blocks.drop_last()) + block_shown(blocks.last())
    }
}

/// The coloured rendering of a sequence of blocks.
pub open spec fn blocks_shown_color(blocks: Seq<Block>) -> Seq<char>
    decreases blocks.len(),
{
    if blocks.len() == 0 {
        Seq::empty()
    } else {
        blocks_shown_color(blocks.drop_last()) + block_shown_color(blocks.last())
    }
}

/// The text section of a program: its blocks and its exported labels.
#[derive(Clone, Debug, PartialEq)]
pub struct TextSection {
    /// The blocks of instructions, in source order.
    pub blocks: Vec<Block>,
    /// The labels exported by `.global` directives.
    pub global_labels: Vec<String>,
}

impl TextSection {
    /// Whether the section holds no blocks.
    pub fn empty(&self) -> (r: bool)
        ensures
            r == (self.blocks@.len() == 0),
    {
        self.blocks.len() == 0
    }

    /// The instructions of every block, in block order.
    pub fn instructions(&self) -> (r: Vec<&Instruction>)
        ensures
            r@.len() == flat_instructions(self.blocks@).len(),
            forall|k: int| 0 <= k < r@.len() ==> *r@[k] == flat_instructions(self.blocks@)[k],
    {
        let ghost blks = self.blocks@;
        let mut out: Vec<&Instruction> = Vec::new();
        let mut i: usize = 0;
        while i < self.blocks.len()
            invariant
                blks == self.blocks@,
                i <= blks.len(),
                out@.len() == flat_instructions(blks.take(i as int)).len(),
                forall|k: int| 0 <= k < out@.len() ==> *(#[trigger] out@[k])
                    == flat_instructions(blks.take(i as int))[k],
            decreases blks.len() - i,
        {
            let ghost prefix = flat_instructions(blks.take(i as int));
            let mut j: usize = 0;
            while j < self.blocks[i].instructions.len()
                invariant
                    blks == self.blocks@,
                    i < blks.len(),
                    j <= blks[i as int].instructions@.len(),
                    out@.len() == prefix.len() + j,
                    prefix == flat_instructions(blks.take(i as int)),
                    forall|k: int| 0 <= k < out@.len() ==> *(#[trigger] out@[k]) == (prefix + blks[
                        i as int
                    ].instructions@.take(j as int))[k],
                decreases blks[i as int].instructions@.len() - j,
            {
                let instr = &self.blocks[i].instructions[j];
                out.push(instr);
                proof {
                    assert(blks[i as int].instructions@.take(j + 1) =~= blks[i as int]
                        .instructions@.take(j as int).push(blks[i as int].instructions@[j as int]));
                }
                j = j + 1;
            }
            proof {
                assert(blks.take(i + 1).drop_last() =~= blks.take(i as int));
                assert(blks[i as int].instructions@.take(blks[i as int].instructions@.len() as int)
                    =~= blks[i as int].instructions@);
                assert(flat_instructions(blks.take(i + 1)) == prefix + blks[i as int]
                    .instructions@);
            }
            i = i + 1;
        }
        proof {
            assert(blks.take(blks.len() as int) =~= blks);
        }
        out
    }

    /// Takes the instructions of every block, in block order.
    pub fn instructions_move(self) -> (r: Vec<Instruction>)
        ensures
            r@ == flat_instructions(self.blocks@),
    {
        let ghost blks = self.blocks@;
        let mut blocks = self.blocks;
        let mut out: Vec<Instruction> = Vec::new();
        let ghost mut i: int = 0;
        while blocks.len() > 0
            invariant
                0 <= i,
                i + blocks@.len() == blks.len(),
                blocks@ == blks.skip(i),
                out@ == flat_instructions(blks.take(i)),
            decreases blocks@.len(),
        {
            let ghost prefix = flat_instructions(blks.take(i));
            let block = blocks.remove(0);
            proof {
                assert(block == blks[i]);
                assert(blocks@ =~= blks.skip(i + 1));
            }
            let mut instrs = block.instructions;
            let ghost mut j: int = 0;
            while instrs.len() > 0
                invariant
                    0 <= j,
                    j + instrs@.len() == blks[i].instructions@.len(),
                    0 <= i < blks.len(),
                    instrs@ == blks[i].instructions@.skip(j),
                    prefix == flat_instructions(blks.take(i)),
                    out@ == prefix + blks[i].instructions@.take(j),
                decreases instrs@.len(),
            {
                let instr = instrs.remove(0);
                proof {
                    assert(instr == blks[i].instructions@[j]);
                    assert(instrs@ =~= blks[i].instructions@.skip(j + 1));
                    assert(blks[i].instructions@.take(j + 1) =~= blks[i].instructions@.take(
                        j,
                    ).push(instr));
                }
                out.push(instr);
                proof {
                    assert(out@ =~= prefix + blks[i].instructions@.take(j + 1));
                    j = j + 1;
                }
            }
            proof {
                assert(blks.take(i + 1).drop_last() =~= blks.take(i));
                assert(blks[i].instructions@.take(blks[i].instructions@.len() as int) =~= blks[
                    i
                ].instructions@);
                assert(flat_instructions(blks.take(i + 1)) == prefix + blks[i].instructions@);
                i = i + 1;
            }
        }
        proof {
            assert(blks.take(i) =~= blks);
        }
        out
    }

    /// Renders the section: its `.global` directives, then its blocks.
    pub fn show(&self) -> (r: String)
        ensures
            r@ == globals_shown(self.global_labels@) + blocks_shown(self.blocks@),
    {
        let mut s = String::new();
        let mut i: usize = 0;
        while i < self.global_labels.len()
            invariant
                i <= self.global_labels@.len(),
                s@ == globals_shown(self.global_labels@.take(i as int)),
            decreases self.global_labels@.len() - i,
        {
            s.append(".global ");
            s.append(self.global_labels[i].as_str());
            s.append("\n");
            proof {
                assert(self.global_labels@.take(i + 1).drop_last() =~= self.global_labels@.take(
                    i as int,
                ));
                assert(s@ =~= globals_shown(self.global_labels@.take(i + 1)));
            }
            i = i + 1;
        }
        proof {
            assert(self.global_labels@.take(self.global_labels@.len() as int)
                =~= self.global_labels@);
        }
        let ghost head = s@;
        let mut j: usize = 0;
        while j < self.blocks.len()
            invariant
                j <= self.blocks@.len(),
                s@ == head + blocks_shown(self.blocks@.take(j as int)),
            decreases self.blocks@.len() - j,
        {
            let piece = self.blocks[j].show();
            s.append(piece.as_str());
            proof {
                assert(self.blocks@.take(j + 1).drop_last() =~= self.blocks@.take(j as int));
            }
            j = j + 1;
        }
        proof {
            assert(self.blocks@.take(self.blocks@.len() as int) =~= self.blocks@);
        }
        s
    }

    /// Renders the section coloured for terminal display.
    pub fn show_color(&self) -> (r: String)
        ensures
            r@ == globals_shown_color(self.global_labels@) + blocks_shown_color(self.blocks@),
    {
        let mut s = String::new();
        let mut i: usize = 0;
        while i < self.global_labels.len()
            invariant
                i <= self.global_labels@.len(),
                s@ == globals_shown_color(self.global_labels@.take(i as int)),
            decreases self.global_labels@.len() - i,
        {
            let d = colored(".global", DIRECTIVE_COLOR);
            s.append(d.as_str());
            s.append(" ");
            let l = colored(self.global_labels[i].as_str(), LABEL_COLOR);
            s.append(l.as_str());
            s.append("\n");
            proof {
                assert(self.global_labels@.take(i + 1).drop_last() =~= self.global_labels@.take(
                    i as int,
                ));
                assert(s@ =~= globals_shown_color(self.global_labels@.take(i + 1)));
            }
            i = i + 1;
        }
        proof {
            assert(self.global_labels@.take(self.global_labels@.len() as int)
                =~= self.global_labels@);
        }
        let ghost head = s@;
        let mut j: usize = 0;
        while j < self.blocks.len()
            invariant
                j <= self.blocks@.len(),
                s@ == head + blocks_shown_color(self.blocks@.take(j as int)),
            decreases self.blocks@.len() - j,
        {
            let piece = self.blocks[j].show_color();
            s.append(piece.as_str());
            proof {
                assert(self.blocks@.take(j + 1).drop_last() =~= self.blocks@.take(j as int));
            }
            j = j + 1;
        }
        proof {
            assert(self.blocks@.take(self.blocks@.len() as int) =~= self.blocks@);
        }
        s
    }
}

/// A parsed program: its data section and its text section.
#[derive(Clone, Debug, PartialEq)]
pub struct Program {
    /// The data section.
    pub data_section: DataSection,
    /// The text section.
    pub text_section: TextSection,
}

/// The plain rendering of a program.
pub open spec fn program_shown(p: Program) -> Seq<char> {
    (if p.data_section.initialized@.len() != 0 {
        section_name(Section::Data) + "\n"@ + data_section_shown(p.data_section.initialized@)
    } else {
        Seq::<char>::empty()
    }) + (if p.text_section.blocks@.len() != 0 {
        "\n"@ + section_name(Section::Text) + "\n"@ + globals_shown(p.text_section.global_labels@)
            + blocks_shown(p.text_section.blocks@)
    } else {
        Seq::<char>::empty()
    })
}

/// The coloured rendering of a program.
pub open spec fn program_shown_color(p: Program) -> Seq<char> {
    (if p.data_section.initialized@.len() != 0 {
        colored_seq(section_name(Section::Data), DIRECTIVE_COLOR) + "\n"@ + data_section_shown_color(
            p.data_section.initialized@,
        )
    } else {
        Seq::<char>::empty()
    }) + (if p.data_section.initialized@.len() != 0 && p.text_section.blocks@.len() != 0 {
        "\n"@
    } else {
        Seq::<char>::empty()
    }) + (if p.text_section.blocks@.len() != 0 {
        colored_seq(section_name(Section::Text), DIRECTIVE_COLOR) + "\n"@ + globals_shown_color(
            p.text_section.global_labels@,
        ) + blocks_shown_color(p.text_section.blocks@)
    } else {
        Seq::<char>::empty()
    })
}

impl Program {
    /// Renders the program: its data section, then its text section.
    pub fn show(&self) -> (r: String)
        ensures
            r@ == program_shown(*self),
    {
        let mut s = String::new();
        if !self.data_section.empty() {
            s.append(Section::Data.show());
            s.append("\n");
            let d = self.data_section.show();
            s.append(d.as_str());
        }
        if !self.text_section.empty() {
            s.append("\n");
            s.append(Section::Text.show());
            s.append("\n");
            let t = self.text_section.show();
            s.append(t.as_str());
        }
        proof {
            assert(s@ =~= program_shown(*self));
        }
        s
    }

    /// Renders the program coloured for terminal display.
    pub fn show_color(&self) -> (r: String)
        ensures
            r@ == program_shown_color(*self),
    {
        let mut s = String::new();
        if !self.data_section.empty() {
            let h = Section::Data.show_color();
            s.append(h.as_str());
            s.append("\n");
            let d = self.data_section.show_color();
            s.append(d.as_str());
        }
        if !self.data_section.empty() && !self.text_section.empty() {
            s.append("\n");
        }
        if !self.text_section.empty() {
            let h = Section::Text.show_color();
            s.append(h.as_str());
            s.append("\n");
            let t = self.text_section.show_color();
            s.append(t.as_str());
        }
        proof {
            assert(s@ =~= program_shown_color(*self));
        }
        s
    }
}

} // verus!
