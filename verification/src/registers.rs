use vstd::prelude::*;

verus! {

use crate::program::Word;
use crate::fmt::str_eq;

/// One of the 32 general-purpose MIPS registers.
#[derive(Clone, Copy, Debug, PartialEq, Eq, Hash, Structural)]
pub enum Register {
    /// Hard-wired zero.
    Zero,
    /// Assembler temporary.
    At,
    /// Function result.
    V0,
    /// Function result.
    V1,
    /// Argument.
    A0,
    /// Argument.
    A1,
    /// Argument.
    A2,
    /// Argument.
    A3,
    /// Temporary value.
    T0,
    /// Temporary value.
    T1,
    /// Temporary value.
    T2,
    /// Temporary value.
    T3,
    /// Temporary value.
    T4,
    /// Temporary value.
    T5,
    /// Temporary value.
    T6,
    /// Temporary value.
    T7,
    /// Saved temporary.
    S0,
    /// Saved temporary.
    S1,
    /// Saved temporary.
    S2,
    /// Saved temporary.
    S3,
    /// Saved temporary.
    S4,
    /// Saved temporary.
    S5,
    /// Saved temporary.
    S6,
    /// Saved temporary.
    S7,
    /// Temporary value.
    T8,
    /// Temporary value.
    T9,
    /// Reserved for the OS.
    K0,
    /// Reserved for the OS.
    K1,
    /// Global pointer.
    Gp,
    /// Stack pointer.
    Sp,
    /// Frame pointer.
    Fp,
    /// Return address.
    Ra,
}

impl Register {
    /// The canonical 0..31 encoding index of the register.
    pub open spec fn idx(self) -> int {
        match self {
            Register::Zero => 0,
            Register::At => 1,
            Register::V0 => 2,
            Register::V1 => 3,
            Register::A0 => 4,
            Register::A1 => 5,
            Register::A2 => 6,
            Register::A3 => 7,
            Register::T0 => 8,
            Register::T1 => 9,
            Register::T2 => 10,
            Register::T3 => 11,
            Register::T4 => 12,
            Register::T5 => 13,
            Register::T6 => 14,
            Register::T7 => 15,
            Register::S0 => 16,
            Register::S1 => 17,
            Register::S2 => 18,
            Register::S3 => 19,
            Register::S4 => 20,
            Register::S5 => 21,
            Register::S6 => 22,
            Register::S7 => 23,
            Register::T8 => 24,
            Register::T9 => 25,
            Register::K0 => 26,
            Register::K1 => 27,
            Register::Gp => 28,
            Register::Sp => 29,
            Register::Fp => 30,
            Register::Ra => 31,
        }
    }

    /// The canonical encoding of the register in instruction words.
    pub fn encode(&self) -> (r: u8)
        ensures
            r == self.idx(),
    {
        match self {
            Register::Zero => 0,
            Register::At => 1,
            Register::V0 => 2,
            Register::V1 => 3,
            Register::A0 => 4,
            Register::A1 => 5,
            Register::A2 => 6,
            Register::A3 => 7,
            Register::T0 => 8,
            Register::T1 => 9,
            Register::T2 => 10,
            Register::T3 => 11,
            Register::T4 => 12,
            Register::T5 => 13,
            Register::T6 => 14,
            Register::T7 => 15,
            Register::S0 => 16,
            Register::S1 => 17,
            Register::S2 => 18,
            Register::S3 => 19,
            Register::S4 => 20,
            Register::S5 => 21,
            Register::S6 => 22,
            Register::S7 => 23,
            Register::T8 => 24,
            Register::T9 => 25,
            Register::K0 => 26,
            Register::K1 => 27,
            Register::Gp => 28,
            Register::Sp => 29,
            Register::Fp => 30,
            Register::Ra => 31,
        }
    }

    /// The register with the given 0..31 encoding index.
    pub fn from_index(i: u8) -> (r: Option<Register>)
        ensures
            i < 32 ==> r == Some(reg_of_idx(i as int)),
            i >= 32 ==> r is None,
    {
        match i {
            0 => Some(Register::Zero),
            1 => Some(Register::At),
            2 => Some(Register::V0),
            3 => Some(Register::V1),
            4 => Some(Register::A0),
            5 => Some(Register::A1),
            6 => Some(Register::A2),
            7 => Some(Register::A3),
            8 => Some(Register::T0),
            9 => Some(Register::T1),
            10 => Some(Register::T2),
            11 => Some(Register::T3),
            12 => Some(Register::T4),
            13 => Some(Register::T5),
            14 => Some(Register::T6),
            15 => Some(Register::T7),
            16 => Some(Register::S0),
            17 => Some(Register::S1),
            18 => Some(Register::S2),
            19 => Some(Register::S3),
            20 => Some(Register::S4),
            21 => Some(Register::S5),
            22 => Some(Register::S6),
            23 => Some(Register::S7),
            24 => Some(Register::T8),
            25 => Some(Register::T9),
            26 => Some(Register::K0),
            27 => Some(Register::K1),
            28 => Some(Register::Gp),
            29 => Some(Register::Sp),
            30 => Some(Register::Fp),
            31 => Some(Register::Ra),
            _ => None,
        }
    }
}

/// The register file: one 32-bit word per register, `$zero` hard-wired to 0.
///
/// The view is the sequence of the 32 stored words, indexed by the
/// register encoding; slot 0 is always 0.
#[derive(Clone, Debug)]
pub struct Registers {
    values: Vec<Word>,
}

impl View for Registers {
    type V = Seq<Word>;

    closed spec fn view(&self) -> Seq<Word> {
        self.values@
    }
}

impl Registers {
    /// A register file is well formed when it holds exactly 32 slots and
    /// the `$zero` slot reads 0.
    pub open spec fn wf(self) -> bool {
        &&& self@.len() == 32
        &&& self@[0] == 0
    }

    /// A fresh register file with every register 0.
    pub fn new() -> (r: Registers)
        ensures
            r.wf(),
            forall|i: int| 0 <= i < 32 ==> r@[i] == 0,
    {
        let mut values: Vec<Word> = Vec::new();
        let mut i: usize = 0;
        while i < 32
            invariant
                values@.len() == i,
                i <= 32,
                forall|j: int| 0 <= j < i ==> values@[j] == 0,
            decreases 32 - i,
        {
            values.push(0);
            i = i + 1;
        }
        Registers { values }
    }

    /// Reads a register; `$zero` always reads 0.
    pub fn get(&self, register: &Register) -> (r: Word)
        requires
            self.wf(),
        ensures
            r == self@[register.idx()],
            register is Zero ==> r == 0,
    {
        let i = register.encode();
        self.values[i as usize]
    }

    /// Writes a register; a write to `$zero` is discarded.
    pub fn set(&mut self, register: &Register, value: Word)
        requires
            old(self).wf(),
        ensures
            final(self).wf(),
            register is Zero ==> final(self)@ == old(self)@,
            !(register is Zero) ==> final(self)@ == old(self)@.update(register.idx(), value),
    {
        match register {
            Register::Zero => {}
            _ => {
                let i = register.encode();
                self.values[i as usize] = value;
            }
        }
    }
}

/// The canonical written name of a register.
pub open spec fn reg_name(r: Register) -> Seq<char> {
    match r {
        Register::Zero => "$zero"@,
        Register::At => "$at"@,
        Register::V0 => "$v0"@,
        Register::V1 => "$v1"@,
        Register::A0 => "$a0"@,
        Register::A1 => "$a1"@,
        Register::A2 => "$a2"@,
        Register::A3 => "$a3"@,
        Register::T0 => "$t0"@,
        Register::T1 => "$t1"@,
        Register::T2 => "$t2"@,
        Register::T3 => "$t3"@,
        Register::T4 => "$t4"@,
        Register::T5 => "$t5"@,
        Register::T6 => "$t6"@,
        Register::T7 => "$t7"@,
        Register::S0 => "$s0"@,
        Register::S1 => "$s1"@,
        Register::S2 => "$s2"@,
        Register::S3 => "$s3"@,
        Register::S4 => "$s4"@,
        Register::S5 => "$s5"@,
        Register::S6 => "$s6"@,
        Register::S7 => "$s7"@,
        Register::T8 => "$t8"@,
        Register::T9 => "$t9"@,
        Register::K0 => "$k0"@,
        Register::K1 => "$k1"@,
        Register::Gp => "$gp"@,
        Register::Sp => "$sp"@,
        Register::Fp => "$fp"@,
        Register::Ra => "$ra"@,
    }
}

/// The register with encoding index `i`, for `0 <= i < 32`.
pub open spec fn reg_of_idx(i: int) -> Register {
    if i == 0 {
        Register::Zero
    } else if i == 1 {
        Register::At
    } else if i == 2 {
        Register::V0
    } else if i == 3 {
        Register::V1
    } else if i == 4 {
        Register::A0
    } else if i == 5 {
        Register::A1
    } else if i == 6 {
        Register::A2
    } else if i == 7 {
        Register::A3
    } else if i == 8 {
        Register::T0
    } else if i == 9 {
        Register::T1
    } else if i == 10 {
        Register::T2
    } else if i == 11 {
        Register::T3
    } else if i == 12 {
        Register::T4
    } else if i == 13 {
        Register::T5
    } else if i == 14 {
        Register::T6
    } else if i == 15 {
        Register::T7
    } else if i == 16 {
        Register::S0
    } else if i == 17 {
        Register::S1
    } else if i == 18 {
        Register::S2
    } else if i == 19 {
        Register::S3
    } else if i == 20 {
        Register::S4
    } else if i == 21 {
        Register::S5
    } else if i == 22 {
        Register::S6
    } else if i == 23 {
        Register::S7
    } else if i == 24 {
        Register::T8
    } else if i == 25 {
        Register::T9
    } else if i == 26 {
        Register::K0
    } else if i == 27 {
        Register::K1
    } else if i == 28 {
        Register::Gp
    } else if i == 29 {
        Register::Sp
    } else if i == 30 {
        Register::Fp
    } else {
        Register::Ra
    }
}

/// Indexing is the inverse of encoding: the register with a register's
/// index is that register.
pub proof fn lemma_reg_of_idx(r: Register)
    ensures
        reg_of_idx(r.idx()) == r,
{
}

/// The register written `name`, with `$0` accepted for `$zero`.
pub open spec fn reg_of_name(name: Seq<char>) -> Option<Register> {
    if name == "$zero"@ || name == "$0"@ {
        Some(Register::Zero)
    } else if name == "$at"@ {
        Some(Register::At)
    } else if name == "$v0"@ {
        Some(Register::V0)
    } else if name == "$v1"@ {
        Some(Register::V1)
    } else if name == "$a0"@ {
        Some(Register::A0)
    } else if name == "$a1"@ {
        Some(Register::A1)
    } else if name == "$a2"@ {
        Some(Register::A2)
    } else if name == "$a3"@ {
        Some(Register::A3)
    } else if name == "$t0"@ {
        Some(Register::T0)
    } else if name == "$t1"@ {
        Some(Register::T1)
    } else if name == "$t2"@ {
        Some(Register::T2)
    } else if name == "$t3"@ {
        Some(Register::T3)
    } else if name == "$t4"@ {
        Some(Register::T4)
    } else if name == "$t5"@ {
        Some(Register::T5)
    } else if name == "$t6"@ {
        Some(Register::T6)
    } else if name == "$t7"@ {
        Some(Register::T7)
    } else if name == "$s0"@ {
        Some(Register::S0)
    } else if name == "$s1"@ {
        Some(Register::S1)
    } else if name == "$s2"@ {
        Some(Register::S2)
    } else if name == "$s3"@ {
        Some(Register::S3)
    } else if name == "$s4"@ {
        Some(Register::S4)
    } else if name == "$s5"@ {
        Some(Register::S5)
    } else if name == "$s6"@ {
        Some(Register::S6)
    } else if name == "$s7"@ {
        Some(Register::S7)
    } else if name == "$t8"@ {
        Some(Register::T8)
    } else if name == "$t9"@ {
        Some(Register::T9)
    } else if name == "$k0"@ {
        Some(Register::K0)
    } else if name == "$k1"@ {
        Some(Register::K1)
    } else if name == "$gp"@ {
        Some(Register::Gp)
    } else if name == "$sp"@ {
        Some(Register::Sp)
    } else if name == "$fp"@ {
        Some(Register::Fp)
    } else if name == "$ra"@ {
        Some(Register::Ra)
    } else {
        None
    }
}

impl Register {
    /// The canonical written name of the register.
    pub fn show(&self) -> (r: &'static str)
        ensures
            r@ == reg_name(*self),
    {
        match self {
            Register::Zero => "$zero",
            Register::At => "$at",
            Register::V0 => "$v0",
            Register::V1 => "$v1",
            Register::A0 => "$a0",
            Register::A1 => "$a1",
            Register::A2 => "$a2",
            Register::A3 => "$a3",
            Register::T0 => "$t0",
            Register::T1 => "$t1",
            Register::T2 => "$t2",
            Register::T3 => "$t3",
            Register::T4 => "$t4",
            Register::T5 => "$t5",
            Register::T6 => "$t6",
            Register::T7 => "$t7",
            Register::S0 => "$s0",
            Register::S1 => "$s1",
            Register::S2 => "$s2",
            Register::S3 => "$s3",
            Register::S4 => "$s4",
            Register::S5 => "$s5",
            Register::S6 => "$s6",
            Register::S7 => "$s7",
            Register::T8 => "$t8",
            Register::T9 => "$t9",
            Register::K0 => "$k0",
            Register::K1 => "$k1",
            Register::Gp => "$gp",
            Register::Sp => "$sp",
            Register::Fp => "$fp",
            Register::Ra => "$ra",
        }
    }

    /// The register name coloured for terminal display.
    pub fn show_color(&self) -> (r: String)
        ensures
            r@ == crate::fmt::colored_seq(reg_name(*self), crate::program::REGISTER_COLOR),
    {
        crate::fmt::colored(self.show(), crate::program::REGISTER_COLOR)
    }

    /// The register written `name`, with `$0` accepted for `$zero`.
    pub fn from_name(name: &str) -> (r: Option<Register>)
        ensures
            r == reg_of_name(name@),
    {
        if str_eq(name, "$zero") || str_eq(name, "$0") {
            Some(Register::Zero)
        } else if str_eq(name, "$at") {
            Some(Register::At)
        } else if str_eq(name, "$v0") {
            Some(Register::V0)
        } else if str_eq(name, "$v1") {
            Some(Register::V1)
        } else if str_eq(name, "$a0") {
            Some(Register::A0)
        } else if str_eq(name, "$a1") {
            Some(Register::A1)
        } else if str_eq(name, "$a2") {
            Some(Register::A2)
        } else if str_eq(name, "$a3") {
            Some(Register::A3)
        } else if str_eq(name, "$t0") {
            Some(Register::T0)
        } else if str_eq(name, "$t1") {
            Some(Register::T1)
        } else if str_eq(name, "$t2") {
            Some(Register::T2)
        } else if str_eq(name, "$t3") {
            Some(Register::T3)
        } else if str_eq(name, "$t4") {
            Some(Register::T4)
        } else if str_eq(name, "$t5") {
            Some(Register::T5)
        } else if str_eq(name, "$t6") {
            Some(Register::T6)
        } else if str_eq(name, "$t7") {
            Some(Register::T7)
        } else if str_eq(name, "$s0") {
            Some(Register::S0)
        } else if str_eq(name, "$s1") {
            Some(Register::S1)
        } else if str_eq(name, "$s2") {
            Some(Register::S2)
        } else if str_eq(name, "$s3") {
            Some(Register::S3)
        } else if str_eq(name, "$s4") {
            Some(Register::S4)
        } else if str_eq(name, "$s5") {
            Some(Register::S5)
        } else if str_eq(name, "$s6") {
            Some(Register::S6)
        } else if str_eq(name, "$s7") {
            Some(Register::S7)
        } else if str_eq(name, "$t8") {
            Some(Register::T8)
        } else if str_eq(name, "$t9") {
            Some(Register::T9)
        } else if str_eq(name, "$k0") {
            Some(Register::K0)
        } else if str_eq(name, "$k1") {
            Some(Register::K1)
        } else if str_eq(name, "$gp") {
            Some(Register::Gp)
        } else if str_eq(name, "$sp") {
            Some(Register::Sp)
        } else if str_eq(name, "$fp") {
            Some(Register::Fp)
        } else if str_eq(name, "$ra") {
            Some(Register::Ra)
        } else {
            None
        }
    }
}

/// The zero register reads 0 in every well-formed register file, whatever
/// writes preceded: writes to `$zero` are discarded and writes to other
/// registers leave its slot untouched.
pub proof fn lemma_zero_register(r: Registers)
    requires
        r.wf(),
    ensures
        r@[Register::Zero.idx()] == 0,
{
}

} // verus!
