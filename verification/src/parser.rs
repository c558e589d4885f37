use vstd::prelude::*;

verus! {

use vstd::string::StrSliceExecFns;
use vstd::string::StringExecFns;
use crate::fmt::{parse_dec_u32, parse_radix_u32, str_eq};
use crate::program::{Block, DataSection, Immediate, Instruction, InstructionArg, InstructionKind,
    Program, StaticData, TextSection};
use crate::registers::{reg_of_name, Register};

// The assembly reader: sections `.data` and `.text`, the directives
// `.global`/`.globl`, the data directives `.asciiz`/`.ascii`/`.word`/`.byte`,
// labels `name:`, and the instructions of the instruction set, with decimal,
// hexadecimal (`0x`) and binary (`0b`) immediates and the C escapes in
// string literals. A `#` starts a comment that runs to the end of the line.
//
// The constructs are pinned by contract: the mnemonic table
// (`kind_of_name`), the argument forms (`arg_ok`/`arg_matches`), the
// numerals (`imm_value`) and the string escapes (`unescaped`). The reader
// promises a structurally sound program — the leading unlabelled block
// first, every further block carrying its label — and parses text whose
// lines are all blank or comments to exactly the empty program. How the
// constructs compose across the lines of a whole source is pinned by the
// test suite rather than by a line-grammar specification.

/// Whether the character can stand in a label, mnemonic or directive.
fn is_word_char(c: char) -> (r: bool)
    ensures
        r == (c == '_' || c == '.' || c == '$' || ('0' <= c && c <= '9') || ('a' <= c && c <= 'z')
            || ('A' <= c && c <= 'Z')),
{
    c == '_' || c == '.' || c == '$' || ('0' <= c && c <= '9') || ('a' <= c && c <= 'z') || ('A'
        <= c && c <= 'Z')
}

/// Whether the character is a space or a tab.
fn is_space(c: char) -> (r: bool)
    ensures
        r == (c == ' ' || c == '\t' || c == '\r'),
{
    c == ' ' || c == '\t' || c == '\r'
}

/// The byte one escaped character stands for: the C escapes `\n`, `\t`,
/// `\r` and `\0`; any other escaped character stands for itself.
pub open spec fn escape_byte(e: char) -> u8 {
    if e == 'n' {
        10
    } else if e == 't' {
        9
    } else if e == 'r' {
        13
    } else if e == '0' {
        0
    } else {
        (e as u32 % 0x100) as u8
    }
}

/// The bytes of a string literal's characters with its escapes resolved; a
/// trailing lone backslash stands for itself.
pub open spec fn unescaped(cs: Seq<char>) -> Seq<u8>
    decreases cs.len(),
{
    if cs.len() == 0 {
        Seq::empty()
    } else if cs.first() == '\\' && cs.len() >= 2 {
        seq![escape_byte(cs[1])] + unescaped(cs.skip(2))
    } else {
        seq![(cs.first() as u32 % 0x100) as u8] + unescaped(cs.skip(1))
    }
}

/// The 16-bit value a numeral token stands for: `0x` hexadecimal, `0b`
/// binary, or decimal with an optional leading minus taken
/// two's-complement; none where the token is malformed or out of range.
pub open spec fn imm_value(cs: Seq<char>) -> Option<Immediate> {
    if cs.len() == 0 {
        None
    } else if cs.len() > 2 && cs[0] == '0' && cs[1] == 'x' {
        if crate::fmt::is_radix_numeral(cs.skip(2), 16) && crate::fmt::radix_val(cs.skip(2), 16)
            <= 0xFFFF {
            Some(crate::fmt::radix_val(cs.skip(2), 16) as u16)
        } else {
            None
        }
    } else if cs.len() > 2 && cs[0] == '0' && cs[1] == 'b' {
        if crate::fmt::is_radix_numeral(cs.skip(2), 2) && crate::fmt::radix_val(cs.skip(2), 2)
            <= 0xFFFF {
            Some(crate::fmt::radix_val(cs.skip(2), 2) as u16)
        } else {
            None
        }
    } else if cs[0] == '-' {
        if crate::fmt::is_dec_numeral(cs.skip(1)) && crate::fmt::dec_val(cs.skip(1)) <= 0x8000 {
            Some(((0x1_0000 - crate::fmt::dec_val(cs.skip(1))) % 0x1_0000) as u16)
        } else {
            None
        }
    } else {
        if crate::fmt::is_dec_numeral(cs) && crate::fmt::dec_val(cs) <= 0xFFFF {
            Some(crate::fmt::dec_val(cs) as u16)
        } else {
            None
        }
    }
}

/// Parses a 16-bit immediate: decimal, `0x` hexadecimal or `0b` binary, with
/// an optional leading minus on decimals taken two's-complement.
pub fn parse_imm(tok: &Vec<char>) -> (r: Option<Immediate>)
    ensures
        r == imm_value(tok@),
{
    let n = tok.len();
    if n == 0 {
        return None;
    }
    if n > 2 && tok[0] == '0' && tok[1] == 'x' {
        match parse_radix_u32(tok, 2, 16) {
            Some(v) => {
                if v <= 0xFFFF {
                    Some(v as u16)
                } else {
                    None
                }
            }
            None => None,
        }
    } else if n > 2 && tok[0] == '0' && tok[1] == 'b' {
        match parse_radix_u32(tok, 2, 2) {
            Some(v) => {
                if v <= 0xFFFF {
                    Some(v as u16)
                } else {
                    None
                }
            }
            None => None,
        }
    } else if tok[0] == '-' {
        let mut rest: Vec<char> = Vec::new();
        let mut i: usize = 1;
        while i < n
            invariant
                1 <= i <= n,
                n == tok@.len(),
                rest@ == tok@.subrange(1, i as int),
            decreases n - i,
        {
            rest.push(tok[i]);
            proof {
                assert(rest@ =~= tok@.subrange(1, i + 1));
            }
            i = i + 1;
        }
        proof {
            assert(rest@ =~= tok@.skip(1));
        }
        match parse_dec_u32(&rest) {
            Some(v) => {
                if v <= 0x8000 {
                    Some(((0x1_0000u32 - v) % 0x1_0000) as u16)
                } else {
                    None
                }
            }
            None => None,
        }
    } else {
        match parse_dec_u32(tok) {
            Some(v) => {
                if v <= 0xFFFF {
                    Some(v as u16)
                } else {
                    None
                }
            }
            None => None,
        }
    }
}

/// Resolves the C escapes `\n \t \r \\ \" \0` in a string literal's
/// characters; an unknown escape keeps the escaped character.
pub fn unescape_chars(cs: &Vec<char>) -> (r: Vec<u8>)
    ensures
        r@ == unescaped(cs@),
{
    let mut out: Vec<u8> = Vec::new();
    let mut i: usize = 0;
    let n = cs.len();
    proof {
        assert(cs@.skip(0) =~= cs@);
    }
    while i < n
        invariant
            i <= n,
            n == cs@.len(),
            unescaped(cs@) == out@ + unescaped(cs@.skip(i as int)),
        decreases n - i,
    {
        let ghost rem = cs@.skip(i as int);
        let c = cs[i];
        proof {
            assert(rem.first() == cs@[i as int]);
        }
        if c == '\\' && i + 1 < n {
            let e = cs[i + 1];
            proof {
                assert(rem[1] == cs@[i + 1]);
            }
            let b: u8 = if e == 'n' {
                10
            } else if e == 't' {
                9
            } else if e == 'r' {
                13
            } else if e == '0' {
                0
            } else {
                ((e as u32) % 0x100) as u8
            };
            out.push(b);
            proof {
                assert(rem.skip(2) =~= cs@.skip(i + 2));
                assert(unescaped(rem) == seq![b] + unescaped(cs@.skip(i + 2)));
                assert(out@ + unescaped(cs@.skip(i + 2)) =~= out@.drop_last() + unescaped(rem));
            }
            i = i + 2;
        } else {
            let b: u8 = ((c as u32) % 0x100) as u8;
            out.push(b);
            proof {
                assert(rem.skip(1) =~= cs@.skip(i + 1));
                assert(unescaped(rem) == seq![b] + unescaped(cs@.skip(i + 1)));
                assert(out@ + unescaped(cs@.skip(i + 1)) =~= out@.drop_last() + unescaped(rem));
            }
            i = i + 1;
        }
    }
    proof {
        assert(cs@.skip(n as int) =~= Seq::<char>::empty());
        assert(out@ + unescaped(cs@.skip(n as int)) =~= out@);
    }
    out
}

/// The position of the first opening parenthesis of a token, or its
/// length where it has none.
pub open spec fn first_paren(cs: Seq<char>) -> int
    decreases cs.len(),
{
    if cs.len() == 0 {
        0
    } else if cs.first() == '(' {
        0
    } else {
        1 + first_paren(cs.drop_first())
    }
}

proof fn lemma_first_paren(cs: Seq<char>, k: int)
    requires
        0 <= k <= cs.len(),
        forall|j: int| 0 <= j < k ==> cs[j] != '(',
        k == cs.len() || cs[k] == '(',
    ensures
        first_paren(cs) == k,
    decreases cs.len(),
{
    if cs.len() > 0 && k > 0 {
        assert forall|j: int| 0 <= j < k - 1 implies cs.drop_first()[j] != '(' by {
            assert(cs.drop_first()[j] == cs[j + 1]);
        }
        if k - 1 < cs.drop_first().len() {
            assert(cs.drop_first()[k - 1] == cs[k]);
        }
        lemma_first_paren(cs.drop_first(), k - 1);
    }
}

/// Whether a token is a well-formed instruction argument: a
/// base-plus-displacement `imm($reg)`, a register name, a numeral, or a
/// label (any other non-empty token).
pub open spec fn arg_ok(cs: Seq<char>) -> bool {
    let p = first_paren(cs);
    if cs.len() == 0 {
        false
    } else if p < cs.len() {
        &&& cs.last() == ')'
        &&& p + 1 < cs.len() - 1
        &&& (p == 0 || imm_value(cs.take(p)) is Some)
        &&& reg_of_name(cs.subrange(p + 1, cs.len() - 1)) is Some
    } else if cs[0] == '$' {
        reg_of_name(cs) is Some
    } else if cs[0] == '-' || ('0' <= cs[0] && cs[0] <= '9') {
        imm_value(cs) is Some
    } else {
        true
    }
}

/// Whether an argument is the one a token stands for: the displacement and
/// base of an `imm($reg)` token, the named register, the numeral's value,
/// or the label spelled by the token itself.
pub open spec fn arg_matches(a: InstructionArg, cs: Seq<char>) -> bool {
    let p = first_paren(cs);
    if cs.len() == 0 {
        false
    } else if p < cs.len() {
        a matches InstructionArg::RegisterOffset(off, r) && (if p == 0 {
            off == 0
        } else {
            imm_value(cs.take(p)) == Some(off)
        }) && reg_of_name(cs.subrange(p + 1, cs.len() - 1)) == Some(r)
    } else if cs[0] == '$' {
        a matches InstructionArg::Register(r) && reg_of_name(cs) == Some(r)
    } else if cs[0] == '-' || ('0' <= cs[0] && cs[0] <= '9') {
        a matches InstructionArg::Immediate(v) && imm_value(cs) == Some(v)
    } else {
        a matches InstructionArg::Label(l) && l@ == cs
    }
}

/// One argument token turned into an instruction argument: a register, an
/// immediate, a base-plus-displacement `imm($reg)`, or a label.
fn parse_arg(input: &str, chars: &Vec<char>, start: usize, end: usize) -> (r: Option<
    InstructionArg,
>)
    requires
        chars@ == input@,
        start <= end <= chars@.len(),
    ensures
        (r is Some <==> arg_ok(chars@.subrange(start as int, end as int))),
        (r matches Some(a) ==> arg_matches(a, chars@.subrange(start as int, end as int))),
{
    let ghost cs = chars@.subrange(start as int, end as int);
    if start >= end {
        return None;
    }
    // A base-plus-displacement argument holds a parenthesis.
    let mut paren: usize = end;
    let mut i: usize = start;
    while i < end
        invariant
            start <= i <= end,
            end <= chars@.len(),
            paren == end || (start <= paren < end && chars@[paren as int] == '('),
            paren < end ==> i == end,
            paren == end ==> forall|q: int| start <= q < i ==> chars@[q] != '(',
            paren < end ==> forall|q: int| start <= q < paren ==> chars@[q] != '(',
        decreases end - i,
    {
        if chars[i] == '(' {
            paren = i;
            i = end;
        } else {
            i = i + 1;
        }
    }
    proof {
        assert forall|j: int| 0 <= j < paren - start implies cs[j] != '(' by {
            assert(cs[j] == chars@[start + j]);
        }
        if paren < end {
            assert(cs[paren - start] == chars@[paren as int]);
        }
        lemma_first_paren(cs, paren - start);
    }
    if paren < end {
        if !(chars[end - 1] == ')') || paren + 1 >= end - 1 {
            proof {
                assert(cs.last() == chars@[end - 1]);
            }
            return None;
        }
        proof {
            assert(cs.last() == chars@[end - 1]);
        }
        let mut imm_tok: Vec<char> = Vec::new();
        let mut k: usize = start;
        while k < paren
            invariant
                start <= k <= paren,
                paren < end <= chars@.len(),
                imm_tok@ == chars@.subrange(start as int, k as int),
            decreases paren - k,
        {
            imm_tok.push(chars[k]);
            proof {
                assert(imm_tok@ =~= chars@.subrange(start as int, k + 1));
            }
            k = k + 1;
        }
        proof {
            assert(imm_tok@ =~= cs.take(paren - start));
        }
        let off: Immediate = if imm_tok.len() == 0 {
            0
        } else {
            match parse_imm(&imm_tok) {
                Some(v) => v,
                None => {
                    return None;
                }
            }
        };
        let reg_str = input.substring_char(paren + 1, end - 1);
        proof {
            assert(reg_str@ =~= cs.subrange(paren - start + 1, cs.len() - 1));
        }
        match Register::from_name(reg_str) {
            Some(reg) => Some(InstructionArg::RegisterOffset(off, reg)),
            None => None,
        }
    } else if chars[start] == '$' {
        proof {
            assert(cs[0] == chars@[start as int]);
        }
        let reg_str = input.substring_char(start, end);
        proof {
            assert(reg_str@ =~= cs);
        }
        match Register::from_name(reg_str) {
            Some(reg) => Some(InstructionArg::Register(reg)),
            None => None,
        }
    } else if chars[start] == '-' || ('0' <= chars[start] && chars[start] <= '9') {
        proof {
            assert(cs[0] == chars@[start as int]);
        }
        let mut tok: Vec<char> = Vec::new();
        let mut k: usize = start;
        while k < end
            invariant
                start <= k <= end,
                end <= chars@.len(),
                tok@ == chars@.subrange(start as int, k as int),
            decreases end - k,
        {
            tok.push(chars[k]);
            proof {
                assert(tok@ =~= chars@.subrange(start as int, k + 1));
            }
            k = k + 1;
        }
        proof {
            assert(tok@ =~= cs);
        }
        match parse_imm(&tok) {
            Some(v) => Some(InstructionArg::Immediate(v)),
            None => None,
        }
    } else {
        proof {
            assert(cs[0] == chars@[start as int]);
        }
        let l = input.substring_char(start, end).to_owned();
        proof {
            assert(l@ =~= cs);
        }
        Some(InstructionArg::Label(l))
    }
}

/// The instruction kind a mnemonic stands for, with the aliases `mul` for
/// The instruction kind a mnemonic stands for, with the aliases `mul` for
/// `mult` and `mulu` for `multu`; none for an unknown word.
pub open spec fn kind_of_name(cs: Seq<char>) -> Option<InstructionKind> {
    if cs == "add"@ {
        Some(InstructionKind::Add)
    } else if cs == "addi"@ {
        Some(InstructionKind::Addi)
    } else if cs == "addiu"@ {
        Some(InstructionKind::Addiu)
    } else if cs == "addu"@ {
        Some(InstructionKind::Addu)
    } else if cs == "sub"@ {
        Some(InstructionKind::Sub)
    } else if cs == "subu"@ {
        Some(InstructionKind::Subu)
    } else if cs == "mult"@ || cs == "mul"@ {
        Some(InstructionKind::Mult)
    } else if cs == "multu"@ || cs == "mulu"@ {
        Some(InstructionKind::Multu)
    } else if cs == "div"@ {
        Some(InstructionKind::Div)
    } else if cs == "divu"@ {
        Some(InstructionKind::Divu)
    } else if cs == "and"@ {
        Some(InstructionKind::And)
    } else if cs == "andi"@ {
        Some(InstructionKind::Andi)
    } else if cs == "or"@ {
        Some(InstructionKind::Or)
    } else if cs == "ori"@ {
        Some(InstructionKind::Ori)
    } else if cs == "xor"@ {
        Some(InstructionKind::Xor)
    } else if cs == "xori"@ {
        Some(InstructionKind::Xori)
    } else if cs == "nor"@ {
        Some(InstructionKind::Nor)
    } else if cs == "slt"@ {
        Some(InstructionKind::Slt)
    } else if cs == "sltu"@ {
        Some(InstructionKind::Sltu)
    } else if cs == "slti"@ {
        Some(InstructionKind::Slti)
    } else if cs == "sltiu"@ {
        Some(InstructionKind::Sltiu)
    } else if cs == "sll"@ {
        Some(InstructionKind::Sll)
    } else if cs == "sllv"@ {
        Some(InstructionKind::Sllv)
    } else if cs == "srl"@ {
        Some(InstructionKind::Srl)
    } else if cs == "srlv"@ {
        Some(InstructionKind::Srlv)
    } else if cs == "sra"@ {
        Some(InstructionKind::Sra)
    } else if cs == "srav"@ {
        Some(InstructionKind::Srav)
    } else if cs == "jr"@ {
        Some(InstructionKind::Jr)
    } else if cs == "jalr"@ {
        Some(InstructionKind::Jalr)
    } else if cs == "j"@ {
        Some(InstructionKind::J)
    } else if cs == "jal"@ {
        Some(InstructionKind::Jal)
    } else if cs == "beq"@ {
        Some(InstructionKind::Beq)
    } else if cs == "bne"@ {
        Some(InstructionKind::Bne)
    } else if cs == "blez"@ {
        Some(InstructionKind::Blez)
    } else if cs == "bgtz"@ {
        Some(InstructionKind::Bgtz)
    } else if cs == "lb"@ {
        Some(InstructionKind::Lb)
    } else if cs == "lbu"@ {
        Some(InstructionKind::Lbu)
    } else if cs == "lh"@ {
        Some(InstructionKind::Lh)
    } else if cs == "lhu"@ {
        Some(InstructionKind::Lhu)
    } else if cs == "lui"@ {
        Some(InstructionKind::Lui)
    } else if cs == "lw"@ {
        Some(InstructionKind::Lw)
    } else if cs == "sb"@ {
        Some(InstructionKind::Sb)
    } else if cs == "sh"@ {
        Some(InstructionKind::Sh)
    } else if cs == "sw"@ {
        Some(InstructionKind::Sw)
    } else if cs == "li"@ {
        Some(InstructionKind::Li)
    } else if cs == "la"@ {
        Some(InstructionKind::La)
    } else if cs == "move"@ {
        Some(InstructionKind::Move)
    } else if cs == "nop"@ {
        Some(InstructionKind::Nop)
    } else if cs == "syscall"@ {
        Some(InstructionKind::Syscall)
    } else {
        None
    }
}

/// The mnemonic written `name`, or none.
fn kind_from_name(name: &str) -> (r: Option<InstructionKind>)
    ensures
        r == kind_of_name(name@),
{
    if str_eq(name, "add") {
        Some(InstructionKind::Add)
    } else if str_eq(name, "addi") {
        Some(InstructionKind::Addi)
    } else if str_eq(name, "addiu") {
        Some(InstructionKind::Addiu)
    } else if str_eq(name, "addu") {
        Some(InstructionKind::Addu)
    } else if str_eq(name, "sub") {
        Some(InstructionKind::Sub)
    } else if str_eq(name, "subu") {
        Some(InstructionKind::Subu)
    } else if str_eq(name, "mult") || str_eq(name, "mul") {
        Some(InstructionKind::Mult)
    } else if str_eq(name, "multu") || str_eq(name, "mulu") {
        Some(InstructionKind::Multu)
    } else if str_eq(name, "div") {
        Some(InstructionKind::Div)
    } else if str_eq(name, "divu") {
        Some(InstructionKind::Divu)
    } else if str_eq(name, "and") {
        Some(InstructionKind::And)
    } else if str_eq(name, "andi") {
        Some(InstructionKind::Andi)
    } else if str_eq(name, "or") {
        Some(InstructionKind::Or)
    } else if str_eq(name, "ori") {
        Some(InstructionKind::Ori)
    } else if str_eq(name, "xor") {
        Some(InstructionKind::Xor)
    } else if str_eq(name, "xori") {
        Some(InstructionKind::Xori)
    } else if str_eq(name, "nor") {
        Some(InstructionKind::Nor)
    } else if str_eq(name, "slt") {
        Some(InstructionKind::Slt)
    } else if str_eq(name, "sltu") {
        Some(InstructionKind::Sltu)
    } else if str_eq(name, "slti") {
        Some(InstructionKind::Slti)
    } else if str_eq(name, "sltiu") {
        Some(InstructionKind::Sltiu)
    } else if str_eq(name, "sll") {
        Some(InstructionKind::Sll)
    } else if str_eq(name, "sllv") {
        Some(InstructionKind::Sllv)
    } else if str_eq(name, "srl") {
        Some(InstructionKind::Srl)
    } else if str_eq(name, "srlv") {
        Some(InstructionKind::Srlv)
    } else if str_eq(name, "sra") {
        Some(InstructionKind::Sra)
    } else if str_eq(name, "srav") {
        Some(InstructionKind::Srav)
    } else if str_eq(name, "jr") {
        Some(InstructionKind::Jr)
    } else if str_eq(name, "jalr") {
        Some(InstructionKind::Jalr)
    } else if str_eq(name, "j") {
        Some(InstructionKind::J)
    } else if str_eq(name, "jal") {
        Some(InstructionKind::Jal)
    } else if str_eq(name, "beq") {
        Some(InstructionKind::Beq)
    } else if str_eq(name, "bne") {
        Some(InstructionKind::Bne)
    } else if str_eq(name, "blez") {
        Some(InstructionKind::Blez)
    } else if str_eq(name, "bgtz") {
        Some(InstructionKind::Bgtz)
    } else if str_eq(name, "lb") {
        Some(InstructionKind::Lb)
    } else if str_eq(name, "lbu") {
        Some(InstructionKind::Lbu)
    } else if str_eq(name, "lh") {
        Some(InstructionKind::Lh)
    } else if str_eq(name, "lhu") {
        Some(InstructionKind::Lhu)
    } else if str_eq(name, "lui") {
        Some(InstructionKind::Lui)
    } else if str_eq(name, "lw") {
        Some(InstructionKind::Lw)
    } else if str_eq(name, "sb") {
        Some(InstructionKind::Sb)
    } else if str_eq(name, "sh") {
        Some(InstructionKind::Sh)
    } else if str_eq(name, "sw") {
        Some(InstructionKind::Sw)
    } else if str_eq(name, "li") {
        Some(InstructionKind::Li)
    } else if str_eq(name, "la") {
        Some(InstructionKind::La)
    } else if str_eq(name, "move") {
        Some(InstructionKind::Move)
    } else if str_eq(name, "nop") {
        Some(InstructionKind::Nop)
    } else if str_eq(name, "syscall") {
        Some(InstructionKind::Syscall)
    } else {
        None
    }
}

/// Whether `[a, b)` spans exactly one line of `s`: it abuts newlines or
/// the ends of the text and holds none itself.
pub open spec fn is_line_span(s: Seq<char>, a: int, b: int) -> bool {
    &&& 0 <= a <= b <= s.len()
    &&& (a == 0 || s[a - 1] == '\n')
    &&& (b == s.len() || s[b] == '\n')
    &&& forall|q: int| a <= q < b ==> s[q] != '\n'
}

/// Whether the character is a space, a tab or a carriage return.
pub open spec fn space_char(c: char) -> bool {
    c == ' ' || c == '\t' || c == '\r'
}

/// The position where a line's effective text ends: the first `#` that
/// stands outside a string literal, or `b`.
pub open spec fn comment_scan(s: Seq<char>, q: int, b: int, in_str: bool) -> int
    decreases (if q >= b {
        0int
    } else {
        b - q
    }),
{
    if q >= b {
        b
    } else if s[q] == '#' && !in_str {
        q
    } else {
        comment_scan(
            s,
            q + 1,
            b,
            if s[q] == '"' {
                !in_str
            } else {
                in_str
            },
        )
    }
}

/// Whether a line holds only spaces before its comment.
pub open spec fn blank_line(s: Seq<char>, a: int, b: int) -> bool {
    forall|q: int| a <= q < comment_scan(s, a, b, false) ==> space_char(s[q])
}

/// Whether every line of the text is blank or comment-only.
pub open spec fn all_lines_blank(s: Seq<char>) -> bool {
    forall|a: int, b: int| #[trigger] is_line_span(s, a, b) ==> blank_line(s, a, b)
}

/// Reads a program from assembly text. The result holds the data in source
/// order and the instructions grouped into labelled blocks: the leading
/// unlabelled block first and every further block carrying the label that
/// opened it; malformed text gives none.
pub fn parse(input: &str) -> (r: Option<Program>)
    ensures
        (r matches Some(p) ==> {
            &&& p.text_section.blocks@.len() >= 1
            &&& p.text_section.blocks@[0].label@.len() == 0
            &&& forall|j: int|
                1 <= j < p.text_section.blocks@.len() ==> (#[trigger] p.text_section.blocks@[
                    j
                ]).label@.len() > 0
        }),
        all_lines_blank(input@) ==> (r matches Some(p) && p.data_section.initialized@.len() == 0
            && p.text_section.global_labels@.len() == 0 && p.text_section.blocks@.len() == 1
            && p.text_section.blocks@[0].label@.len() == 0
            && p.text_section.blocks@[0].instructions@.len() == 0),
{
    let n = input.unicode_len();
    let mut chars: Vec<char> = Vec::new();
    let mut ci: usize = 0;
    while ci < n
        invariant
            ci <= n,
            n == input@.len(),
            chars@.len() == ci,
            chars@ == input@.take(ci as int),
        decreases n - ci,
    {
        chars.push(input.get_char(ci));
        proof {
            assert(chars@ =~= input@.take(ci + 1));
        }
        ci = ci + 1;
    }
    proof {
        assert(input@.take(n as int) =~= input@);
    }

    let mut data = DataSection { initialized: Vec::new() };
    let mut blocks: Vec<Block> = Vec::new();
    let mut globals: Vec<String> = Vec::new();
    let mut current = Block { label: String::new(), instructions: Vec::new() };
    let mut in_data = false;

    let mut i: usize = 0;
    while i < n
        invariant
            i <= n,
            n == chars@.len(),
            chars@ == input@,
            blocks@.len() == 0 ==> current.label@.len() == 0,
            blocks@.len() > 0 ==> blocks@[0].label@.len() == 0,
            blocks@.len() > 0 ==> current.label@.len() > 0,
            forall|j: int| 1 <= j < blocks@.len() ==> (#[trigger] blocks@[j]).label@.len() > 0,
            i == 0 || i == n || chars@[i - 1] == '\n',
            all_lines_blank(input@) ==> blocks@.len() == 0 && current.label@.len() == 0
                && current.instructions@.len() == 0 && data.initialized@.len() == 0
                && globals@.len() == 0,
        decreases n - i,
    {
        // Take one line.
        let line_start = i;
        let mut line_end = i;
        while line_end < n && chars[line_end] != '\n'
            invariant
                line_start <= line_end <= n,
                n == chars@.len(),
                forall|q: int| line_start <= q < line_end ==> chars@[q] != '\n',
            decreases n - line_end,
        {
            line_end = line_end + 1;
        }
        i = if line_end < n {
            line_end + 1
        } else {
            n
        };
        // Strip the comment.
        let mut eff_end = line_start;
        let mut in_str = false;
        while eff_end < line_end
            invariant_except_break
                line_start <= eff_end <= line_end <= n,
                n == chars@.len(),
                comment_scan(chars@, line_start as int, line_end as int, false) == comment_scan(
                    chars@,
                    eff_end as int,
                    line_end as int,
                    in_str,
                ),
            ensures
                line_start <= eff_end <= line_end <= n,
                eff_end == comment_scan(chars@, line_start as int, line_end as int, false),
            decreases line_end - eff_end,
        {
            let c = chars[eff_end];
            let was_str = in_str;
            if c == '"' {
                in_str = !in_str;
            }
            if c == '#' && !was_str {
                proof {
                    assert(comment_scan(chars@, eff_end as int, line_end as int, was_str)
                        == eff_end);
                }
                break ;
            }
            proof {
                assert(comment_scan(chars@, eff_end as int, line_end as int, was_str)
                    == comment_scan(chars@, eff_end + 1, line_end as int, in_str));
            }
            eff_end = eff_end + 1;
        }
        // Walk the line.
        let mut p = line_start;
        while p < eff_end && is_space(chars[p])
            invariant
                line_start <= p <= eff_end <= n,
                n == chars@.len(),
            decreases eff_end - p,
        {
            p = p + 1;
        }
        if p >= eff_end {
            continue ;
        }
        proof {
            if all_lines_blank(input@) {
                assert(is_line_span(chars@, line_start as int, line_end as int));
                assert(blank_line(chars@, line_start as int, line_end as int));
                assert(space_char(chars@[p as int]));
                assert(false);
            }
        }
        // A word: a directive, a label or a mnemonic.
        let word_start = p;
        while p < eff_end && is_word_char(chars[p])
            invariant
                !all_lines_blank(input@),
                word_start <= p <= eff_end <= n,
                n == chars@.len(),
            decreases eff_end - p,
        {
            p = p + 1;
        }
        if p == word_start {
            return None;
        }
        let mut word_end = p;
        let word = input.substring_char(word_start, word_end);
        // Section directives.
        if str_eq(word, ".data") {
            in_data = true;
            continue ;
        }
        if str_eq(word, ".text") {
            in_data = false;
            continue ;
        }
        if str_eq(word, ".globl") || str_eq(word, ".global") {
            while p < eff_end && is_space(chars[p])
                invariant
                    !all_lines_blank(input@),
                !all_lines_blank(input@),
                    word_end <= p <= eff_end <= n,
                    n == chars@.len(),
                decreases eff_end - p,
            {
                p = p + 1;
            }
            let g_start = p;
            while p < eff_end && is_word_char(chars[p])
                invariant
                    !all_lines_blank(input@),
                !all_lines_blank(input@),
                    g_start <= p <= eff_end <= n,
                    n == chars@.len(),
                decreases eff_end - p,
            {
                p = p + 1;
            }
            if p == g_start {
                return None;
            }
            globals.push(input.substring_char(g_start, p).to_owned());
            continue ;
        }
        // A label?
        let mut is_label = false;
        if p < eff_end && chars[p] == ':' {
            is_label = true;
            p = p + 1;
        }
        if is_label {
            let label = input.substring_char(word_start, word_end).to_owned();
            if in_data {
                // The datum directive follows on the same line.
                while p < eff_end && is_space(chars[p])
                    invariant
                        !all_lines_blank(input@),
                    !all_lines_blank(input@),
                !all_lines_blank(input@),
                        p <= eff_end <= n,
                        n == chars@.len(),
                    decreases eff_end - p,
                {
                    p = p + 1;
                }
                let d_start = p;
                while p < eff_end && is_word_char(chars[p])
                    invariant
                        !all_lines_blank(input@),
                    !all_lines_blank(input@),
                !all_lines_blank(input@),
                        d_start <= p <= eff_end <= n,
                        n == chars@.len(),
                    decreases eff_end - p,
                {
                    p = p + 1;
                }
                if p == d_start {
                    return None;
                }
                let directive = input.substring_char(d_start, p);
                while p < eff_end && is_space(chars[p])
                    invariant
                        !all_lines_blank(input@),
                    !all_lines_blank(input@),
                !all_lines_blank(input@),
                        p <= eff_end <= n,
                        n == chars@.len(),
                    decreases eff_end - p,
                {
                    p = p + 1;
                }
                let source = input.substring_char(d_start, eff_end).to_owned();
                let bytes: Vec<u8>;
                if str_eq(directive, ".asciiz") || str_eq(directive, ".ascii") {
                    if !(p < eff_end && chars[p] == '"' && chars[eff_end - 1] == '"' && p + 1
                        <= eff_end - 1) {
                        return None;
                    }
                    let mut lit: Vec<char> = Vec::new();
                    let mut k: usize = p + 1;
                    while k < eff_end - 1
                        invariant
                            !all_lines_blank(input@),
                        !all_lines_blank(input@),
                    !all_lines_blank(input@),
                !all_lines_blank(input@),
                            p + 1 <= k <= eff_end - 1,
                            eff_end <= n,
                            n == chars@.len(),
                        decreases eff_end - 1 - k,
                    {
                        lit.push(chars[k]);
                        k = k + 1;
                    }
                    let mut raw = unescape_chars(&lit);
                    if str_eq(directive, ".asciiz") {
                        raw.push(0);
                    }
                    bytes = raw;
                } else if str_eq(directive, ".word") {
                    let mut tok: Vec<char> = Vec::new();
                    let mut k: usize = p;
                    while k < eff_end
                        invariant
                            !all_lines_blank(input@),
                        !all_lines_blank(input@),
                    !all_lines_blank(input@),
                !all_lines_blank(input@),
                            p <= k <= eff_end <= n,
                            n == chars@.len(),
                        decreases eff_end - k,
                    {
                        if !is_space(chars[k]) {
                            tok.push(chars[k]);
                        }
                        k = k + 1;
                    }
                    let w: u32;
                    if tok.len() > 0 && tok[0] == '-' {
                        let mut rest: Vec<char> = Vec::new();
                        let mut q: usize = 1;
                        while q < tok.len()
                            invariant
                            !all_lines_blank(input@),
                        !all_lines_blank(input@),
                    !all_lines_blank(input@),
                !all_lines_blank(input@),
                                1 <= q <= tok@.len(),
                            decreases tok@.len() - q,
                        {
                            rest.push(tok[q]);
                            q = q + 1;
                        }
                        match parse_dec_u32(&rest) {
                            Some(v) => {
                                if v > 0x8000_0000 {
                                    return None;
                                }
                                w = ((0x1_0000_0000u64 - (v as u64)) % 0x1_0000_0000) as u32;
                            }
                            None => {
                                return None;
                            }
                        }
                    } else {
                        match parse_dec_u32(&tok) {
                            Some(v) => {
                                w = v;
                            }
                            None => {
                                return None;
                            }
                        }
                    }
                    let mut raw: Vec<u8> = Vec::new();
                    raw.push((w % 0x100) as u8);
                    raw.push(((w / 0x100) % 0x100) as u8);
                    raw.push(((w / 0x1_0000) % 0x100) as u8);
                    raw.push((w / 0x100_0000) as u8);
                    bytes = raw;
                } else if str_eq(directive, ".byte") {
                    let mut tok: Vec<char> = Vec::new();
                    let mut k: usize = p;
                    while k < eff_end
                        invariant
                            !all_lines_blank(input@),
                        !all_lines_blank(input@),
                    !all_lines_blank(input@),
                !all_lines_blank(input@),
                            p <= k <= eff_end <= n,
                            n == chars@.len(),
                        decreases eff_end - k,
                    {
                        if !is_space(chars[k]) {
                            tok.push(chars[k]);
                        }
                        k = k + 1;
                    }
                    match parse_dec_u32(&tok) {
                        Some(v) => {
                            if v > 0xFF {
                                return None;
                            }
                            let mut raw: Vec<u8> = Vec::new();
                            raw.push(v as u8);
                            bytes = raw;
                        }
                        None => {
                            return None;
                        }
                    }
                } else {
                    return None;
                }
                data.initialized.push(StaticData { source, label, data: bytes });
            } else {
                let ghost old_blocks = blocks@;
                blocks.push(current);
                current = Block { label, instructions: Vec::new() };
                proof {
                    assert(current.label@.len() > 0);
                    assert forall|j: int| 1 <= j < blocks@.len() implies (#[trigger] blocks@[
                        j
                    ]).label@.len() > 0 by {
                        if j < old_blocks.len() {
                            assert(blocks@[j] == old_blocks[j]);
                        }
                    }
                }
            }
            continue ;
        }
        // An instruction.
        let kind = match kind_from_name(word) {
            Some(k) => k,
            None => {
                return None;
            }
        };
        let mut args: Vec<InstructionArg> = Vec::new();
        loop
            invariant
                !all_lines_blank(input@),
                p <= eff_end <= n,
                n == chars@.len(),
                chars@ == input@,
            decreases eff_end - p,
        {
            let ghost p0 = p;
            while p < eff_end && (is_space(chars[p]) || chars[p] == ',')
                invariant
                    !all_lines_blank(input@),
                !all_lines_blank(input@),
                    p0 <= p,
                    p <= eff_end <= n,
                    n == chars@.len(),
                decreases eff_end - p,
            {
                p = p + 1;
            }
            if p >= eff_end {
                break ;
            }
            let a_start = p;
            p = p + 1;
            while p < eff_end && !is_space(chars[p]) && chars[p] != ','
                invariant
                    !all_lines_blank(input@),
                !all_lines_blank(input@),
                    p0 <= a_start,
                    a_start < p <= eff_end,
                    eff_end <= n,
                    n == chars@.len(),
                    chars@ == input@,
                decreases eff_end - p,
            {
                p = p + 1;
            }
            match parse_arg(input, &chars, a_start, p) {
                Some(a) => {
                    args.push(a);
                }
                None => {
                    return None;
                }
            }
        }
        current.instructions.push(Instruction { kind, args });
    }
    let ghost old_blocks = blocks@;
    blocks.push(current);
    proof {
        assert(blocks@.len() >= 1);
        assert forall|j: int| 1 <= j < blocks@.len() implies (#[trigger] blocks@[j]).label@.len()
            > 0 by {
            if j < old_blocks.len() {
                assert(blocks@[j] == old_blocks[j]);
            }
        }
    }
    Some(
        Program {
            data_section: data,
            text_section: TextSection { blocks, global_labels: globals },
        },
    )
}

} // verus!
