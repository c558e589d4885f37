use mips_vm::assembler::{decode, encode_instruction, InstructionFormat};
use mips_vm::fmt::colored;
use mips_vm::memory::LabelMap;
use mips_vm::parser::parse;
use mips_vm::program::{Instruction, InstructionArg, InstructionKind};
use mips_vm::registers::Register;

#[test]
fn test() {
    let input = "\
.data
greeting: .asciiz \"hi there\"
count: .word 3
.text
.globl main
main:
    la $t0, greeting
    li $t1, 0x10
    addi $t1, $t1, -1
    lw $t2, 0($t0)
    syscall
";
    let prog = parse(input);
    assert_ne!(prog, None);
    let prog = prog.unwrap();
    assert_eq!(prog.data_section.initialized.len(), 2);
    assert_eq!(prog.data_section.initialized[0].data, b"hi there\0".to_vec());
    assert_eq!(prog.data_section.initialized[1].data, vec![3, 0, 0, 0]);
    assert_eq!(prog.text_section.global_labels, vec!["main".to_string()]);
    assert_eq!(prog.text_section.blocks.len(), 2);
    assert_eq!(prog.text_section.blocks[1].label, "main".to_string());
    let instrs = &prog.text_section.blocks[1].instructions;
    assert_eq!(instrs.len(), 5);
    assert_eq!(instrs[0].kind, InstructionKind::La);
    assert_eq!(
        instrs[1].args[1],
        InstructionArg::Immediate(0x10)
    );
    assert_eq!(instrs[2].args[2], InstructionArg::Immediate(0xFFFF));
    assert_eq!(
        instrs[3].args[1],
        InstructionArg::RegisterOffset(0, Register::T0)
    );
}

#[test]
fn parser_hello_world() {
    let input = "\
.data
msg: .asciiz \"Hello, world!\\n\"
.text
main:
    la $a0, msg
    li $v0, 4
    syscall
    li $v0, 10
    syscall
";
    let prog = parse(input);
    assert_ne!(prog, None);
    let prog = prog.unwrap();
    let shown = prog.show();
    assert!(shown.contains(".data"));
    assert!(shown.contains(".text"));
    assert!(shown.contains("la $a0, msg"));
    assert!(shown.contains("syscall"));
}

#[test]
fn parse_rejects_junk() {
    assert_eq!(parse(".text\nmain:\n bogus $t0\n"), None);
    assert_eq!(parse(".text\nmain:\n li $t0, 99999999\n"), None);
    assert_eq!(parse(".data\nx: .word\n.text\nmain:\n nop\n"), None);
    assert_eq!(parse(".text\nmain:\n beqz $t0, done\n"), None);
}

#[test]
fn parse_accepts_blank_and_comment_lines() {
    for src in ["", "\n\n", "  # a comment\n\t\n# another\n"] {
        let p = parse(src).expect("blank source must parse");
        assert_eq!(p.data_section.initialized.len(), 0);
        assert_eq!(p.text_section.global_labels.len(), 0);
        assert_eq!(p.text_section.blocks.len(), 1);
        assert_eq!(p.text_section.blocks[0].label, String::new());
        assert_eq!(p.text_section.blocks[0].instructions.len(), 0);
    }
}

#[test]
fn encode_decode_round_trip() {
    let labels = LabelMap::new();
    // add $t0, $t1, $t2 packs as 0x012A4020.
    let add = Instruction {
        kind: InstructionKind::Add,
        args: vec![
            InstructionArg::Register(Register::T0),
            InstructionArg::Register(Register::T1),
            InstructionArg::Register(Register::T2),
        ],
    };
    let w = encode_instruction(&add, &labels).unwrap();
    assert_eq!(w, 0x012A_4020);
    let (kind, format) = decode(w).unwrap();
    assert_eq!(kind, InstructionKind::Add);
    match format {
        InstructionFormat::Register(f) => {
            assert_eq!(f.rd, Some(Register::T0));
            assert_eq!(f.rs, Some(Register::T1));
            assert_eq!(f.rt, Some(Register::T2));
            assert_eq!(f.shamt, None);
        }
        _ => panic!("wrong format"),
    }
    // addi $t0, $t1, 0x1234 packs as I-format.
    let addi = Instruction {
        kind: InstructionKind::Addi,
        args: vec![
            InstructionArg::Register(Register::T0),
            InstructionArg::Register(Register::T1),
            InstructionArg::Immediate(0x1234),
        ],
    };
    let w = encode_instruction(&addi, &labels).unwrap();
    assert_eq!(w, 0x2128_1234);
    let (kind, format) = decode(w).unwrap();
    assert_eq!(kind, InstructionKind::Addi);
    match format {
        InstructionFormat::Immediate(f) => {
            assert_eq!(f.rt, Some(Register::T0));
            assert_eq!(f.rs, Some(Register::T1));
            assert_eq!(f.imm, 0x1234);
        }
        _ => panic!("wrong format"),
    }
    // An undefined word decodes to nothing.
    assert_eq!(decode(0xFFFF_FFFF), None);
}

#[test]
fn encode_rejects_wide_shift() {
    let labels = LabelMap::new();
    let sll = Instruction {
        kind: InstructionKind::Sll,
        args: vec![
            InstructionArg::Register(Register::T0),
            InstructionArg::Register(Register::T1),
            InstructionArg::Immediate(40),
        ],
    };
    assert!(encode_instruction(&sll, &labels).is_err());
}

#[test]
fn colour_escape_shape() {
    assert_eq!(colored("x", 9), "\u{1b}[38;5;9mx\u{1b}[0m");
    assert_eq!(
        Register::T0.show_color(),
        "\u{1b}[38;5;214m$t0\u{1b}[0m"
    );
}

#[test]
fn instruction_show() {
    let i = Instruction {
        kind: InstructionKind::Lw,
        args: vec![
            InstructionArg::Register(Register::T2),
            InstructionArg::RegisterOffset(4, Register::Sp),
        ],
    };
    assert_eq!(i.show(), "lw $t2, 4($sp)");
}
