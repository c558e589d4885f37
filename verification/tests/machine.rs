use mips_vm::address::Address;
use mips_vm::memory::{Memory, MemoryError};
use mips_vm::parser::parse;
use mips_vm::program::InstructionKind;
use mips_vm::registers::Register;
use mips_vm::vm::{RunOutcome, VM};

const HELLO_WORLD: &str = "\
.data
msg: .asciiz \"Hello, world!\\n\"
.text
main:
    la $a0, msg
    li $v0, 4
    syscall
    li $v0, 10
    syscall
";

fn run_to_exit(source: &str) -> (VM, Vec<u8>) {
    let prog = parse(source);
    assert_ne!(prog, None);
    let mut vm = VM::new(prog.unwrap(), Vec::new()).expect("program failed to load");
    let entry = vm.entrypoint().expect("No entrypoint found");
    let outcome = vm.execute(entry, 1_000_000).expect("program faulted");
    assert_eq!(outcome, RunOutcome::Exited);
    let out = vm.take_output();
    (vm, out)
}

#[test]
fn hello_world() {
    let input = HELLO_WORLD;
    let prog = parse(input);
    assert_ne!(prog, None);
    let program = prog.unwrap();
    let entry_missing = "No entry block found";
    let mut vm = VM::new(program, Vec::new()).expect("program failed to load");
    let entry = vm.entrypoint().expect(entry_missing);
    let outcome = vm.execute(entry, 1_000_000).expect("program faulted");
    assert_eq!(outcome, RunOutcome::Exited);
    assert_eq!(vm.take_output(), b"Hello, world!\n".to_vec());
}

#[test]
fn vm_hello_world() {
    let input = HELLO_WORLD;
    let prog = parse(input);
    assert_ne!(prog, None);
    let program = prog.unwrap();
    let mut vm = VM::new(program, Vec::new()).expect("program failed to load");
    let entry = vm.entrypoint().expect("No entrypoint found");
    let outcome = vm.execute(entry, 1_000_000).expect("program faulted");
    assert_eq!(outcome, RunOutcome::Exited);
    assert_eq!(vm.take_output(), b"Hello, world!\n".to_vec());
}

#[test]
fn arithmetic_prints_seven() {
    let src = "\
.text
main:
    li $t0, 7
    li $t1, 5
    sub $t2, $t0, $t1
    add $a0, $t2, $t1
    li $v0, 1
    syscall
    li $v0, 10
    syscall
";
    let (_, out) = run_to_exit(src);
    assert_eq!(out, b"7".to_vec());
}

#[test]
fn branch_counts_down() {
    let src = "\
.text
main:
    li $t0, 3
loop:
    move $a0, $t0
    li $v0, 1
    syscall
    li $v0, 11
    li $a0, 10
    syscall
    addi $t0, $t0, -1
    bne $t0, $zero, loop
    li $v0, 10
    syscall
";
    let (_, out) = run_to_exit(src);
    assert_eq!(out, b"3\n2\n1\n".to_vec());
}

#[test]
fn call_and_return_doubles() {
    let src = "\
.text
main:
    li $a0, 21
    jal dbl
    li $v0, 1
    syscall
    li $v0, 10
    syscall
dbl:
    add $a0, $a0, $a0
    jr $ra
";
    let (_, out) = run_to_exit(src);
    assert_eq!(out, b"42".to_vec());
}

#[test]
fn sbrk_returns_old_break_and_grows_heap() {
    let src = "\
.text
main:
    li $a0, 16
    li $v0, 9
    syscall
    sw $v0, 0($v0)
    move $a0, $v0
    li $v0, 1
    syscall
    li $v0, 10
    syscall
";
    let (vm, out) = run_to_exit(src);
    // The old break is the heap start, 0x10010000.
    assert_eq!(out, b"268500992".to_vec());
    let heap = vm.memory().heap();
    assert_eq!(heap.start_address.unwrap(), 0x1001_0000);
    assert_eq!(heap.end_address.unwrap(), 0x1001_0000 + 16);
}

#[test]
fn stack_round_trip() {
    let prog = parse(".text\nmain:\n nop\n").unwrap();
    let mut mem = Memory::load(prog, Vec::new()).unwrap();
    mem.stack_push_word(0xDEAD_BEEF).unwrap();
    assert_eq!(mem.stack().start_address.unwrap(), 0x7FFF_FFFF - 4);
    assert_eq!(mem.stack_pop_word().unwrap(), 0xDEAD_BEEF);
    assert_eq!(mem.stack().start_address.unwrap(), 0x7FFF_FFFF);
    // The same trip byte by byte.
    mem.stack_push(&[0xEF, 0xBE, 0xAD, 0xDE]).unwrap();
    assert_eq!(mem.stack_pop(4).unwrap(), vec![0xEF, 0xBE, 0xAD, 0xDE]);
}

#[test]
fn word_store_load_round_trip() {
    let prog = parse(".data\nx: .word 0\n.text\nmain:\n nop\n").unwrap();
    let mut mem = Memory::load(prog, Vec::new()).unwrap();
    let a = Address::new(0x1001_0000);
    mem.write_word(a, 0x0102_0304).unwrap();
    assert_eq!(mem.read_word(a).unwrap(), 0x0102_0304);
    // Little-endian byte order in memory.
    assert_eq!(mem.read(a, 4).unwrap(), vec![0x04, 0x03, 0x02, 0x01]);
    mem.write_byte(a, 0xAB).unwrap();
    assert_eq!(mem.read_byte(a).unwrap(), 0xAB);
}

#[test]
fn label_points_at_datum() {
    let src = ".data\none: .word 7\ntwo: .asciiz \"hi\"\n.text\nmain:\n nop\n";
    let prog = parse(src).unwrap();
    let mem = Memory::load(prog, Vec::new()).unwrap();
    let one = mem.address_of_label("one").unwrap();
    assert_eq!(one.unwrap(), 0x1001_0000);
    let two = mem.address_of_label("two").unwrap();
    assert_eq!(two.unwrap(), 0x1001_0004);
    assert_eq!(mem.read(two, 3).unwrap(), vec![b'h', b'i', 0]);
    assert!(matches!(
        mem.address_of_label("absent"),
        Err(MemoryError::InvalidLabel)
    ));
}

#[test]
fn text_pages_fault_on_write() {
    let prog = parse(".text\nmain:\n nop\n").unwrap();
    let mut mem = Memory::load(prog, Vec::new()).unwrap();
    let r = mem.write_byte(Address::new(0x0040_0000), 1);
    assert!(matches!(r, Err(MemoryError::ProtectionFault)));
    // The word that was there still reads back.
    assert!(mem.read_word(Address::new(0x0040_0000)).is_ok());
}

#[test]
fn heap_collision_fails_cleanly() {
    let prog = parse(".text\nmain:\n nop\n").unwrap();
    let mut mem = Memory::load(prog, Vec::new()).unwrap();
    let r = mem.heap_allocate(0x7000_0000);
    assert!(matches!(r, Err(MemoryError::InvalidHeap)));
    assert_eq!(mem.heap().end_address.unwrap(), 0x1001_0000);
}

#[test]
fn read_int_consumes_input() {
    let src = "\
.text
main:
    li $v0, 5
    syscall
    move $a0, $v0
    li $v0, 1
    syscall
    li $v0, 10
    syscall
";
    let prog = parse(src).unwrap();
    let mut vm = VM::new(prog, Vec::new()).unwrap();
    let entry = vm.entrypoint().unwrap();
    let outcome = vm.execute(entry, 1_000_000).unwrap();
    assert_eq!(
        outcome,
        RunOutcome::NeedInput(mips_vm::vm::InputKind::Int)
    );
    vm.give_input(mips_vm::vm::InputValue::Line(b"1234".to_vec()));
    let outcome = vm.resume(1_000_000).unwrap();
    assert_eq!(outcome, RunOutcome::Exited);
    assert_eq!(vm.take_output(), b"1234".to_vec());
}

#[test]
fn zero_register_ignores_writes() {
    let src = "\
.text
main:
    li $zero, 99
    move $a0, $zero
    li $v0, 1
    syscall
    li $v0, 10
    syscall
";
    let (_, out) = run_to_exit(src);
    assert_eq!(out, b"0".to_vec());
}

#[test]
fn compressed_dump_keeps_nonzero_shards() {
    let src = ".data\nx: .word 257\n.text\nmain:\n li $t0, 1\n syscall\n";
    let prog = parse(src).unwrap();
    let mem = Memory::load(prog, Vec::new()).unwrap();
    let dump = mem.dump(true, 128);
    // One non-zero text shard and one non-zero data shard survive; the
    // all-zero remainders of the pages are dropped.
    assert_eq!(dump.len(), 256);
    // li $t0, 1 encodes little-endian at the front of the text page.
    assert_eq!(&dump[0..4], &[0x01, 0x00, 0x00, 0x01]);
    // .word 257 at the front of the data page.
    assert_eq!(&dump[128..132], &[0x01, 0x01, 0x00, 0x00]);
}

#[test]
fn register_names_round() {
    assert_eq!(Register::Zero.show(), "$zero");
    assert_eq!(Register::from_name("$t5"), Some(Register::T5));
    assert_eq!(Register::from_name("$0"), Some(Register::Zero));
    assert_eq!(Register::from_name("$nope"), None);
    assert_eq!(Register::T5.encode(), 13);
    assert_eq!(InstructionKind::Syscall.show(), "syscall");
}

#[test]
fn address_arithmetic() {
    let a = Address::new(0x0040_1234);
    assert_eq!(a.page_number(), 0x401);
    assert_eq!(a.page_offset(), 0x234);
    assert_eq!(a.to_le_bytes(), [0x34, 0x12, 0x40, 0x00]);
    assert_eq!(Address::from_le_bytes([0x34, 0x12, 0x40, 0x00]), a);
    assert_eq!(a.offset(-4).unwrap(), 0x0040_1230);
    assert_eq!(a.show(), "0x00401234");
    assert_eq!(Address::from_page_number(0x401).unwrap(), 0x0040_1000);
}
