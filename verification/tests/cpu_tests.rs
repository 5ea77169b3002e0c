use ps5_emulator::cpu::{Cpu, OP_ADD, OP_HALT, OP_LOAD_R0, OP_LOAD_R1, OP_SUB};
use ps5_emulator::memory::VirtualMemory;

fn program(bytes: &[u8]) -> VirtualMemory {
    let mut m = VirtualMemory::new(2 * 1024 * 1024 * 1024);
    for (i, b) in bytes.iter().enumerate() {
        m.write8(i as u64, *b).unwrap();
    }
    m
}

#[test]
fn load_add_halt() {
    let mut m = program(&[OP_LOAD_R0, 5, OP_LOAD_R1, 7, OP_ADD, OP_HALT]);
    let mut cpu = Cpu::new();
    cpu.run(&mut m, 100).unwrap();
    assert_eq!(cpu.registers[0], 5);
    assert_eq!(cpu.registers[1], 7);
    assert_eq!(cpu.registers[2], 12);
    assert!(cpu.halted);
    assert_eq!(cpu.pc, 6);
    assert_eq!(cpu.instructions_executed, 4);
}

#[test]
fn sub_wraps() {
    let mut m = program(&[OP_LOAD_R0, 1, OP_LOAD_R1, 2, OP_SUB, OP_HALT]);
    let mut cpu = Cpu::new();
    cpu.run(&mut m, 100).unwrap();
    assert_eq!(cpu.registers[2], u64::MAX);
}

#[test]
fn unknown_opcode_is_reported() {
    let mut m = program(&[OP_LOAD_R0, 1, 0x07]);
    let mut cpu = Cpu::new();
    let err = cpu.run(&mut m, 100).unwrap_err();
    assert_eq!(err, "Opcode desconhecido: 0x07 no PC 0x2");
    assert_eq!(cpu.pc, 2);
    assert_eq!(cpu.instructions_executed, 1);
}

#[test]
fn run_respects_the_budget() {
    let mut m = program(&[OP_ADD, OP_ADD, OP_ADD, OP_ADD, OP_HALT]);
    let mut cpu = Cpu::new();
    cpu.run(&mut m, 2).unwrap();
    assert_eq!(cpu.instructions_executed, 2);
    assert!(!cpu.halted);
    cpu.run(&mut m, 2).unwrap();
    assert_eq!(cpu.instructions_executed, 2);
}

#[test]
fn halted_cpu_does_not_step() {
    let mut m = program(&[OP_HALT, OP_ADD]);
    let mut cpu = Cpu::new();
    cpu.step(&mut m).unwrap();
    assert!(cpu.halted);
    cpu.step(&mut m).unwrap();
    assert_eq!(cpu.pc, 1);
    assert_eq!(cpu.instructions_executed, 1);
}

#[test]
fn reset_gives_a_new_cpu() {
    let mut m = program(&[OP_LOAD_R0, 9, OP_HALT]);
    let mut cpu = Cpu::new();
    cpu.run(&mut m, 10).unwrap();
    cpu.reset();
    assert_eq!(cpu.registers, [0u64; 16]);
    assert_eq!(cpu.pc, 0);
    assert!(!cpu.halted);
    assert_eq!(cpu.instructions_executed, 0);
}
