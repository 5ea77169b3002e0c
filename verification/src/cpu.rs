//! A small interpreter CPU: sixteen 64-bit registers, a program counter and
//! five instructions read from the virtual memory.
use crate::memory::{byte_at, out_of_range_text, page_of, touch, MemView, VirtualMemory, PAGE_SIZE};
use crate::text::{hex, hex2, hex2_string, hex_string};
use vstd::prelude::*;
use vstd::string::StringExecFns;

verus! {

/// `LOAD R0, imm8`
pub const OP_LOAD_R0: u8 = 0x01;
/// `LOAD R1, imm8`
pub const OP_LOAD_R1: u8 = 0x02;
/// `ADD R2 = R0 + R1` (wrapping)
pub const OP_ADD: u8 = 0x10;
/// `SUB R2 = R0 - R1` (wrapping)
pub const OP_SUB: u8 = 0x11;
/// `HALT`
pub const OP_HALT: u8 = 0xFF;

/// Abstract state of the interpreter CPU.
pub ghost struct CpuState {
    pub registers: Seq<u64>,
    pub pc: u64,
    pub halted: bool,
    pub instructions_executed: u64,
}

/// The state of a freshly created or reset CPU.
pub open spec fn initial_cpu_state() -> CpuState {
    CpuState {
        registers: Seq::new(16, |i: int| 0u64),
        pc: 0,
        halted: false,
        instructions_executed: 0,
    }
}

/// Text of the error returned for an unknown opcode at `pc`:
/// `"Opcode desconhecido: 0x"`, the opcode on two upper-case hexadecimal digits,
/// `" no PC 0x"` and the program counter in upper-case hexadecimal.
pub open spec fn unknown_opcode_text(opcode: u8, pc: u64) -> Seq<char> {
    "Opcode desconhecido: 0x"@ + hex2(opcode as nat) + " no PC 0x"@ + hex(pc as nat)
}

/// Writes the unknown-opcode error for `opcode` at `pc`.
fn unknown_opcode_message(opcode: u8, pc: u64) -> (s: String)
    ensures
        s@ == unknown_opcode_text(opcode, pc),
{
    let mut s = String::from_str("Opcode desconhecido: 0x");
    let op = hex2_string(opcode);
    s.append(op.as_str());
    s.append(" no PC 0x");
    let at = hex_string(pc);
    s.append(at.as_str());
    s
}

/// The state after an instruction that completed: the program counter moves by
/// `len` and the counter of executed instructions grows by one.
pub open spec fn retire(c: CpuState, regs: Seq<u64>, len: u64, halted: bool) -> CpuState {
    CpuState {
        registers: regs,
        pc: (c.pc + len) as u64,
        halted,
        instructions_executed: (c.instructions_executed + 1) as u64,
    }
}

/// One step of the CPU on the memory pages `m`: the new CPU state, the new
/// pages (reads allocate pages) and the outcome.
pub open spec fn cpu_step(c: CpuState, m: MemView) -> (CpuState, MemView, Result<(), Seq<char>>) {
    if c.halted {
        (c, m, Ok(()))
    } else if c.pc >= m.size {
        (c, m, Err(out_of_range_text(c.pc)))
    } else {
        let opcode = byte_at(m, c.pc);
        let m1 = touch(m, page_of(c.pc));
        if opcode == OP_LOAD_R0 || opcode == OP_LOAD_R1 {
            let a = (c.pc + 1) as u64;
            if a >= m1.size {
                (c, m1, Err(out_of_range_text(a)))
            } else {
                let value = byte_at(m1, a) as u64;
                let r = if opcode == OP_LOAD_R0 { 0int } else { 1int };
                (retire(c, c.registers.update(r, value), 2, false), touch(m1, page_of(a)), Ok(()))
            }
        } else if opcode == OP_ADD {
            let v = ((c.registers[0] + c.registers[1]) % 0x1_0000_0000_0000_0000) as u64;
            (retire(c, c.registers.update(2, v), 1, false), m1, Ok(()))
        } else if opcode == OP_SUB {
            let v = ((c.registers[0] - c.registers[1]) % 0x1_0000_0000_0000_0000) as u64;
            (retire(c, c.registers.update(2, v), 1, false), m1, Ok(()))
        } else if opcode == OP_HALT {
            (retire(c, c.registers, 1, true), m1, Ok(()))
        } else {
            (c, m1, Err(unknown_opcode_text(opcode, c.pc)))
        }
    }
}

/// A step that succeeds on a running CPU executes exactly one instruction.
pub proof fn lemma_step_counts(c: CpuState, m: MemView)
    requires
        !c.halted,
        c.instructions_executed < u64::MAX,
        cpu_step(c, m).2 is Ok,
    ensures
        cpu_step(c, m).0.instructions_executed == c.instructions_executed + 1,
{
}

/// Steps the CPU until it halts, fails, or has executed `max` instructions in total.
pub open spec fn cpu_run(c: CpuState, m: MemView, max: u64) -> (CpuState, MemView, Result<(), Seq<char>>)
    decreases max - c.instructions_executed,
{
    if c.halted || c.instructions_executed >= max {
        (c, m, Ok(()))
    } else {
        let (c2, m2, r) = cpu_step(c, m);
        if r is Err {
            (c2, m2, r)
        } else {
            proof {
                lemma_step_counts(c, m);
            }
            cpu_run(c2, m2, max)
        }
    }
}

/// The interpreter CPU.
#[derive(Clone, Debug)]
pub struct Cpu {
    pub registers: [u64; 16],
    pub pc: u64,
    pub halted: bool,
    pub instructions_executed: u64,
}

impl View for Cpu {
    type V = CpuState;

    open spec fn view(&self) -> CpuState {
        CpuState {
            registers: self.registers@,
            pc: self.pc,
            halted: self.halted,
            instructions_executed: self.instructions_executed,
        }
    }
}

impl Cpu {
    /// A CPU with all registers at zero, the program counter at zero, running.
    pub fn new() -> (c: Self)
        ensures
            c@ == initial_cpu_state(),
    {
        let c = Cpu { registers: [0u64; 16], pc: 0, halted: false, instructions_executed: 0 };
        proof {
            assert(c@.registers =~= initial_cpu_state().registers);
        }
        c
    }

    /// Puts the CPU back in its initial state.
    pub fn reset(&mut self)
        ensures
            final(self)@ == initial_cpu_state(),
    {
        self.registers = [0u64; 16];
        self.pc = 0;
        self.halted = false;
        self.instructions_executed = 0;
        proof {
            assert(self@.registers =~= initial_cpu_state().registers);
        }
    }

    /// Executes one instruction at the program counter (nothing when halted).
    pub fn step(&mut self, memory: &mut VirtualMemory) -> (r: Result<(), String>)
        requires
            old(memory).wf(),
            cpu_step(old(self)@, old(memory)@).2 is Ok && !old(self).halted ==> old(self).instructions_executed
                < u64::MAX,
        ensures
            final(memory).wf(),
            ({
                let (c, m, res) = cpu_step(old(self)@, old(memory)@);
                &&& final(self)@ == c
                &&& final(memory)@ == m
                &&& r is Ok <==> res is Ok
                &&& r matches Err(e) ==> res == Err::<(), Seq<char>>(e@)
            }),
    {
        if self.halted {
            return Ok(());
        }
        let pc = self.pc;
        let opcode = memory.read8(pc)?;
        if opcode == OP_LOAD_R0 || opcode == OP_LOAD_R1 {
            let value = memory.read8(pc + 1)?;
            if opcode == OP_LOAD_R0 {
                self.registers[0] = value as u64;
            } else {
                self.registers[1] = value as u64;
            }
            self.pc = pc + 2;
        } else if opcode == OP_ADD {
            let v = self.registers[0].wrapping_add(self.registers[1]);
            self.registers[2] = v;
            self.pc = pc + 1;
        } else if opcode == OP_SUB {
            let v = self.registers[0].wrapping_sub(self.registers[1]);
            self.registers[2] = v;
            self.pc = pc + 1;
        } else if opcode == OP_HALT {
            self.halted = true;
            self.pc = pc + 1;
        } else {
            return Err(unknown_opcode_message(opcode, pc));
        }
        self.instructions_executed = self.instructions_executed + 1;
        Ok(())
    }

    /// Steps until the CPU halts or has executed `max_instructions` instructions
    /// in total; stops at the first error.
    pub fn run(&mut self, memory: &mut VirtualMemory, max_instructions: u64) -> (r: Result<(), String>)
        requires
            old(memory).wf(),
        ensures
            final(memory).wf(),
            ({
                let (c, m, res) = cpu_run(old(self)@, old(memory)@, max_instructions);
                &&& final(self)@ == c
                &&& final(memory)@ == m
                &&& r is Ok <==> res is Ok
                &&& r matches Err(e) ==> res == Err::<(), Seq<char>>(e@)
            }),
    {
        while !self.halted && self.instructions_executed < max_instructions
            invariant
                memory.wf(),
                cpu_run(self@, memory@, max_instructions) == cpu_run(
                    old(self)@,
                    old(memory)@,
                    max_instructions,
                ),
            decreases max_instructions - self.instructions_executed,
        {
            let ghost c0 = self@;
            let ghost m0 = memory@;
            let res = self.step(memory);
            match res {
                Ok(()) => {
                    proof {
                        lemma_step_counts(c0, m0);
                    }
                },
                Err(e) => {
                    return Err(e);
                },
            }
        }
        Ok(())
    }
}


/// A halted CPU stays as it is: a step on it succeeds and changes nothing, in the
/// CPU or in the memory.
pub proof fn law_halted_step_is_noop(c: CpuState, m: MemView)
    requires
        c.halted,
    ensures
        cpu_step(c, m) == (c, m, Ok::<(), Seq<char>>(())),
{
}

/// A run that succeeds stops only when the CPU has halted or has executed at
/// least `max` instructions; and it never lowers the count of executed
/// instructions.
pub proof fn law_run_stops_at_halt_or_budget(c: CpuState, m: MemView, max: u64)
    ensures
        cpu_run(c, m, max).0.instructions_executed >= c.instructions_executed,
        cpu_run(c, m, max).2 is Ok ==> cpu_run(c, m, max).0.halted || cpu_run(c, m, max).0.instructions_executed
            >= max,
    decreases max - c.instructions_executed,
{
    if !(c.halted || c.instructions_executed >= max) {
        let (c2, m2, r) = cpu_step(c, m);
        if r is Ok {
            lemma_step_counts(c, m);
            law_run_stops_at_halt_or_budget(c2, m2, max);
        }
    }
}

/// A run never executes more than `max` instructions in total when it starts
/// within the budget.
pub proof fn law_run_respects_budget(c: CpuState, m: MemView, max: u64)
    requires
        c.instructions_executed <= max,
    ensures
        cpu_run(c, m, max).0.instructions_executed <= max,
    decreases max - c.instructions_executed,
{
    if !(c.halted || c.instructions_executed >= max) {
        let (c2, m2, r) = cpu_step(c, m);
        if r is Ok {
            lemma_step_counts(c, m);
            law_run_respects_budget(c2, m2, max);
        }
    }
}

/// `reset` puts a CPU in the very state that `new` creates.
pub proof fn law_reset_is_new(after_reset: CpuState, fresh: CpuState)
    requires
        after_reset == initial_cpu_state(),
        fresh == initial_cpu_state(),
    ensures
        after_reset == fresh,
{
}

/// Reading a byte allocates its page but changes no byte of the memory.
proof fn lemma_touch_keeps_bytes(m: MemView, page: u64)
    ensures
        forall|a: u64| #[trigger] byte_at(touch(m, page), a) == byte_at(m, a),
        touch(m, page).size == m.size,
{
    assert forall|a: u64| #[trigger] byte_at(touch(m, page), a) == byte_at(m, a) by {
        assert(a % PAGE_SIZE < PAGE_SIZE);
    }
}

/// `LOAD R0, imm` (`0x01`) and `LOAD R1, imm` (`0x02`) replace their register
/// with the byte after the opcode, whatever the register held; no other
/// register changes, the program counter moves past the two bytes, the CPU
/// keeps running and no byte of memory changes.
pub proof fn law_load_replaces_register(c: CpuState, m: MemView)
    requires
        !c.halted,
        c.registers.len() == 16,
        c.pc + 1 < m.size,
        byte_at(m, c.pc) == 0x01 || byte_at(m, c.pc) == 0x02,
    ensures
        ({
            let (c2, m2, r) = cpu_step(c, m);
            let k: int = if byte_at(m, c.pc) == 0x01 { 0 } else { 1 };
            &&& r is Ok
            &&& c2.registers.len() == 16
            &&& c2.registers[k] == byte_at(m, (c.pc + 1) as u64)
            &&& forall|j: int| 0 <= j < 16 && j != k ==> #[trigger] c2.registers[j] == c.registers[j]
            &&& c2.pc == c.pc + 2
            &&& !c2.halted
            &&& m2.size == m.size
            &&& forall|a: u64| #[trigger] byte_at(m2, a) == byte_at(m, a)
        }),
{
    let m1 = touch(m, page_of(c.pc));
    lemma_touch_keeps_bytes(m, page_of(c.pc));
    lemma_touch_keeps_bytes(m1, page_of((c.pc + 1) as u64));
    assert(byte_at(m1, (c.pc + 1) as u64) == byte_at(m, (c.pc + 1) as u64));
    assert(byte_at(m1, c.pc) == byte_at(m, c.pc));
}

/// `ADD` (`0x10`) puts R0 + R1 (modulo 2^64) in R2 and `SUB` (`0x11`) puts
/// R0 - R1 (modulo 2^64) there, whatever R2 held; no other register changes,
/// the program counter moves by one, the CPU keeps running and no byte of
/// memory changes.
pub proof fn law_add_sub_write_r2(c: CpuState, m: MemView)
    requires
        !c.halted,
        c.registers.len() == 16,
        c.pc < m.size,
        byte_at(m, c.pc) == 0x10 || byte_at(m, c.pc) == 0x11,
    ensures
        ({
            let (c2, m2, r) = cpu_step(c, m);
            &&& r is Ok
            &&& c2.registers.len() == 16
            &&& byte_at(m, c.pc) == 0x10 ==> c2.registers[2] == (c.registers[0] + c.registers[1]) % 0x1_0000_0000_0000_0000
            &&& byte_at(m, c.pc) == 0x11 ==> c2.registers[2] == (c.registers[0] - c.registers[1]) % 0x1_0000_0000_0000_0000
            &&& forall|j: int| 0 <= j < 16 && j != 2 ==> #[trigger] c2.registers[j] == c.registers[j]
            &&& c2.pc == c.pc + 1
            &&& !c2.halted
            &&& m2.size == m.size
            &&& forall|a: u64| #[trigger] byte_at(m2, a) == byte_at(m, a)
        }),
{
    lemma_touch_keeps_bytes(m, page_of(c.pc));
}

/// `HALT` (`0xFF`) stops the CPU, with the program counter past it and the
/// registers unchanged.
pub proof fn law_halt_stops(c: CpuState, m: MemView)
    requires
        !c.halted,
        c.pc < m.size,
        byte_at(m, c.pc) == 0xFF,
    ensures
        cpu_step(c, m).2 is Ok,
        cpu_step(c, m).0.halted,
        cpu_step(c, m).0.registers == c.registers,
        cpu_step(c, m).0.pc == c.pc + 1,
{
}

/// Any other opcode is an error that leaves the CPU as it was.
pub proof fn law_unknown_opcode_fails(c: CpuState, m: MemView)
    requires
        !c.halted,
        c.pc < m.size,
        !(byte_at(m, c.pc) == 0x01 || byte_at(m, c.pc) == 0x02 || byte_at(m, c.pc) == 0x10 || byte_at(m, c.pc) == 0x11
            || byte_at(m, c.pc) == 0xFF),
    ensures
        cpu_step(c, m).2 is Err,
        cpu_step(c, m).0 == c,
{
}

} // verus!
