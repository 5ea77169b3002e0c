use ps5_emulator::cpu_optimized::{
    BranchPredictor, CachedInstruction, CoreStatus, CpuCoreOptimized, DecodedInstruction, InstructionCache,
    JitCompiler, OpType, Operand, Pipeline, PipelineInstruction, PipelineStageType, Ps5CpuOptimized,
    ThreadPool, CACHE_SIZE, INITIAL_RSP, NUM_CORES,
};
use ps5_emulator::memory::VirtualMemory;

fn nop() -> DecodedInstruction {
    DecodedInstruction { op_type: OpType::Nop, operands: vec![], flags: 0, cycles: 1 }
}

fn cached(opcode: u8, last_used: u64) -> CachedInstruction {
    CachedInstruction { opcode, size: 1, decoded: nop(), last_used }
}

#[test]
fn test_cache_performance() {
    let mut cache = InstructionCache::new();
    let addr = 0x1000;

    let inst = CachedInstruction {
        opcode: 0x90,
        size: 1,
        decoded: DecodedInstruction { op_type: OpType::Nop, operands: vec![], flags: 0, cycles: 1 },
        last_used: 0,
    };

    cache.insert(addr, inst.clone());
    let retrieved = cache.get(addr);
    assert!(retrieved.is_some());
    assert_eq!(cache.hits, 1);
    assert_eq!(cache.misses, 0);
}

#[test]
fn test_branch_predictor() {
    let mut predictor = BranchPredictor::new();
    let addr = 0x1000;

    let predicted = predictor.predict(addr);
    assert_eq!(predicted, false);
}

#[test]
fn test_cpu_core_step() {
    let mut core = CpuCoreOptimized::new(0);
    let mut memory = VirtualMemory::new(1024 * 1024);

    memory.write8(0x1000, 0x90).unwrap();
    core.rip = 0x1000;

    let result = core.step(&mut memory);
    assert!(result.is_ok());
    assert_eq!(core.instructions_executed, 1);
}

#[test]
fn cache_miss_counts_and_returns_none() {
    let mut cache = InstructionCache::new();
    assert!(cache.get(0x2000).is_none());
    assert_eq!(cache.misses, 1);
    assert_eq!(cache.hits, 0);
    assert_eq!(cache.max_size, CACHE_SIZE);
}

#[test]
fn cache_evicts_least_recently_used_when_full() {
    let mut cache = InstructionCache::new();
    cache.max_size = 2;
    cache.insert(0x10, cached(0x90, 5));
    cache.insert(0x20, cached(0x91, 3));
    cache.insert(0x30, cached(0x92, 9));
    assert_eq!(cache.cache.len(), 2);
    assert!(cache.cache.contains_key(&0x10));
    assert!(!cache.cache.contains_key(&0x20));
    assert!(cache.cache.contains_key(&0x30));
}

#[test]
fn cache_eviction_ties_go_to_lowest_address() {
    let mut cache = InstructionCache::new();
    cache.max_size = 2;
    cache.insert(0x50, cached(0x90, 1));
    cache.insert(0x40, cached(0x90, 1));
    cache.insert(0x60, cached(0x90, 2));
    assert!(!cache.cache.contains_key(&0x40));
    assert!(cache.cache.contains_key(&0x50));
}

#[test]
fn cache_clear_resets_counters() {
    let mut cache = InstructionCache::new();
    cache.insert(1, cached(0x90, 0));
    let _ = cache.get(1);
    let _ = cache.get(2);
    cache.clear();
    assert_eq!(cache.cache.len(), 0);
    assert_eq!(cache.hits, 0);
    assert_eq!(cache.misses, 0);
}

#[test]
fn predictor_learns_a_taken_branch() {
    let mut p = BranchPredictor::new();
    p.update(0x1000, true);
    p.update(0x1000, true);
    assert!(p.predict(0x1000));
    assert_eq!(p.history[0x1000 % 1024], 2);
    p.update(0x1000, false);
    p.update(0x1000, false);
    assert!(!p.predict(0x1000));
}

#[test]
fn predictor_scores_updates() {
    let mut p = BranchPredictor::new();
    p.update(7, true);
    assert_eq!(p.history[7], 1);
    assert_eq!(p.incorrect, 1);
    p.update(7, true);
    assert_eq!(p.correct, 1);
    p.update(7, true);
    p.update(7, true);
    assert_eq!(p.history[7], 3);
}

#[test]
fn pipeline_issue_and_stall() {
    let mut pipe = Pipeline::new();
    let inst = PipelineInstruction { addr: 0, opcode: 0x90, decoded: nop(), stage: PipelineStageType::Fetch };
    assert!(pipe.issue(inst.clone()));
    assert!(pipe.stages[0].busy);
    assert!(!pipe.issue(inst));
    assert!(pipe.stalled);
    assert_eq!(pipe.stall_cycles, 1);
    assert!(!pipe.step());
    assert!(!pipe.stalled);
    assert!(pipe.step());
}

#[test]
fn jit_compiles_and_finds_blocks() {
    let mut jit = JitCompiler::new();
    assert!(jit.get(0x100).is_none());
    assert_eq!(jit.miss_count, 1);
    let block = jit.compile(0x100, vec![nop(), nop()]);
    assert_eq!(block.start_addr, 0x100);
    assert_eq!(block.end_addr, 0x102);
    assert_eq!(block.native_code, vec![19, 1, 0, 19, 1, 0]);
    assert!(jit.get(0x100).is_some());
    assert_eq!(jit.hit_count, 1);
}

#[test]
fn jit_native_code_of_operands() {
    let jit = JitCompiler::new();
    let mov = DecodedInstruction {
        op_type: OpType::Mov,
        operands: vec![
            Operand { reg: Some(3), imm: None, addr: None, size: 8 },
            Operand { reg: None, imm: Some(0x0102), addr: None, size: 8 },
        ],
        flags: 0,
        cycles: 1,
    };
    let code = jit.generate_native_code(&[mov]);
    assert_eq!(code, vec![16, 1, 0, 3, 0x02, 0x01, 0, 0, 0, 0, 0, 0]);
}

#[test]
fn core_new_state() {
    let core = CpuCoreOptimized::new(3);
    assert_eq!(core.core_id, 3);
    assert_eq!(core.rsp, INITIAL_RSP);
    assert_eq!(core.frequency_mhz, 3500);
    assert_eq!(core.status, CoreStatus::Active);
    assert!(core.jit.enabled);
}

fn load_demo(memory: &mut VirtualMemory, at: u64) {
    let code: [u8; 24] = [
        0x48, 0xB8, 0x01, 0, 0, 0, 0, 0, 0, 0, 0x48, 0xB9, 0x02, 0, 0, 0, 0, 0, 0, 0, 0x48, 0x01, 0xC8, 0xF4,
    ];
    for (i, b) in code.iter().enumerate() {
        memory.write8(at + i as u64, *b).unwrap();
    }
}

#[test]
fn core_runs_block_without_jit() {
    let mut core = CpuCoreOptimized::new(0);
    core.jit.enabled = false;
    let mut memory = VirtualMemory::new(2 * 1024 * 1024 * 1024);
    memory.write8(0x10, 0x48).unwrap();
    memory.write8(0x11, 0xB8).unwrap();
    memory.write8(0x12, 0x2A).unwrap();
    core.rip = 0x10;
    core.step(&mut memory).unwrap();
    assert_eq!(core.registers[0], 0x2A);
    assert_eq!(core.rip, 0x1A);
    assert_eq!(core.instructions_executed, 1);
    assert_eq!(core.cycles, 1);
}

#[test]
fn core_add_sub_and_halt_without_jit() {
    let mut core = CpuCoreOptimized::new(0);
    core.jit.enabled = false;
    let mut memory = VirtualMemory::new(2 * 1024 * 1024 * 1024);
    memory.write8(0, 0x10).unwrap();
    memory.write8(1, 0x11).unwrap();
    memory.write8(2, 0xF4).unwrap();
    core.registers[0] = 5;
    core.registers[1] = 7;
    core.step(&mut memory).unwrap();
    assert_eq!(core.registers[2], 12);
    core.step(&mut memory).unwrap();
    assert_eq!(core.registers[2], 5u64.wrapping_sub(7));
    core.step(&mut memory).unwrap();
    assert_eq!(core.status, CoreStatus::Halted);
    let before = core.instructions_executed;
    core.step(&mut memory).unwrap();
    assert_eq!(core.instructions_executed, before);
}

#[test]
fn core_undecodable_opcode_is_reported() {
    let mut core = CpuCoreOptimized::new(0);
    let mut memory = VirtualMemory::new(2 * 1024 * 1024 * 1024);
    memory.write8(0x200, 0x07).unwrap();
    core.rip = 0x200;
    let err = core.step(&mut memory).unwrap_err();
    assert_eq!(err, "Opcode desconhecido: 0x07");
}

#[test]
fn core_out_of_range_fetch_is_reported() {
    let mut core = CpuCoreOptimized::new(0);
    let mut memory = VirtualMemory::new(2 * 1024 * 1024 * 1024);
    core.rip = 0x500_0000_0000;
    let err = core.step(&mut memory).unwrap_err();
    assert_eq!(err, "Endereço fora da RAM virtual: 0x50000000000");
}

#[test]
fn core_runs_demo_block_with_jit() {
    let mut core = CpuCoreOptimized::new(0);
    let mut memory = VirtualMemory::new(2 * 1024 * 1024 * 1024);
    load_demo(&mut memory, 0x4000);
    core.rip = 0x4000;
    core.step(&mut memory).unwrap();
    // The block holds the MOV alone (the byte after it decodes to nothing), and
    // the program counter moves to the block's end, one byte further.
    assert_eq!(core.jit.compiled.len(), 1);
    assert_eq!(core.jit.compiled[&0x4000].instructions.len(), 1);
    assert_eq!(core.registers[0], 1);
    assert_eq!(core.instructions_executed, 1);
    assert_eq!(core.rip, 0x4001);
    assert_eq!(core.status, CoreStatus::Active);
}

#[test]
fn core_call_and_ret_use_the_stack() {
    let mut core = CpuCoreOptimized::new(0);
    core.jit.enabled = false;
    core.rsp = 0x9000;
    let mut memory = VirtualMemory::new(2 * 1024 * 1024 * 1024);
    // CALL +3 at 0x100: returns to 0x105, jumps to 0x108.
    memory.write8(0x100, 0xE8).unwrap();
    memory.write8(0x101, 0x03).unwrap();
    memory.write8(0x108, 0xC3).unwrap();
    core.rip = 0x100;
    core.step(&mut memory).unwrap();
    assert_eq!(core.rip, 0x108);
    assert_eq!(core.rsp, 0x8FF8);
    assert_eq!(memory.read64(0x8FF8).unwrap(), 0x105);
    core.step(&mut memory).unwrap();
    assert_eq!(core.rip, 0x105);
    assert_eq!(core.rsp, 0x9000);
}

#[test]
fn core_reset_clears_state() {
    let mut core = CpuCoreOptimized::new(2);
    let mut memory = VirtualMemory::new(2 * 1024 * 1024 * 1024);
    memory.write8(0x1000, 0x90).unwrap();
    core.rip = 0x1000;
    core.step(&mut memory).unwrap();
    core.reset();
    assert_eq!(core.rip, 0);
    assert_eq!(core.instructions_executed, 0);
    assert_eq!(core.cycles, 0);
    assert_eq!(core.cache.cache.len(), 0);
    assert_eq!(core.jit.compiled.len(), 0);
    assert_eq!(core.core_id, 2);
}

#[test]
fn processor_has_numbered_cores() {
    let cpu = Ps5CpuOptimized::new();
    for i in 0..NUM_CORES {
        assert_eq!(cpu.cores[i].core_id, i);
    }
    assert_eq!(cpu.total_instructions, 0);
}

#[test]
fn processor_step_core_rejects_bad_id() {
    let mut cpu = Ps5CpuOptimized::new();
    let mut memory = VirtualMemory::new(2 * 1024 * 1024 * 1024);
    assert_eq!(cpu.step_core(8, &mut memory).unwrap_err(), "Core ID inválido");
}

#[test]
fn processor_step_core_adds_counts() {
    let mut cpu = Ps5CpuOptimized::new();
    let mut memory = VirtualMemory::new(2 * 1024 * 1024 * 1024);
    load_demo(&mut memory, 0);
    cpu.step_core(1, &mut memory).unwrap();
    assert_eq!(cpu.cores[1].instructions_executed, 1);
    assert_eq!(cpu.cores[1].cycles, 2);
    assert_eq!(cpu.total_instructions, 1);
    assert_eq!(cpu.total_cycles, 2);
    assert_eq!(cpu.cores[0].instructions_executed, 0);
}

#[test]
fn processor_run_stops_when_all_halted() {
    let mut cpu = Ps5CpuOptimized::new();
    let mut memory = VirtualMemory::new(2 * 1024 * 1024 * 1024);
    memory.write8(0, 0xF4).unwrap();
    cpu.run(&mut memory, 10).unwrap();
    for core in cpu.cores.iter() {
        assert_eq!(core.status, CoreStatus::Halted);
        assert_eq!(core.instructions_executed, 1);
    }
    assert_eq!(cpu.total_instructions, 8);
}

#[test]
fn processor_step_all_accumulates_cumulative_counts() {
    let mut cpu = Ps5CpuOptimized::new();
    let mut memory = VirtualMemory::new(2 * 1024 * 1024 * 1024);
    memory.write8(0, 0x90).unwrap();
    memory.write8(1, 0x90).unwrap();
    memory.write8(2, 0xF4).unwrap();
    cpu.step_all(&mut memory).unwrap();
    assert_eq!(cpu.total_instructions, 8 * 3);
    cpu.step_all(&mut memory).unwrap();
    assert_eq!(cpu.total_instructions, 8 * 3 + 8 * 3);
    cpu.reset_all();
    assert_eq!(cpu.total_instructions, 0);
    assert_eq!(cpu.total_cycles, 0);
    assert_eq!(cpu.cores[0].instructions_executed, 0);
}

#[test]
fn processor_room_for_steps() {
    let mut cpu = Ps5CpuOptimized::new();
    assert!(cpu.run_fits(1000));
    cpu.total_instructions = u64::MAX - 100;
    assert!(!cpu.run_fits(1));
    assert!(cpu.run_fits(0));
    let mut cpu = Ps5CpuOptimized::new();
    cpu.cores[3].cycles = u64::MAX - 10;
    assert!(!cpu.run_fits(1));
}

#[test]
fn processor_step_each_stops_at_first_error() {
    let mut cpu = Ps5CpuOptimized::new();
    let mut memory = VirtualMemory::new(2 * 1024 * 1024 * 1024);
    memory.write8(0, 0x90).unwrap();
    memory.write8(1, 0xF4).unwrap();
    cpu.cores[2].rip = 0x300;
    memory.write8(0x300, 0x07).unwrap();
    let err = cpu.step_each(&mut memory).unwrap_err();
    assert_eq!(err, "Opcode desconhecido: 0x07");
    assert_eq!(cpu.cores[0].instructions_executed, 2);
    assert_eq!(cpu.cores[1].instructions_executed, 2);
    assert_eq!(cpu.cores[3].cycles, 0);
    assert_eq!(cpu.total_instructions, 4);
}

#[test]
fn thread_pool_has_a_thread() {
    let pool = ThreadPool::new();
    assert!(pool.num_threads >= 1);
    assert!(!pool.running);
}

#[test]
fn ret_undoes_a_backward_call() {
    let mut core = CpuCoreOptimized::new(0);
    core.jit.enabled = false;
    core.rsp = 0x4000;
    let mut memory = VirtualMemory::new(1024 * 1024);
    // CALL -16 at 0x200: returns to 0x205, jumps to 0x1F5, where a RET waits.
    memory.write8(0x200, 0xE8).unwrap();
    memory.write8(0x201, 0xF0).unwrap();
    memory.write8(0x202, 0xFF).unwrap();
    memory.write8(0x203, 0xFF).unwrap();
    memory.write8(0x204, 0xFF).unwrap();
    memory.write8(0x1F5, 0xC3).unwrap();
    core.rip = 0x200;
    core.step(&mut memory).unwrap();
    assert_eq!(core.rip, 0x1F5);
    assert_eq!(core.rsp, 0x3FF8);
    core.step(&mut memory).unwrap();
    assert_eq!(core.rip, 0x205);
    assert_eq!(core.rsp, 0x4000);
}

#[test]
fn predictor_update_scores_exactly_once() {
    let mut p = BranchPredictor::new();
    for (i, taken) in [true, false, true, true, false].iter().enumerate() {
        p.update(0x40 + i as u64, *taken);
        assert_eq!(p.correct + p.incorrect, i as u64 + 1);
    }
}
