use rustrone::{Assembler, Computer, ExecError, Flag, Status};

fn load(src: &[&str], mem_size: usize) -> Computer {
    let lines: Vec<String> = src.iter().map(|l| l.to_string()).collect();
    let prg = Assembler::new().assemble(&lines).unwrap();
    let mut comp = Computer::new(mem_size);
    comp.load_program(&prg);
    comp
}

/// Ticks until the engine halts or fails, at most `limit` times.
fn run(comp: &mut Computer, limit: usize) -> Result<usize, ExecError> {
    for n in 0..limit {
        if comp.tick()? == Status::Halted {
            return Ok(n + 1);
        }
    }
    Ok(limit)
}

#[test]
fn new_engine_is_zeroed() {
    let comp = Computer::new(16);
    assert_eq!(comp.memory, vec![0u8; 16]);
    assert_eq!(comp.common_registers, vec![0u8; 4]);
    assert_eq!(comp.flags, Flag::Equal);
    assert_eq!(comp.ip, 0);
    assert!(!comp.should_halt);
}

#[test]
fn load_program_copies_from_zero() {
    let mut comp = Computer::new(6);
    comp.memory[5] = 9;
    comp.load_program(&vec![1, 2, 3]);
    assert_eq!(comp.memory, vec![1, 2, 3, 0, 0, 9]);
}

#[test]
fn end_to_end_scenario() {
    let mut comp = load(&["put r0, 5", "put r1, 2", "sub r0, r1", "halt"], 256);
    assert_eq!(run(&mut comp, 100), Ok(4));
    assert_eq!(comp.common_registers[0], 3);
    assert!(comp.should_halt);
}

#[test]
fn divide_seventeen_by_five() {
    let mut comp = load(&["put r2, 17", "put r3, 5", "div r2, r3", "halt"], 64);
    run(&mut comp, 100).unwrap();
    assert_eq!(comp.common_registers[0], 3);
    assert_eq!(comp.common_registers[1], 2);
    let mut comp = load(&["put r0, 17", "put r1, 5", "div r0, r1", "halt"], 64);
    run(&mut comp, 100).unwrap();
    assert_eq!(comp.common_registers[0], 3);
    assert_eq!(comp.common_registers[1], 2);
}

#[test]
fn divide_by_zero_is_fatal() {
    let mut comp = load(&["put r0, 17", "div r0, r1", "halt"], 64);
    assert_eq!(comp.tick(), Ok(Status::Running));
    assert_eq!(comp.tick(), Err(ExecError::DivideByZero));
    assert_eq!(comp.ip, 3);
    assert_eq!(comp.common_registers, vec![17, 0, 0, 0]);
}

#[test]
fn conditional_jumps_after_compare() {
    let mut comp = load(&["put r0, 1", "put r1, 2", "cmp r0, r1", "jg 40", "jl 50"], 64);
    for _ in 0..3 {
        assert_eq!(comp.tick(), Ok(Status::Running));
    }
    assert_eq!(comp.flags, Flag::Less);
    assert_eq!(comp.ip, 8);
    assert_eq!(comp.tick(), Ok(Status::Running));
    assert_eq!(comp.ip, 10);
    assert_eq!(comp.tick(), Ok(Status::Running));
    assert_eq!(comp.ip, 50);
}

#[test]
fn negated_jumps() {
    let mut comp = load(&["cmp r0, r1", "jne 30", "jnl r2"], 64);
    comp.common_registers[2] = 33;
    comp.tick().unwrap();
    assert_eq!(comp.flags, Flag::Equal);
    comp.tick().unwrap();
    assert_eq!(comp.ip, 4);
    comp.tick().unwrap();
    assert_eq!(comp.ip, 33);
}

#[test]
fn unconditional_jump_through_register() {
    let mut comp = load(&["put r3, 20", "jmp r3"], 64);
    comp.tick().unwrap();
    comp.tick().unwrap();
    assert_eq!(comp.ip, 20);
}

#[test]
fn load_past_memory_is_fatal_and_stops() {
    let mut comp = load(&["put r1, 200", "ldr r0, r1", "put r2, 7", "halt"], 64);
    assert_eq!(comp.tick(), Ok(Status::Running));
    let before = comp.common_registers.clone();
    assert_eq!(comp.tick(), Err(ExecError::AddressOutOfBounds { address: 200 }));
    assert_eq!(comp.ip, 3);
    assert_eq!(comp.common_registers, before);
    assert_eq!(comp.tick(), Err(ExecError::AddressOutOfBounds { address: 200 }));
    assert_eq!(comp.common_registers[2], 0);
}

#[test]
fn load_and_store_move_bytes() {
    let mut comp = load(&["put r0, 77", "put r1, 40", "str r0, r1", "ldr r2, r1", "halt"], 64);
    run(&mut comp, 100).unwrap();
    assert_eq!(comp.memory[40], 77);
    assert_eq!(comp.common_registers[2], 77);
}

#[test]
fn arithmetic_wraps() {
    let mut comp = load(
        &["put r0, 250", "put r1, 10", "add r0, r1", "dec r2", "inc r3", "put r1, 16", "mul r1, r1", "halt"],
        64,
    );
    run(&mut comp, 100).unwrap();
    assert_eq!(comp.common_registers, vec![4, 0, 255, 1]);
}

#[test]
fn subtract_wraps_below_zero() {
    let mut comp = load(&["put r1, 3", "sub r0, r1", "mov r2, r0", "halt"], 64);
    run(&mut comp, 100).unwrap();
    assert_eq!(comp.common_registers[0], 253);
    assert_eq!(comp.common_registers[2], 253);
}

#[test]
fn unknown_opcode_is_fatal() {
    let mut comp = Computer::new(8);
    comp.load_program(&vec![15 << 2]);
    assert_eq!(comp.tick(), Err(ExecError::UnknownOpcode { opcode: 15 }));
    assert_eq!(comp.ip, 0);
}

#[test]
fn bad_register_nibble_is_fatal() {
    let mut comp = Computer::new(8);
    comp.load_program(&vec![8, 0x50]);
    assert_eq!(comp.tick(), Err(ExecError::BadRegister { index: 5 }));
    assert_eq!(comp.ip, 0);
}

#[test]
fn fetch_past_memory_is_fatal() {
    let mut comp = load(&["jmp 100"], 64);
    comp.tick().unwrap();
    assert_eq!(comp.tick(), Err(ExecError::FetchOutOfBounds { ip: 100 }));
    assert_eq!(comp.next_byte(), Err(ExecError::FetchOutOfBounds { ip: 100 }));
}

#[test]
fn pointer_wraps_at_end_of_memory() {
    let mut comp = Computer::new(3);
    comp.memory = vec![0, 44, 0x20];
    comp.ip = 1;
    assert_eq!(comp.tick(), Ok(Status::Running));
    assert_eq!(comp.common_registers[2], 0);
    assert_eq!(comp.ip, 1);
    assert_eq!(comp.next_byte(), Ok(44));
    assert_eq!(comp.next_byte(), Ok(0x20));
    assert_eq!(comp.ip, 0);
}

#[test]
fn halted_engine_stays_halted() {
    let mut comp = load(&["halt", "inc r0"], 16);
    assert_eq!(comp.tick(), Ok(Status::Halted));
    assert_eq!(comp.tick(), Ok(Status::Halted));
    assert_eq!(comp.ip, 1);
    assert_eq!(comp.common_registers[0], 0);
}

#[test]
fn same_program_same_snapshots() {
    let src = ["put r0, 3", "@loop", "dec r0", "cmp r0, r1", "jne @loop", "halt"];
    let mut a = load(&src, 32);
    let mut b = load(&src, 32);
    for _ in 0..20 {
        let ra = a.tick();
        let rb = b.tick();
        assert_eq!(ra, rb);
        assert_eq!(a.common_registers, b.common_registers);
        assert_eq!(a.ip, b.ip);
        assert_eq!(a.flags, b.flags);
        assert_eq!(a.memory, b.memory);
    }
    assert!(a.should_halt);
    assert_eq!(a.common_registers[0], 0);
}

#[test]
fn register_operands_are_read_from_the_next_byte() {
    let mut comp = Computer::new(4);
    comp.memory = vec![0x23, 0x10, 0, 0];
    assert_eq!(rustrone::computer::get_next_reg_reg_operands(&mut comp), Ok((2, 3)));
    assert_eq!(rustrone::computer::get_next_reg_operand(&mut comp), Ok(1));
    assert_eq!(comp.ip, 2);
}

#[test]
fn engine_consumes_exactly_the_assembled_bytes() {
    let lines = [
        "nop", "add r1, r2", "sub r1, r2", "mul r1, r2", "div r1, r2", "inc r3", "dec r3",
        "ldr r1, r0", "str r1, r0", "mov r0, r3", "put r2, 9", "cmp r1, r2", "jl 0", "jg r0",
    ];
    for line in lines {
        let prg = Assembler::new().assemble(&vec![line.to_string()]).unwrap();
        let mut comp = Computer::new(32);
        comp.load_program(&prg);
        comp.common_registers[2] = 1;
        assert_eq!(comp.tick(), Ok(Status::Running), "{}", line);
        assert_eq!(comp.ip as usize, prg.len(), "{}", line);
    }
}
