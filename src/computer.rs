//! The execution engine: registers, flag, instruction pointer and memory,
//! advanced one instruction at a time.
use vstd::prelude::*;

use crate::error::ExecError;
use crate::isa::{
    decode, encodable, encode, high_reg, imm_of, kind_of_opcode, lemma_round_trip, low_reg,
    reg_of, shape_of, Arg, Decoded, Flag, InstrKind, OperandType, REGISTER_COUNT,
};

verus! {

/// The engine state as the model sees it.
pub struct MachineState {
    pub memory: Seq<u8>,
    pub regs: Seq<u8>,
    pub flag: Flag,
    pub ip: u8,
    pub halted: bool,
}

/// Whether the engine still runs after a step.
#[derive(Clone, Copy, Debug, PartialEq, Eq, Structural)]
pub enum Status {
    Running,
    Halted,
}

/// The position after `ip`, wrapping at the end of memory.
pub open spec fn next_ip(ip: u8, len: nat) -> u8 {
    if ip + 1 >= len {
        0
    } else {
        (ip + 1) as u8
    }
}

/// The position `n` bytes after `ip`, wrapping at the end of memory.
pub open spec fn skip_ip(ip: u8, len: nat, n: nat) -> u8
    decreases n,
{
    if n == 0 {
        ip
    } else {
        skip_ip(next_ip(ip, len), len, (n - 1) as nat)
    }
}

/// The three-way order of two register values.
pub open spec fn compare(a: u8, b: u8) -> Flag {
    if a < b {
        Flag::Less
    } else if a == b {
        Flag::Equal
    } else {
        Flag::Greater
    }
}

pub open spec fn set_reg(s: MachineState, r: u8, v: u8) -> MachineState {
    MachineState { regs: s.regs.update(r as int, v), ..s }
}

/// Where a jump goes: an immediate byte, or the value of a register.
pub open spec fn jump_target(s: MachineState, a: Arg) -> u8 {
    match a {
        Arg::Imm(v) => v,
        _ => s.regs[reg_of(a) as int],
    }
}

/// The effect of a decoded instruction on `s`, whose pointer already stands
/// after the instruction. Arithmetic wraps modulo 256; `div` leaves the
/// quotient in register 0 and the remainder in register 1.
pub open spec fn execute(k: InstrKind, args: Seq<Arg>, s: MachineState) -> Result<
    MachineState,
    ExecError,
> {
    let a = reg_of(args[0]);
    let b = reg_of(args[1]);
    let x = s.regs[a as int];
    let y = s.regs[b as int];
    match k {
        InstrKind::Nop => Ok(s),
        InstrKind::Halt => Ok(MachineState { halted: true, ..s }),
        InstrKind::Add => Ok(set_reg(s, a, ((x + y) % 256) as u8)),
        InstrKind::Sub => Ok(set_reg(s, a, ((x - y + 256) % 256) as u8)),
        InstrKind::Mul => Ok(set_reg(s, a, ((x * y) % 256) as u8)),
        InstrKind::Div => if y == 0 {
            Err(ExecError::DivideByZero)
        } else {
            Ok(MachineState { regs: s.regs.update(0, (x / y) as u8).update(1, (x % y) as u8), ..s })
        },
        InstrKind::Inc => Ok(set_reg(s, a, ((x + 1) % 256) as u8)),
        InstrKind::Dec => Ok(set_reg(s, a, ((x + 255) % 256) as u8)),
        InstrKind::Ldr => if y >= s.memory.len() {
            Err(ExecError::AddressOutOfBounds { address: y })
        } else {
            Ok(set_reg(s, a, s.memory[y as int]))
        },
        InstrKind::Str => if y >= s.memory.len() {
            Err(ExecError::AddressOutOfBounds { address: y })
        } else {
            Ok(MachineState { memory: s.memory.update(y as int, x), ..s })
        },
        InstrKind::Mov => Ok(set_reg(s, a, y)),
        InstrKind::Put => Ok(set_reg(s, a, imm_of(args[1]))),
        InstrKind::Cmp => Ok(MachineState { flag: compare(x, y), ..s }),
        InstrKind::Jmp => Ok(MachineState { ip: jump_target(s, args[0]), ..s }),
        InstrKind::Jcond(direct, on) => if (s.flag == on) == direct {
            Ok(MachineState { ip: jump_target(s, args[0]), ..s })
        } else {
            Ok(s)
        },
    }
}

/// The rest of a step once the first byte is fetched and the pointer
/// stands after it: decode with the next two bytes, move the pointer past
/// the instruction, and execute it.
pub open spec fn finish(s: MachineState, first: u8) -> Result<MachineState, ExecError> {
    let len = s.memory.len();
    match decode(seq![first, s.memory[s.ip as int], s.memory[next_ip(s.ip, len) as int]]) {
        Err(e) => Err(e),
        Ok(d) => execute(
            d.kind,
            d.args,
            MachineState { ip: skip_ip(s.ip, len, (d.size - 1) as nat), ..s },
        ),
    }
}

/// One step of the engine. A halted engine stays as it is.
pub open spec fn step(s: MachineState) -> Result<MachineState, ExecError> {
    if s.halted {
        Ok(s)
    } else if s.ip >= s.memory.len() {
        Err(ExecError::FetchOutOfBounds { ip: s.ip })
    } else {
        finish(MachineState { ip: next_ip(s.ip, s.memory.len()), ..s }, s.memory[s.ip as int])
    }
}

/// Registers, memory, flag and halt state agree; the pointer may differ.
pub open spec fn same_but_ip(a: MachineState, b: MachineState) -> bool {
    a.memory == b.memory && a.regs == b.regs && a.flag == b.flag && a.halted == b.halted
}

/// The engine: four 8-bit registers, the flag of the last `cmp`, an 8-bit
/// instruction pointer, at most 256 bytes of memory shared by code and data,
/// and the halt flag. Arithmetic, `inc` and `dec` wrap modulo 256; the
/// pointer wraps at the end of memory.
pub struct Computer {
    pub memory: Vec<u8>,
    pub common_registers: Vec<u8>,
    pub flags: Flag,
    pub ip: u8,
    pub should_halt: bool,
}

impl View for Computer {
    type V = MachineState;

    open spec fn view(&self) -> MachineState {
        MachineState {
            memory: self.memory@,
            regs: self.common_registers@,
            flag: self.flags,
            ip: self.ip,
            halted: self.should_halt,
        }
    }
}

pub open spec fn state_wf(s: MachineState) -> bool {
    s.regs.len() == REGISTER_COUNT && s.memory.len() <= 256
}

fn high_nibble(b: u8) -> (r: u8)
    ensures
        r == b / 16,
{
    assert(b >> 4u8 == b / 16) by (bit_vector);
    b >> 4
}

fn low_nibble(b: u8) -> (r: u8)
    ensures
        r == b % 16,
{
    assert(b & 15u8 == b % 16) by (bit_vector);
    b & 15
}

/// Reads a register pair from the next byte: first register in the high
/// nibble, second in the low nibble.
pub fn get_next_reg_reg_operands(computer: &mut Computer) -> (r: Result<(usize, usize), ExecError>)
    requires
        state_wf(old(computer)@),
    ensures
        state_wf(final(computer)@),
        same_but_ip(final(computer)@, old(computer)@),
        old(computer).ip >= old(computer).memory.len() ==> (r == Err::<(usize, usize), ExecError>(
            (ExecError::FetchOutOfBounds { ip: old(computer).ip }),
        ) && final(computer)@ == old(computer)@),
        old(computer).ip < old(computer).memory.len() ==> final(computer).ip == next_ip(
            old(computer).ip,
            old(computer).memory@.len(),
        ),
        old(computer).ip < old(computer).memory.len() ==> ({
            let b = old(computer).memory@[old(computer).ip as int];
            match (high_reg(b), low_reg(b)) {
                (Err(e), _) => r == Err::<(usize, usize), ExecError>(e),
                (_, Err(e)) => r == Err::<(usize, usize), ExecError>(e),
                (Ok(x), Ok(y)) => r == Ok::<(usize, usize), ExecError>(
                    (reg_of(x) as usize, reg_of(y) as usize),
                ),
            }
        }),
{
    let regs_byte = match computer.next_byte() {
        Ok(b) => b,
        Err(e) => {
            return Err(e);
        },
    };
    let reg1 = high_nibble(regs_byte);
    let reg2 = low_nibble(regs_byte);
    if reg1 >= REGISTER_COUNT {
        return Err(ExecError::BadRegister { index: reg1 });
    }
    if reg2 >= REGISTER_COUNT {
        return Err(ExecError::BadRegister { index: reg2 });
    }
    Ok((reg1 as usize, reg2 as usize))
}

/// Reads one register from the high nibble of the next byte.
pub fn get_next_reg_operand(computer: &mut Computer) -> (r: Result<usize, ExecError>)
    requires
        state_wf(old(computer)@),
    ensures
        state_wf(final(computer)@),
        same_but_ip(final(computer)@, old(computer)@),
        old(computer).ip >= old(computer).memory.len() ==> (r == Err::<usize, ExecError>(
            (ExecError::FetchOutOfBounds { ip: old(computer).ip }),
        ) && final(computer)@ == old(computer)@),
        old(computer).ip < old(computer).memory.len() ==> final(computer).ip == next_ip(
            old(computer).ip,
            old(computer).memory@.len(),
        ),
        old(computer).ip < old(computer).memory.len() ==> match high_reg(
            old(computer).memory@[old(computer).ip as int],
        ) {
            Err(e) => r == Err::<usize, ExecError>(e),
            Ok(x) => r == Ok::<usize, ExecError>(reg_of(x) as usize),
        },
{
    let regs_byte = match computer.next_byte() {
        Ok(b) => b,
        Err(e) => {
            return Err(e);
        },
    };
    let reg = high_nibble(regs_byte);
    if reg >= REGISTER_COUNT {
        return Err(ExecError::BadRegister { index: reg });
    }
    Ok(reg as usize)
}

impl Computer {
    /// A fresh engine with `mem_size` bytes of zeroed memory, zeroed
    /// registers, the flag at `Equal`, the pointer at 0, and not halted.
    pub fn new(mem_size: usize) -> (r: Self)
        requires
            mem_size <= 256,
        ensures
            state_wf(r@),
            r@.memory == Seq::new(mem_size as nat, |i: int| 0u8),
            r@.regs == seq![0u8, 0u8, 0u8, 0u8],
            r@.flag == Flag::Equal,
            r@.ip == 0,
            !r@.halted,
    {
        let mut memory: Vec<u8> = Vec::new();
        let mut i: usize = 0;
        while i < mem_size
            invariant
                0 <= i <= mem_size,
                memory@ == Seq::new(i as nat, |j: int| 0u8),
            decreases mem_size - i,
        {
            memory.push(0);
            i = i + 1;
            assert(memory@ =~= Seq::new(i as nat, |j: int| 0u8));
        }
        let regs = vec![0u8, 0u8, 0u8, 0u8];
        assert(regs@ =~= seq![0u8, 0u8, 0u8, 0u8]);
        Self { memory, common_registers: regs, flags: Flag::Equal, ip: 0, should_halt: false }
    }

    /// Copies a program into memory from address 0. The rest of the state
    /// is left as it is.
    pub fn load_program(&mut self, prg: &Vec<u8>)
        requires
            prg.len() <= old(self).memory.len(),
        ensures
            final(self)@ == (MachineState {
                memory: prg@ + old(self)@.memory.skip(prg.len() as int),
                ..old(self)@
            }),
    {
        let mut i: usize = 0;
        while i < prg.len()
            invariant
                prg.len() <= self.memory.len(),
                0 <= i <= prg.len(),
                self.memory@.len() == old(self)@.memory.len(),
                forall|j: int| 0 <= j < i ==> self.memory@[j] == prg@[j],
                forall|j: int| i <= j < self.memory@.len() ==> self.memory@[j] == old(self)@.memory[j],
                self.common_registers == old(self).common_registers,
                self.flags == old(self).flags,
                self.ip == old(self).ip,
                self.should_halt == old(self).should_halt,
            decreases prg.len() - i,
        {
            self.memory[i] = prg[i];
            i = i + 1;
        }
        assert(self.memory@ =~= prg@ + old(self)@.memory.skip(prg.len() as int));
    }

    /// Reads the byte at the pointer and moves the pointer on, wrapping at
    /// the end of memory. An error, with nothing changed, when the pointer
    /// is at or past the end.
    pub fn next_byte(&mut self) -> (r: Result<u8, ExecError>)
        requires
            old(self).memory.len() <= 256,
        ensures
            old(self).ip < old(self).memory.len() ==> (r == Ok::<u8, ExecError>(
                old(self).memory@[old(self).ip as int],
            ) && final(self)@ == (MachineState {
                ip: next_ip(old(self).ip, old(self).memory@.len()),
                ..old(self)@
            })),
            old(self).ip >= old(self).memory.len() ==> (r == Err::<u8, ExecError>(
                (ExecError::FetchOutOfBounds { ip: old(self).ip }),
            ) && final(self)@ == old(self)@),
    {
        let at = self.ip as usize;
        if at >= self.memory.len() {
            return Err(ExecError::FetchOutOfBounds { ip: self.ip });
        }
        let ret = self.memory[at];
        self.ip = if at + 1 >= self.memory.len() {
            0
        } else {
            self.ip + 1
        };
        Ok(ret)
    }
}

fn compare_values(a: u8, b: u8) -> (r: Flag)
    ensures
        r == compare(a, b),
{
    if a < b {
        Flag::Less
    } else if a == b {
        Flag::Equal
    } else {
        Flag::Greater
    }
}

impl Computer {
    /// Fetches the operands of an instruction whose first byte has been
    /// read, and applies it.
    fn execute_instr(&mut self, kind: InstrKind, first: u8) -> (r: Result<(), ExecError>)
        requires
            state_wf(old(self)@),
            old(self).ip < old(self).memory.len(),
            kind_of_opcode((first / 4) as u8) == Some(kind),
        ensures
            state_wf(final(self)@),
            match finish(old(self)@, first) {
                Ok(t) => r is Ok && final(self)@ == t,
                Err(e) => r == Err::<(), ExecError>(e) && same_but_ip(final(self)@, old(self)@),
            },
    {
        let ghost s = self@;
        let ghost len = s.memory.len();
        let ghost b = seq![first, s.memory[s.ip as int], s.memory[next_ip(s.ip, len) as int]];
        assert(b[0] == first && b[1] == s.memory[s.ip as int]);
        assert(b[2] == s.memory[next_ip(s.ip, len) as int]);
        proof {
            reveal_with_fuel(skip_ip, 3);
        }
        match kind {
            InstrKind::Nop => {},
            InstrKind::Halt => {
                self.should_halt = true;
            },
            InstrKind::Add | InstrKind::Sub | InstrKind::Mul | InstrKind::Div | InstrKind::Ldr
            | InstrKind::Str | InstrKind::Mov | InstrKind::Cmp => {
                let (a, c) = match get_next_reg_reg_operands(self) {
                    Ok(p) => p,
                    Err(e) => {
                        return Err(e);
                    },
                };
                let x = self.common_registers[a];
                let y = self.common_registers[c];
                match kind {
                    InstrKind::Add => {
                        self.common_registers[a] = ((x as u16 + y as u16) % 256) as u8;
                    },
                    InstrKind::Sub => {
                        self.common_registers[a] = ((x as u16 + 256 - y as u16) % 256) as u8;
                    },
                    InstrKind::Mul => {
                        assert((x as u32) * (y as u32) <= 65025) by (nonlinear_arith)
                            requires
                                x <= 255,
                                y <= 255,
                        ;
                        self.common_registers[a] = ((x as u32 * y as u32) % 256) as u8;
                    },
                    InstrKind::Div => {
                        if y == 0 {
                            return Err(ExecError::DivideByZero);
                        }
                        self.common_registers[0] = x / y;
                        self.common_registers[1] = x % y;
                    },
                    InstrKind::Ldr => {
                        if y as usize >= self.memory.len() {
                            return Err(ExecError::AddressOutOfBounds { address: y });
                        }
                        self.common_registers[a] = self.memory[y as usize];
                    },
                    InstrKind::Str => {
                        if y as usize >= self.memory.len() {
                            return Err(ExecError::AddressOutOfBounds { address: y });
                        }
                        self.memory[y as usize] = x;
                    },
                    InstrKind::Mov => {
                        self.common_registers[a] = y;
                    },
                    _ => {
                        self.flags = compare_values(x, y);
                    },
                }
            },
            InstrKind::Inc | InstrKind::Dec => {
                let a = match get_next_reg_operand(self) {
                    Ok(reg) => reg,
                    Err(e) => {
                        return Err(e);
                    },
                };
                let x = self.common_registers[a];
                if kind == InstrKind::Inc {
                    self.common_registers[a] = ((x as u16 + 1) % 256) as u8;
                } else {
                    self.common_registers[a] = ((x as u16 + 255) % 256) as u8;
                }
            },
            InstrKind::Put => {
                let a = match get_next_reg_operand(self) {
                    Ok(reg) => reg,
                    Err(e) => {
                        return Err(e);
                    },
                };
                let v = match self.next_byte() {
                    Ok(v) => v,
                    Err(e) => {
                        return Err(e);
                    },
                };
                self.common_registers[a] = v;
            },
            InstrKind::Jmp | InstrKind::Jcond(..) => {
                assert(first & 1u8 == first % 2) by (bit_vector);
                let target = if first & 1 == 1 {
                    match self.next_byte() {
                        Ok(v) => v,
                        Err(e) => {
                            return Err(e);
                        },
                    }
                } else {
                    let a = match get_next_reg_operand(self) {
                        Ok(reg) => reg,
                        Err(e) => {
                            return Err(e);
                        },
                    };
                    self.common_registers[a]
                };
                match kind {
                    InstrKind::Jcond(direct, on) => {
                        if (self.flags == on) == direct {
                            self.ip = target;
                        }
                    },
                    _ => {
                        self.ip = target;
                    },
                }
            },
        }
        Ok(())
    }

    /// Runs one instruction. A halted engine stays as it is. On an error
    /// nothing changes, so no instruction is ever half applied.
    pub fn tick(&mut self) -> (r: Result<Status, ExecError>)
        requires
            state_wf(old(self)@),
        ensures
            state_wf(final(self)@),
            match step(old(self)@) {
                Ok(t) => final(self)@ == t && r == Ok::<Status, ExecError>(
                    if t.halted {
                        Status::Halted
                    } else {
                        Status::Running
                    },
                ),
                Err(e) => final(self)@ == old(self)@ && r == Err::<Status, ExecError>(e),
            },
    {
        if self.should_halt {
            return Ok(Status::Halted);
        }
        let saved = self.ip;
        let first = match self.next_byte() {
            Ok(b) => b,
            Err(e) => {
                return Err(e);
            },
        };
        assert(first >> 2u8 == first / 4) by (bit_vector);
        let op = first >> 2;
        let kind = match InstrKind::from_opcode(op) {
            Some(k) => k,
            None => {
                self.ip = saved;
                return Err(ExecError::UnknownOpcode { opcode: op });
            },
        };
        match self.execute_instr(kind, first) {
            Ok(()) => Ok(
                if self.should_halt {
                    Status::Halted
                } else {
                    Status::Running
                },
            ),
            Err(e) => {
                self.ip = saved;
                Err(e)
            },
        }
    }
}

/// The bytes from the pointer on are `e` (at most three, wrapping at the
/// end of memory).
pub open spec fn encoded_at(s: MachineState, e: Seq<u8>) -> bool {
    let len = s.memory.len();
    &&& s.ip < len
    &&& e.len() <= 3
    &&& forall|i: int| 0 <= i < e.len() ==> s.memory[skip_ip(s.ip, len, i as nat) as int] == #[trigger] e[i]
}

/// A sequence of snapshots in which each follows from the one before by a step.
pub open spec fn is_run(states: Seq<MachineState>) -> bool {
    forall|i: int| 0 <= i < states.len() - 1 ==> step(#[trigger] states[i]) == Ok::<MachineState, ExecError>(states[i + 1])
}

/// Determinism: two runs of the same length from the same state go through
/// the same snapshots.
pub proof fn lemma_deterministic(r1: Seq<MachineState>, r2: Seq<MachineState>)
    requires
        is_run(r1),
        is_run(r2),
        r1.len() == r2.len(),
        r1.len() > 0,
        r1[0] == r2[0],
    ensures
        r1 == r2,
{
    assert forall|i: int| 0 <= i < r1.len() implies r1[i] == r2[i] by {
        lemma_runs_agree_upto(r1, r2, i);
    }
    assert(r1 =~= r2);
}

proof fn lemma_runs_agree_upto(r1: Seq<MachineState>, r2: Seq<MachineState>, i: int)
    requires
        is_run(r1),
        is_run(r2),
        r1.len() == r2.len(),
        0 <= i < r1.len(),
        r1[0] == r2[0],
    ensures
        r1[i] == r2[i],
    decreases i,
{
    if i > 0 {
        lemma_runs_agree_upto(r1, r2, i - 1);
        assert(step(r1[i - 1]) == Ok::<MachineState, ExecError>(r1[i]));
        assert(step(r2[i - 1]) == Ok::<MachineState, ExecError>(r2[i]));
    }
}

/// Decoding the bytes at the pointer of a running engine gives back the
/// instruction encoded there.
proof fn lemma_decode_at(s: MachineState, k: InstrKind, args: Seq<Arg>)
    requires
        encodable(k, args),
        encoded_at(s, encode(k, args)),
    ensures
        ({
            let len = s.memory.len();
            let p1 = next_ip(s.ip, len);
            decode(seq![s.memory[s.ip as int], s.memory[p1 as int], s.memory[next_ip(p1, len) as int]])
                == Ok::<Decoded, ExecError>(
                Decoded { kind: k, args, size: encode(k, args).len() },
            )
        }),
{
    let len = s.memory.len();
    let e = encode(k, args);
    let p1 = next_ip(s.ip, len);
    let w = seq![s.memory[s.ip as int], s.memory[p1 as int], s.memory[next_ip(p1, len) as int]];
    reveal_with_fuel(skip_ip, 3);
    let rest = w.skip(e.len() as int);
    lemma_round_trip(k, args, rest);
    assert(e.len() >= 1);
    assert(w[0] == e[0]);
    if e.len() >= 2 {
        assert(w[1] == e[1]);
    }
    if e.len() >= 3 {
        assert(w[2] == e[2]);
    }
    assert(e + rest =~= w);
}

/// Round trip through the engine: when the bytes at the pointer of a running
/// engine are the encoding of an instruction, one step executes that very
/// kind on those very operands, with the pointer moved past exactly the
/// encoded bytes.
pub proof fn lemma_step_runs_encoded(s: MachineState, k: InstrKind, args: Seq<Arg>)
    requires
        state_wf(s),
        !s.halted,
        encodable(k, args),
        encoded_at(s, encode(k, args)),
    ensures
        step(s) == execute(
            k,
            args,
            MachineState { ip: skip_ip(s.ip, s.memory.len(), encode(k, args).len()), ..s },
        ),
{
    reveal_with_fuel(skip_ip, 4);
    lemma_decode_at(s, k, args);
}

/// `div` leaves the quotient of its two registers in register 0 and the
/// remainder in register 1, whichever registers held them: with 17 and 5,
/// register 0 ends as 3 and register 1 as 2.
pub proof fn lemma_divide(s: MachineState, a: u8, b: u8)
    requires
        state_wf(s),
        !s.halted,
        a < REGISTER_COUNT,
        b < REGISTER_COUNT,
        s.regs[b as int] != 0,
        encoded_at(s, encode(InstrKind::Div, seq![Arg::Reg(a), Arg::Reg(b)])),
    ensures
        step(s) is Ok,
        step(s)->Ok_0.regs[0] == s.regs[a as int] / s.regs[b as int],
        step(s)->Ok_0.regs[1] == s.regs[a as int] % s.regs[b as int],
{
    let args = seq![Arg::Reg(a), Arg::Reg(b)];
    assert(shape_of(args) =~= seq![OperandType::Register, OperandType::Register]);
    lemma_decode_at(s, InstrKind::Div, args);
}

/// After `cmp` of two registers whose first value is below the second, the
/// flag is `Less`.
pub proof fn lemma_compare_less(s: MachineState, a: u8, b: u8)
    requires
        state_wf(s),
        !s.halted,
        a < REGISTER_COUNT,
        b < REGISTER_COUNT,
        s.regs[a as int] < s.regs[b as int],
        encoded_at(s, encode(InstrKind::Cmp, seq![Arg::Reg(a), Arg::Reg(b)])),
    ensures
        step(s) is Ok,
        step(s)->Ok_0.flag == Flag::Less,
{
    let args = seq![Arg::Reg(a), Arg::Reg(b)];
    assert(shape_of(args) =~= seq![OperandType::Register, OperandType::Register]);
    lemma_decode_at(s, InstrKind::Cmp, args);
}

/// With the flag at `Less`, a jump-if-less to `target` sets the pointer to
/// `target`, while a jump-if-greater only moves the pointer past itself and
/// changes nothing else.
pub proof fn lemma_jump_on_less(s: MachineState, target: u8)
    requires
        state_wf(s),
        !s.halted,
        s.flag == Flag::Less,
    ensures
        encoded_at(s, encode(InstrKind::Jcond(true, Flag::Less), seq![Arg::Imm(target)]))
            ==> step(s) == Ok::<MachineState, ExecError>(MachineState { ip: target, ..s }),
        encoded_at(s, encode(InstrKind::Jcond(true, Flag::Greater), seq![Arg::Imm(target)]))
            ==> step(s) == Ok::<MachineState, ExecError>(
            MachineState { ip: skip_ip(s.ip, s.memory.len(), 2), ..s },
        ),
{
    let args = seq![Arg::Imm(target)];
    reveal_with_fuel(skip_ip, 3);
    if encoded_at(s, encode(InstrKind::Jcond(true, Flag::Less), args)) {
        lemma_decode_at(s, InstrKind::Jcond(true, Flag::Less), args);
    }
    if encoded_at(s, encode(InstrKind::Jcond(true, Flag::Greater), args)) {
        lemma_decode_at(s, InstrKind::Jcond(true, Flag::Greater), args);
    }
}

/// A `ldr` whose address register holds a value at or past the end of
/// memory fails the step; since a failing `tick` changes nothing, the engine
/// runs no further instruction.
pub proof fn lemma_load_out_of_bounds(s: MachineState, a: u8, b: u8)
    requires
        state_wf(s),
        !s.halted,
        a < REGISTER_COUNT,
        b < REGISTER_COUNT,
        s.regs[b as int] >= s.memory.len(),
        encoded_at(s, encode(InstrKind::Ldr, seq![Arg::Reg(a), Arg::Reg(b)])),
    ensures
        step(s) == Err::<MachineState, ExecError>(
            (ExecError::AddressOutOfBounds { address: s.regs[b as int] }),
        ),
{
    let args = seq![Arg::Reg(a), Arg::Reg(b)];
    assert(shape_of(args) =~= seq![OperandType::Register, OperandType::Register]);
    lemma_decode_at(s, InstrKind::Ldr, args);
}

} // verus!
