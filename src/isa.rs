//! The registry of instruction kinds: opcodes, mnemonics, operand shapes,
//! and the byte encoding shared by the assembler and the engine.
use vstd::prelude::*;

use crate::error::ExecError;

verus! {

/// Number of general-purpose registers.
pub const REGISTER_COUNT: u8 = 4;

/// Three-way result of the last `cmp`.
#[derive(Clone, Copy, Debug, PartialEq, Eq, Structural)]
pub enum Flag {
    Less,
    Equal,
    Greater,
}

/// The closed set of instruction kinds.
#[derive(Clone, Copy, Debug, PartialEq, Eq, Structural)]
pub enum InstrKind {
    Nop,
    Halt,
    Add,
    Sub,
    Mul,
    Div,
    Inc,
    Dec,
    Ldr,
    Str,
    Mov,
    Put,
    Cmp,
    Jmp,
    /// Conditional jump, taken when `(flag == on) == direct`.
    Jcond(bool, Flag),
}

/// Classification of a source operand.
#[derive(Clone, Copy, Debug, PartialEq, Eq, Structural)]
pub enum OperandType {
    Register,
    Value,
    Label,
}

/// An operand as the model sees it: a register index, a byte, or a label name.
pub enum Arg {
    Reg(u8),
    Imm(u8),
    Label(Seq<char>),
}

/// A decoded instruction and the number of bytes it took.
pub struct Decoded {
    pub kind: InstrKind,
    pub args: Seq<Arg>,
    pub size: nat,
}

pub open spec fn type_of_arg(a: Arg) -> OperandType {
    match a {
        Arg::Reg(_) => OperandType::Register,
        Arg::Imm(_) => OperandType::Value,
        Arg::Label(_) => OperandType::Label,
    }
}

pub open spec fn shape_of(args: Seq<Arg>) -> Seq<OperandType> {
    args.map_values(|a: Arg| type_of_arg(a))
}

/// A value operand or a label operand (which becomes a value once resolved).
pub open spec fn is_value_like(t: OperandType) -> bool {
    t == OperandType::Value || t == OperandType::Label
}

/// Kinds whose operands are a register pair packed in one byte.
pub open spec fn is_reg_pair_kind(k: InstrKind) -> bool {
    match k {
        InstrKind::Add | InstrKind::Sub | InstrKind::Mul | InstrKind::Div | InstrKind::Ldr
        | InstrKind::Str | InstrKind::Mov | InstrKind::Cmp => true,
        _ => false,
    }
}

impl InstrKind {
    pub open spec fn spec_opcode(self) -> u8 {
        match self {
            InstrKind::Nop => 0,
            InstrKind::Halt => 1,
            InstrKind::Add => 2,
            InstrKind::Sub => 3,
            InstrKind::Mul => 4,
            InstrKind::Div => 5,
            InstrKind::Inc => 6,
            InstrKind::Dec => 7,
            InstrKind::Ldr => 8,
            InstrKind::Str => 9,
            InstrKind::Mov => 10,
            InstrKind::Put => 11,
            InstrKind::Cmp => 12,
            InstrKind::Jmp => 13,
            InstrKind::Jcond(true, Flag::Less) => 14,
            InstrKind::Jcond(false, Flag::Less) => 16,
            InstrKind::Jcond(true, Flag::Greater) => 17,
            InstrKind::Jcond(false, Flag::Greater) => 18,
            InstrKind::Jcond(true, Flag::Equal) => 19,
            InstrKind::Jcond(false, Flag::Equal) => 20,
        }
    }

    pub open spec fn spec_mnemonic(self) -> Seq<char> {
        match self {
            InstrKind::Nop => seq!['n', 'o', 'p'],
            InstrKind::Halt => seq!['h', 'a', 'l', 't'],
            InstrKind::Add => seq!['a', 'd', 'd'],
            InstrKind::Sub => seq!['s', 'u', 'b'],
            InstrKind::Mul => seq!['m', 'u', 'l'],
            InstrKind::Div => seq!['d', 'i', 'v'],
            InstrKind::Inc => seq!['i', 'n', 'c'],
            InstrKind::Dec => seq!['d', 'e', 'c'],
            InstrKind::Ldr => seq!['l', 'd', 'r'],
            InstrKind::Str => seq!['s', 't', 'r'],
            InstrKind::Mov => seq!['m', 'o', 'v'],
            InstrKind::Put => seq!['p', 'u', 't'],
            InstrKind::Cmp => seq!['c', 'm', 'p'],
            InstrKind::Jmp => seq!['j', 'm', 'p'],
            InstrKind::Jcond(true, Flag::Less) => seq!['j', 'l'],
            InstrKind::Jcond(false, Flag::Less) => seq!['j', 'n', 'l'],
            InstrKind::Jcond(true, Flag::Greater) => seq!['j', 'g'],
            InstrKind::Jcond(false, Flag::Greater) => seq!['j', 'n', 'g'],
            InstrKind::Jcond(true, Flag::Equal) => seq!['j', 'e'],
            InstrKind::Jcond(false, Flag::Equal) => seq!['j', 'n', 'e'],
        }
    }

    /// Whether the kind takes operands of the given shape.
    pub open spec fn spec_accepts(self, shape: Seq<OperandType>) -> bool {
        if is_reg_pair_kind(self) {
            shape.len() == 2 && shape[0] == OperandType::Register && shape[1]
                == OperandType::Register
        } else {
            match self {
                InstrKind::Nop | InstrKind::Halt => shape.len() == 0,
                InstrKind::Inc | InstrKind::Dec => shape.len() == 1 && shape[0]
                    == OperandType::Register,
                InstrKind::Put => shape.len() == 2 && shape[0] == OperandType::Register
                    && is_value_like(shape[1]),
                _ => shape.len() == 1,
            }
        }
    }

    /// The opcode of this kind.
    pub fn opcode(&self) -> (r: u8)
        ensures
            r == self.spec_opcode(),
    {
        match self {
            InstrKind::Nop => 0,
            InstrKind::Halt => 1,
            InstrKind::Add => 2,
            InstrKind::Sub => 3,
            InstrKind::Mul => 4,
            InstrKind::Div => 5,
            InstrKind::Inc => 6,
            InstrKind::Dec => 7,
            InstrKind::Ldr => 8,
            InstrKind::Str => 9,
            InstrKind::Mov => 10,
            InstrKind::Put => 11,
            InstrKind::Cmp => 12,
            InstrKind::Jmp => 13,
            InstrKind::Jcond(direct, on) => match (direct, on) {
                (true, Flag::Less) => 14,
                (false, Flag::Less) => 16,
                (true, Flag::Greater) => 17,
                (false, Flag::Greater) => 18,
                (true, Flag::Equal) => 19,
                (false, Flag::Equal) => 20,
            },
        }
    }

    /// The canonical (lowercase) mnemonic of this kind.
    pub fn mnemonic(&self) -> (r: &'static str)
        ensures
            r@ == self.spec_mnemonic(),
    {
        match self {
            InstrKind::Nop => {
                proof {
                    reveal_strlit("nop");
                }
                "nop"
            },
            InstrKind::Halt => {
                proof {
                    reveal_strlit("halt");
                }
                "halt"
            },
            InstrKind::Add => {
                proof {
                    reveal_strlit("add");
                }
                "add"
            },
            InstrKind::Sub => {
                proof {
                    reveal_strlit("sub");
                }
                "sub"
            },
            InstrKind::Mul => {
                proof {
                    reveal_strlit("mul");
                }
                "mul"
            },
            InstrKind::Div => {
                proof {
                    reveal_strlit("div");
                }
                "div"
            },
            InstrKind::Inc => {
                proof {
                    reveal_strlit("inc");
                }
                "inc"
            },
            InstrKind::Dec => {
                proof {
                    reveal_strlit("dec");
                }
                "dec"
            },
            InstrKind::Ldr => {
                proof {
                    reveal_strlit("ldr");
                }
                "ldr"
            },
            InstrKind::Str => {
                proof {
                    reveal_strlit("str");
                }
                "str"
            },
            InstrKind::Mov => {
                proof {
                    reveal_strlit("mov");
                }
                "mov"
            },
            InstrKind::Put => {
                proof {
                    reveal_strlit("put");
                }
                "put"
            },
            InstrKind::Cmp => {
                proof {
                    reveal_strlit("cmp");
                }
                "cmp"
            },
            InstrKind::Jmp => {
                proof {
                    reveal_strlit("jmp");
                }
                "jmp"
            },
            InstrKind::Jcond(direct, on) => match (direct, on) {
                (true, Flag::Less) => {
                    proof {
                        reveal_strlit("jl");
                    }
                    "jl"
                },
                (false, Flag::Less) => {
                    proof {
                        reveal_strlit("jnl");
                    }
                    "jnl"
                },
                (true, Flag::Greater) => {
                    proof {
                        reveal_strlit("jg");
                    }
                    "jg"
                },
                (false, Flag::Greater) => {
                    proof {
                        reveal_strlit("jng");
                    }
                    "jng"
                },
                (true, Flag::Equal) => {
                    proof {
                        reveal_strlit("je");
                    }
                    "je"
                },
                (false, Flag::Equal) => {
                    proof {
                        reveal_strlit("jne");
                    }
                    "jne"
                },
            },
        }
    }

    /// Looks a kind up by opcode; `None` for an opcode with no kind.
    pub fn from_opcode(op: u8) -> (r: Option<InstrKind>)
        ensures
            r == kind_of_opcode(op),
    {
        match op {
            0 => Some(InstrKind::Nop),
            1 => Some(InstrKind::Halt),
            2 => Some(InstrKind::Add),
            3 => Some(InstrKind::Sub),
            4 => Some(InstrKind::Mul),
            5 => Some(InstrKind::Div),
            6 => Some(InstrKind::Inc),
            7 => Some(InstrKind::Dec),
            8 => Some(InstrKind::Ldr),
            9 => Some(InstrKind::Str),
            10 => Some(InstrKind::Mov),
            11 => Some(InstrKind::Put),
            12 => Some(InstrKind::Cmp),
            13 => Some(InstrKind::Jmp),
            14 => Some(InstrKind::Jcond(true, Flag::Less)),
            16 => Some(InstrKind::Jcond(false, Flag::Less)),
            17 => Some(InstrKind::Jcond(true, Flag::Greater)),
            18 => Some(InstrKind::Jcond(false, Flag::Greater)),
            19 => Some(InstrKind::Jcond(true, Flag::Equal)),
            20 => Some(InstrKind::Jcond(false, Flag::Equal)),
            _ => None,
        }
    }
}

/// The kind whose opcode is `op`, if any.
pub open spec fn kind_of_opcode(op: u8) -> Option<InstrKind> {
    match op {
        0 => Some(InstrKind::Nop),
        1 => Some(InstrKind::Halt),
        2 => Some(InstrKind::Add),
        3 => Some(InstrKind::Sub),
        4 => Some(InstrKind::Mul),
        5 => Some(InstrKind::Div),
        6 => Some(InstrKind::Inc),
        7 => Some(InstrKind::Dec),
        8 => Some(InstrKind::Ldr),
        9 => Some(InstrKind::Str),
        10 => Some(InstrKind::Mov),
        11 => Some(InstrKind::Put),
        12 => Some(InstrKind::Cmp),
        13 => Some(InstrKind::Jmp),
        14 => Some(InstrKind::Jcond(true, Flag::Less)),
        16 => Some(InstrKind::Jcond(false, Flag::Less)),
        17 => Some(InstrKind::Jcond(true, Flag::Greater)),
        18 => Some(InstrKind::Jcond(false, Flag::Greater)),
        19 => Some(InstrKind::Jcond(true, Flag::Equal)),
        20 => Some(InstrKind::Jcond(false, Flag::Equal)),
        _ => None,
    }
}

/// Opcodes and kinds are in bijection: looking up a kind's own opcode gives
/// the kind back, and a kind found under an opcode has that opcode.
pub proof fn lemma_opcode_bijection(k: InstrKind, op: u8)
    ensures
        kind_of_opcode(k.spec_opcode()) == Some(k),
        k.spec_opcode() < 64,
        kind_of_opcode(op) == Some(k) ==> k.spec_opcode() == op,
{
}

/// `c` is `l`, or the upper-case ASCII form of `l`.
pub open spec fn char_matches(c: char, l: char) -> bool {
    c == l || (65 <= c as u32 <= 90 && c as u32 + 32 == l as u32)
}

/// `w` spells the mnemonic of `k`, ignoring ASCII case.
pub open spec fn names(w: Seq<char>, k: InstrKind) -> bool {
    &&& w.len() == k.spec_mnemonic().len()
    &&& forall|i: int| 0 <= i < w.len() ==> char_matches(w[i], #[trigger] k.spec_mnemonic()[i])
}

/// The first kind, in opcode order from `op` on, that `w` names.
pub open spec fn find_named_from(w: Seq<char>, op: nat) -> Option<InstrKind>
    decreases 64 - op,
{
    if op >= 64 {
        None
    } else {
        match kind_of_opcode(op as u8) {
            Some(k) if names(w, k) => Some(k),
            _ => find_named_from(w, op + 1),
        }
    }
}

/// The kind that `w` names, ignoring ASCII case; `None` when `w` is no mnemonic.
pub open spec fn kind_of_mnemonic(w: Seq<char>) -> Option<InstrKind> {
    find_named_from(w, 0)
}

fn char_matches_exec(c: char, l: char) -> (r: bool)
    ensures
        r == char_matches(c, l),
{
    c == l || ('A' <= c && c <= 'Z' && (c as u32) + 32 == (l as u32))
}

fn names_exec(w: &str, k: InstrKind) -> (r: bool)
    ensures
        r == names(w@, k),
{
    let m = k.mnemonic();
    let n = w.unicode_len();
    if n != m.unicode_len() {
        return false;
    }
    let mut i: usize = 0;
    while i < n
        invariant
            n == w@.len(),
            n == m@.len(),
            m@ == k.spec_mnemonic(),
            0 <= i <= n,
            forall|j: int| 0 <= j < i ==> char_matches(w@[j], #[trigger] m@[j]),
        decreases n - i,
    {
        if !char_matches_exec(w.get_char(i), m.get_char(i)) {
            return false;
        }
        i = i + 1;
    }
    true
}

/// Looks a kind up by mnemonic, ignoring ASCII case. `None` means that the
/// word is not an instruction.
pub fn instr_from_str(s: &str) -> (r: Option<InstrKind>)
    ensures
        r == kind_of_mnemonic(s@),
{
    let mut op: u8 = 0;
    while op < 64
        invariant
            0 <= op <= 64,
            kind_of_mnemonic(s@) == find_named_from(s@, op as nat),
        decreases 64 - op,
    {
        match InstrKind::from_opcode(op) {
            Some(k) => {
                if names_exec(s, k) {
                    return Some(k);
                }
            },
            None => {},
        }
        op = op + 1;
    }
    None
}


/// A kind's own mnemonic, in any ASCII case, looks the kind up again.
pub proof fn lemma_mnemonic_round_trip(k: InstrKind)
    ensures
        kind_of_mnemonic(k.spec_mnemonic()) == Some(k),
{
    let m = k.spec_mnemonic();
    assert forall|op: nat| op < k.spec_opcode() implies #[trigger] names_none_at(m, op) by {
        if let Some(j) = kind_of_opcode(op as u8) {
            if names(m, j) {
                assert(m[0] == j.spec_mnemonic()[0]);
                assert(m[1] == j.spec_mnemonic()[1]);
                if m.len() > 2 {
                    assert(m[2] == j.spec_mnemonic()[2]);
                }
                if m.len() > 3 {
                    assert(m[3] == j.spec_mnemonic()[3]);
                }
                assert(m =~= j.spec_mnemonic());
            }
        }
    }
    lemma_find_skips(m, 0, k.spec_opcode() as nat);
    assert(names(m, k));
}

/// `w` names no kind with opcode `op`.
spec fn names_none_at(w: Seq<char>, op: nat) -> bool {
    match kind_of_opcode(op as u8) {
        Some(j) => !names(w, j),
        None => true,
    }
}

proof fn lemma_find_skips(w: Seq<char>, from: nat, to: nat)
    requires
        from <= to < 64,
        forall|op: nat| from <= op < to ==> #[trigger] names_none_at(w, op),
    ensures
        find_named_from(w, from) == find_named_from(w, to),
    decreases to - from,
{
    if from < to {
        assert(names_none_at(w, from));
        lemma_find_skips(w, from + 1, to);
    }
}


/// An operand after tokenizing: a register index, an immediate byte, or a
/// reference to a label.
#[derive(Debug)]
pub enum Operand {
    Register(u8),
    Value(u8),
    Label(String),
}

impl View for Operand {
    type V = Arg;

    open spec fn view(&self) -> Arg {
        match self {
            Operand::Register(r) => Arg::Reg(*r),
            Operand::Value(v) => Arg::Imm(*v),
            Operand::Label(s) => Arg::Label(s@),
        }
    }
}

pub open spec fn args_view(ops: Seq<Operand>) -> Seq<Arg> {
    ops.map_values(|o: Operand| o@)
}

impl Operand {
    pub fn operand_type(&self) -> (r: OperandType)
        ensures
            r == type_of_arg(self@),
    {
        match self {
            Operand::Register(_) => OperandType::Register,
            Operand::Value(_) => OperandType::Value,
            Operand::Label(_) => OperandType::Label,
        }
    }
}

/// Encoded size of an instruction with operands of the given shape, opcode
/// byte included; `None` for a shape outside the table.
pub open spec fn size_of_shape(shape: Seq<OperandType>) -> Option<nat> {
    if shape.len() == 0 {
        Some(1)
    } else if shape.len() == 1 {
        Some(2)
    } else if shape.len() == 2 && shape[0] == OperandType::Register {
        if shape[1] == OperandType::Register {
            Some(2)
        } else {
            Some(3)
        }
    } else {
        None
    }
}

/// Encoded size for an operand shape: two registers or one operand take two
/// bytes, a register and a value three, no operand one. `None` for any
/// other shape.
pub fn get_instruction_size(operand_types: &Vec<OperandType>) -> (r: Option<u8>)
    ensures
        match r {
            Some(n) => size_of_shape(operand_types@) == Some(n as nat),
            None => size_of_shape(operand_types@) is None,
        },
{
    let n = operand_types.len();
    if n == 0 {
        Some(1)
    } else if n == 1 {
        Some(2)
    } else if n == 2 && operand_types[0] == OperandType::Register {
        if operand_types[1] == OperandType::Register {
            Some(2)
        } else {
            Some(3)
        }
    } else {
        None
    }
}

impl InstrKind {
    /// Whether this kind takes operands of the given shape.
    pub fn accepts(&self, shape: &Vec<OperandType>) -> (r: bool)
        ensures
            r == self.spec_accepts(shape@),
    {
        let n = shape.len();
        match self {
            InstrKind::Nop | InstrKind::Halt => n == 0,
            InstrKind::Add | InstrKind::Sub | InstrKind::Mul | InstrKind::Div | InstrKind::Ldr
            | InstrKind::Str | InstrKind::Mov | InstrKind::Cmp => n == 2 && shape[0]
                == OperandType::Register && shape[1] == OperandType::Register,
            InstrKind::Inc | InstrKind::Dec => n == 1 && shape[0] == OperandType::Register,
            InstrKind::Put => n == 2 && shape[0] == OperandType::Register && (shape[1]
                == OperandType::Value || shape[1] == OperandType::Label),
            InstrKind::Jmp | InstrKind::Jcond(..) => n == 1,
        }
    }
}

/// A resolved operand: a register below the register count, or a byte.
pub open spec fn arg_resolved(a: Arg) -> bool {
    match a {
        Arg::Reg(r) => r < REGISTER_COUNT,
        Arg::Imm(_) => true,
        Arg::Label(_) => false,
    }
}

/// `k` takes `args`, and every operand is resolved.
pub open spec fn encodable(k: InstrKind, args: Seq<Arg>) -> bool {
    &&& k.spec_accepts(shape_of(args))
    &&& forall|i: int| 0 <= i < args.len() ==> arg_resolved(#[trigger] args[i])
}

pub open spec fn reg_of(a: Arg) -> u8 {
    match a {
        Arg::Reg(r) => r,
        _ => 0,
    }
}

pub open spec fn imm_of(a: Arg) -> u8 {
    match a {
        Arg::Imm(v) => v,
        _ => 0,
    }
}

/// The bytes of one instruction. The first byte holds the opcode in its six
/// high bits; for jumps its lowest bit is set when the target is a value.
/// A register pair packs into one byte, first register in the high nibble;
/// a single register sits in the high nibble of its byte.
pub open spec fn encode(k: InstrKind, args: Seq<Arg>) -> Seq<u8> {
    let op = (k.spec_opcode() * 4) as u8;
    if is_reg_pair_kind(k) {
        seq![op, (reg_of(args[0]) * 16 + reg_of(args[1])) as u8]
    } else {
        match k {
            InstrKind::Nop | InstrKind::Halt => seq![op],
            InstrKind::Inc | InstrKind::Dec => seq![op, (reg_of(args[0]) * 16) as u8],
            InstrKind::Put => seq![op, (reg_of(args[0]) * 16) as u8, imm_of(args[1])],
            _ => match args[0] {
                Arg::Imm(v) => seq![(op + 1) as u8, v],
                _ => seq![op, (reg_of(args[0]) * 16) as u8],
            },
        }
    }
}

/// The register held in the high nibble of `b`, if it is one.
pub open spec fn high_reg(b: u8) -> Result<Arg, ExecError> {
    if b / 16 < REGISTER_COUNT {
        Ok(Arg::Reg((b / 16) as u8))
    } else {
        Err(ExecError::BadRegister { index: (b / 16) as u8 })
    }
}

/// The register held in the low nibble of `b`, if it is one.
pub open spec fn low_reg(b: u8) -> Result<Arg, ExecError> {
    if b % 16 < REGISTER_COUNT {
        Ok(Arg::Reg((b % 16) as u8))
    } else {
        Err(ExecError::BadRegister { index: (b % 16) as u8 })
    }
}

/// Decodes the instruction at the start of `b` (which holds at least three
/// bytes; those past the instruction are ignored).
pub open spec fn decode(b: Seq<u8>) -> Result<Decoded, ExecError> {
    let op = (b[0] / 4) as u8;
    match kind_of_opcode(op) {
        None => Err(ExecError::UnknownOpcode { opcode: op }),
        Some(k) => if is_reg_pair_kind(k) {
            match (high_reg(b[1]), low_reg(b[1])) {
                (Err(e), _) => Err(e),
                (_, Err(e)) => Err(e),
                (Ok(x), Ok(y)) => Ok(Decoded { kind: k, args: seq![x, y], size: 2 }),
            }
        } else {
            match k {
                InstrKind::Nop | InstrKind::Halt => Ok(Decoded { kind: k, args: seq![], size: 1 }),
                InstrKind::Inc | InstrKind::Dec => match high_reg(b[1]) {
                    Err(e) => Err(e),
                    Ok(x) => Ok(Decoded { kind: k, args: seq![x], size: 2 }),
                },
                InstrKind::Put => match high_reg(b[1]) {
                    Err(e) => Err(e),
                    Ok(x) => Ok(Decoded { kind: k, args: seq![x, Arg::Imm(b[2])], size: 3 }),
                },
                _ => if b[0] % 2 == 1 {
                    Ok(Decoded { kind: k, args: seq![Arg::Imm(b[1])], size: 2 })
                } else {
                    match high_reg(b[1]) {
                        Err(e) => Err(e),
                        Ok(x) => Ok(Decoded { kind: k, args: seq![x], size: 2 }),
                    }
                },
            }
        },
    }
}

/// Round trip: the encoding of an instruction, followed by any bytes,
/// decodes to the same kind and operands, and its length is the size that
/// the size table gives for the operands' shape.
pub proof fn lemma_round_trip(k: InstrKind, args: Seq<Arg>, rest: Seq<u8>)
    requires
        encodable(k, args),
        encode(k, args).len() + rest.len() >= 3,
    ensures
        size_of_shape(shape_of(args)) == Some(encode(k, args).len()),
        decode(encode(k, args) + rest) == Ok::<Decoded, ExecError>(
            Decoded { kind: k, args, size: encode(k, args).len() },
        ),
{
    let e = encode(k, args);
    let b = e + rest;
    let op = k.spec_opcode();
    lemma_opcode_bijection(k, op);
    assert((op * 4) / 4 == op && (op * 4 + 1) / 4 == op);
    assert((op * 4) % 2 == 0 && (op * 4 + 1) % 2 == 1);
    assert(b[0] == e[0] && b[1] == if e.len() > 1 { e[1] } else { rest[0] });
    assert(e.len() < 3 ==> b[2] == rest[2 - e.len()]);
    if args.len() > 0 {
        assert(arg_resolved(args[0]));
        assert(type_of_arg(args[0]) == shape_of(args)[0]);
    }
    if args.len() > 1 {
        assert(arg_resolved(args[1]));
        assert(type_of_arg(args[1]) == shape_of(args)[1]);
    }
    if args.len() > 0 && args[0] is Reg {
        let r = reg_of(args[0]);
        assert((r * 16) / 16 == r && (r * 16) % 16 == 0) by (nonlinear_arith)
            requires r < 4;
        if args.len() > 1 && args[1] is Reg {
            let s = reg_of(args[1]);
            assert((r * 16 + s) / 16 == r && (r * 16 + s) % 16 == s) by (nonlinear_arith)
                requires r < 4, s < 4;
        }
    }
    match decode(b) {
        Ok(d) => {
            assert(d.args =~= args);
        },
        Err(_) => {},
    }
}


fn reg_index(o: &Operand) -> (r: u8)
    ensures
        r == reg_of(o@),
        arg_resolved(o@) ==> r < REGISTER_COUNT,
{
    match o {
        Operand::Register(r) => *r,
        _ => 0,
    }
}

fn value_of(o: &Operand) -> (r: u8)
    ensures
        r == imm_of(o@),
{
    match o {
        Operand::Value(v) => *v,
        _ => 0,
    }
}

impl InstrKind {
    /// The bytes of this instruction with the given resolved operands.
    pub fn assemble(&self, args: &Vec<Operand>) -> (r: Vec<u8>)
        requires
            encodable(*self, args_view(args@)),
        ensures
            r@ == encode(*self, args_view(args@)),
    {
        let ghost a = args_view(args@);
        proof {
            lemma_opcode_bijection(*self, 0);
            if a.len() > 0 {
                assert(arg_resolved(a[0]));
                assert(type_of_arg(a[0]) == shape_of(a)[0]);
            }
            if a.len() > 1 {
                assert(arg_resolved(a[1]));
                assert(type_of_arg(a[1]) == shape_of(a)[1]);
            }
        }
        let op = self.opcode() * 4;
        let r = match self {
            InstrKind::Nop | InstrKind::Halt => vec![op],
            InstrKind::Inc | InstrKind::Dec => vec![op, reg_index(&args[0]) * 16],
            InstrKind::Put => vec![op, reg_index(&args[0]) * 16, value_of(&args[1])],
            InstrKind::Jmp | InstrKind::Jcond(..) => match &args[0] {
                Operand::Value(v) => vec![op + 1, *v],
                _ => vec![op, reg_index(&args[0]) * 16],
            },
            _ => vec![op, reg_index(&args[0]) * 16 + reg_index(&args[1])],
        };
        assert(r@ =~= encode(*self, a));
        r
    }
}

} // verus!
