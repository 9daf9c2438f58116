//! One parsed source line: blank, a label declaration, or an instruction
//! with its operands.
use vstd::prelude::*;

use crate::error::{AsmErrorKind, ExecError};
use crate::isa::{
    args_view, arg_resolved, decode, encodable, encode, find_named_from, get_instruction_size,
    instr_from_str, kind_of_mnemonic, kind_of_opcode, lemma_round_trip, names, shape_of,
    size_of_shape, type_of_arg, Arg, Decoded, InstrKind, Operand, OperandType, REGISTER_COUNT,
};
use crate::text::{decimal_value, get_words, is_decimal, parse_decimal, words};

verus! {

/// The register sigil.
pub open spec fn is_register_token(w: Seq<char>) -> bool {
    w.len() > 0 && w[0] == 'r'
}

pub open spec fn is_ident_char(c: char) -> bool {
    let u = c as u32;
    (48 <= u <= 57) || (65 <= u <= 90) || (97 <= u <= 122) || c == '_'
}

/// The label sigil followed by a non-empty identifier.
pub open spec fn is_label_token(w: Seq<char>) -> bool {
    &&& w.len() >= 2
    &&& w[0] == '@'
    &&& forall|i: int| 1 <= i < w.len() ==> is_ident_char(#[trigger] w[i])
}

/// Classifies and checks one operand word.
pub open spec fn parse_operand(w: Seq<char>) -> Result<Arg, AsmErrorKind> {
    if is_register_token(w) {
        let d = w.skip(1);
        if !is_decimal(d) {
            Err(AsmErrorKind::BadOperand)
        } else if decimal_value(d) >= REGISTER_COUNT {
            Err(AsmErrorKind::RegisterOutOfRange)
        } else {
            Ok(Arg::Reg(decimal_value(d) as u8))
        }
    } else if w.len() > 0 && w[0] == '@' {
        if is_label_token(w) {
            Ok(Arg::Label(w))
        } else {
            Err(AsmErrorKind::BadOperand)
        }
    } else if !is_decimal(w) {
        Err(AsmErrorKind::BadOperand)
    } else if decimal_value(w) > 255 {
        Err(AsmErrorKind::ValueOutOfRange)
    } else {
        Ok(Arg::Imm(decimal_value(w) as u8))
    }
}

/// Parses operand words in order; the first bad one decides the error.
pub open spec fn parse_operands(ws: Seq<Seq<char>>) -> Result<Seq<Arg>, AsmErrorKind>
    decreases ws.len(),
{
    if ws.len() == 0 {
        Ok(seq![])
    } else {
        match parse_operand(ws[0]) {
            Err(e) => Err(e),
            Ok(a) => match parse_operands(ws.drop_first()) {
                Err(e) => Err(e),
                Ok(rest) => Ok(seq![a] + rest),
            },
        }
    }
}

/// What a source line holds.
pub enum LineModel {
    Blank,
    LabelDecl(Seq<char>),
    Instr(InstrKind, Seq<Arg>),
}

/// Parses one source line. The first word is looked up as a mnemonic;
/// if it is none, the line must be a single label token.
pub open spec fn parse_line(line: Seq<char>) -> Result<LineModel, AsmErrorKind> {
    let ws = words(line);
    if ws.len() == 0 {
        Ok(LineModel::Blank)
    } else {
        match kind_of_mnemonic(ws[0]) {
            Some(k) => match parse_operands(ws.drop_first()) {
                Err(e) => Err(e),
                Ok(args) => if k.spec_accepts(shape_of(args)) {
                    Ok(LineModel::Instr(k, args))
                } else {
                    Err(AsmErrorKind::BadShape)
                },
            },
            None => if ws.len() == 1 && is_label_token(ws[0]) {
                Ok(LineModel::LabelDecl(ws[0]))
            } else {
                Err(AsmErrorKind::UnknownMnemonic)
            },
        }
    }
}

/// Bytes that a line takes in the program.
pub open spec fn line_size(l: LineModel) -> nat {
    match l {
        LineModel::Instr(_, args) => match size_of_shape(shape_of(args)) {
            Some(n) => n,
            None => 0,
        },
        _ => 0,
    }
}

/// Registers named by parsed operands are below the register count.
pub open spec fn regs_in_range(args: Seq<Arg>) -> bool {
    forall|i: int| 0 <= i < args.len() ==> match #[trigger] args[i] {
        Arg::Reg(r) => r < REGISTER_COUNT,
        _ => true,
    }
}

/// A well-formed line model: an instruction takes its operands.
pub open spec fn line_ok(l: LineModel) -> bool {
    match l {
        LineModel::Instr(k, args) => k.spec_accepts(shape_of(args)) && regs_in_range(args),
        _ => true,
    }
}

/// The first entry of a label table with the given name.
pub open spec fn lookup(table: Seq<(Seq<char>, nat)>, name: Seq<char>) -> Option<nat>
    decreases table.len(),
{
    if table.len() == 0 {
        None
    } else if table[0].0 == name {
        Some(table[0].1)
    } else {
        lookup(table.drop_first(), name)
    }
}

pub open spec fn table_view(t: Seq<(String, usize)>) -> Seq<(Seq<char>, nat)> {
    t.map_values(|e: (String, usize)| (e.0@, e.1 as nat))
}

/// A label operand becomes the byte offset that the table gives it.
pub open spec fn resolve_arg(a: Arg, table: Seq<(Seq<char>, nat)>) -> Result<Arg, AsmErrorKind> {
    match a {
        Arg::Label(name) => match lookup(table, name) {
            None => Err(AsmErrorKind::UnresolvedLabel),
            Some(off) => if off > 255 {
                Err(AsmErrorKind::LabelOutOfRange)
            } else {
                Ok(Arg::Imm(off as u8))
            },
        },
        _ => Ok(a),
    }
}

pub open spec fn resolve_args(args: Seq<Arg>, table: Seq<(Seq<char>, nat)>) -> Result<
    Seq<Arg>,
    AsmErrorKind,
>
    decreases args.len(),
{
    if args.len() == 0 {
        Ok(seq![])
    } else {
        match resolve_arg(args[0], table) {
            Err(e) => Err(e),
            Ok(a) => match resolve_args(args.drop_first(), table) {
                Err(e) => Err(e),
                Ok(rest) => Ok(seq![a] + rest),
            },
        }
    }
}

/// The bytes of one line once its labels are resolved.
pub open spec fn build_line(l: LineModel, table: Seq<(Seq<char>, nat)>) -> Result<
    Seq<u8>,
    AsmErrorKind,
> {
    match l {
        LineModel::Instr(k, args) => match resolve_args(args, table) {
            Err(e) => Err(e),
            Ok(resolved) => Ok(encode(k, resolved)),
        },
        _ => Ok(seq![]),
    }
}

enum InstructionWord {
    Instruction(InstrKind),
    Label(String),
    Blank,
}

/// A parsed source line.
pub struct FullInstruction {
    instruction: InstructionWord,
    operands: Vec<Operand>,
    size: usize,
}

impl View for FullInstruction {
    type V = LineModel;

    closed spec fn view(&self) -> LineModel {
        match self.instruction {
            InstructionWord::Instruction(k) => LineModel::Instr(k, args_view(self.operands@)),
            InstructionWord::Label(s) => LineModel::LabelDecl(s@),
            InstructionWord::Blank => LineModel::Blank,
        }
    }
}

fn is_ident_char_exec(c: char) -> (r: bool)
    ensures
        r == is_ident_char(c),
{
    ('0' <= c && c <= '9') || ('A' <= c && c <= 'Z') || ('a' <= c && c <= 'z') || c == '_'
}

fn is_label_token_exec(w: &str) -> (r: bool)
    ensures
        r == is_label_token(w@),
{
    let n = w.unicode_len();
    if n < 2 || w.get_char(0) != '@' {
        return false;
    }
    let mut i: usize = 1;
    while i < n
        invariant
            n == w@.len(),
            1 <= i <= n,
            forall|j: int| 1 <= j < i ==> is_ident_char(#[trigger] w@[j]),
        decreases n - i,
    {
        if !is_ident_char_exec(w.get_char(i)) {
            return false;
        }
        i = i + 1;
    }
    true
}

/// Classifies one operand word: `r<index>` is a register, `@<name>` a label,
/// anything else must be a decimal byte.
pub fn parse_operand_word(w: &String) -> (r: Result<Operand, AsmErrorKind>)
    ensures
        match r {
            Ok(o) => parse_operand(w@) == Ok::<Arg, AsmErrorKind>(o@),
            Err(e) => parse_operand(w@) == Err::<Arg, AsmErrorKind>(e),
        },
{
    let s = w.as_str();
    let n = s.unicode_len();
    if n > 0 && s.get_char(0) == 'r' {
        match parse_decimal(s, 1) {
            None => Err(AsmErrorKind::BadOperand),
            Some(v) => {
                if v >= 4 {
                    Err(AsmErrorKind::RegisterOutOfRange)
                } else {
                    Ok(Operand::Register(v as u8))
                }
            },
        }
    } else if n > 0 && s.get_char(0) == '@' {
        if is_label_token_exec(s) {
            Ok(Operand::Label(w.clone()))
        } else {
            Err(AsmErrorKind::BadOperand)
        }
    } else {
        proof {
            assert(w@.skip(0) =~= w@);
        }
        match parse_decimal(s, 0) {
            None => Err(AsmErrorKind::BadOperand),
            Some(v) => {
                if v > 255 {
                    Err(AsmErrorKind::ValueOutOfRange)
                } else {
                    Ok(Operand::Value(v as u8))
                }
            },
        }
    }
}

/// `r` with `acc` put in front of its success value.
pub open spec fn prefixed<T>(acc: Seq<T>, r: Result<Seq<T>, AsmErrorKind>) -> Result<
    Seq<T>,
    AsmErrorKind,
> {
    match r {
        Ok(rest) => Ok(acc + rest),
        Err(e) => Err(e),
    }
}

proof fn lemma_parse_operands_regs(ws: Seq<Seq<char>>)
    ensures
        parse_operands(ws) is Ok ==> regs_in_range(parse_operands(ws)->Ok_0),
    decreases ws.len(),
{
    if ws.len() > 0 {
        lemma_parse_operands_regs(ws.drop_first());
    }
}

/// A successfully parsed line is well-formed.
pub proof fn lemma_parse_line_ok(line: Seq<char>)
    ensures
        parse_line(line) is Ok ==> line_ok(parse_line(line)->Ok_0),
{
    let ws = words(line);
    if ws.len() > 0 {
        lemma_parse_operands_regs(ws.drop_first());
    }
}

/// Looks a label up in a table of (name, offset) entries.
pub fn find_label(labels: &Vec<(String, usize)>, name: &String) -> (r: Option<usize>)
    ensures
        match r {
            Some(off) => lookup(table_view(labels@), name@) == Some(off as nat),
            None => lookup(table_view(labels@), name@) is None,
        },
{
    let ghost t = table_view(labels@);
    let mut i: usize = 0;
    proof {
        assert(t.skip(0) =~= t);
    }
    while i < labels.len()
        invariant
            t == table_view(labels@),
            0 <= i <= labels.len(),
            lookup(t, name@) == lookup(t.skip(i as int), name@),
        decreases labels.len() - i,
    {
        assert(t.skip(i as int).drop_first() =~= t.skip(i + 1));
        if labels[i].0 == *name {
            return Some(labels[i].1);
        }
        i = i + 1;
    }
    None
}

impl FullInstruction {
    /// The stored size and operand checks agree with the line's model.
    pub closed spec fn wf(&self) -> bool {
        &&& self.size == line_size(self@)
        &&& line_ok(self@)
    }

    /// Parses one source line.
    pub fn new(line: &str) -> (r: Result<FullInstruction, AsmErrorKind>)
        ensures
            match r {
                Ok(fi) => parse_line(line@) == Ok::<LineModel, AsmErrorKind>(fi@) && fi.wf(),
                Err(e) => parse_line(line@) == Err::<LineModel, AsmErrorKind>(e),
            },
    {
        proof {
            lemma_parse_line_ok(line@);
        }
        let ws = get_words(line);
        let ghost wv = words(line@);
        if ws.len() == 0 {
            return Ok(
                FullInstruction {
                    instruction: InstructionWord::Blank,
                    operands: Vec::new(),
                    size: 0,
                },
            );
        }
        assert(wv[0] == ws[0]@);
        match instr_from_str(ws[0].as_str()) {
            Some(k) => {
                let mut ops: Vec<Operand> = Vec::new();
                let mut types: Vec<OperandType> = Vec::new();
                let mut i: usize = 1;
                proof {
                    assert(wv.skip(1) =~= wv.drop_first());
                    assert(args_view(ops@) + parse_operands(wv.skip(1))->Ok_0 =~= parse_operands(
                        wv.skip(1),
                    )->Ok_0);
                }
                while i < ws.len()
                    invariant
                        wv == words(line@),
                        wv.len() == ws.len(),
                        kind_of_mnemonic(wv[0]) == Some(k),
                        forall|j: int| 0 <= j < ws.len() ==> #[trigger] ws@[j]@ == wv[j],
                        1 <= i <= ws.len(),
                        parse_operands(wv.drop_first()) == prefixed(
                            args_view(ops@),
                            parse_operands(wv.skip(i as int)),
                        ),
                        types@ == shape_of(args_view(ops@)),
                    decreases ws.len() - i,
                {
                    let ghost rest = wv.skip(i as int);
                    assert(rest[0] == wv[i as int]);
                    assert(rest.drop_first() =~= wv.skip(i + 1));
                    match parse_operand_word(&ws[i]) {
                        Ok(o) => {
                            let ghost acc = args_view(ops@);
                            let t = o.operand_type();
                            ops.push(o);
                            types.push(t);
                            proof {
                                assert(args_view(ops@) =~= acc.push(o@));
                                assert(types@ =~= shape_of(args_view(ops@)));
                                match parse_operands(wv.skip(i + 1)) {
                                    Ok(tail) => {
                                        assert(acc + (seq![o@] + tail) =~= acc.push(o@) + tail);
                                    },
                                    Err(_) => {},
                                }
                            }
                        },
                        Err(e) => {
                            proof {
                                assert(ws@[i as int]@ == wv[i as int]);
                                assert(parse_operands(rest) == Err::<Seq<Arg>, AsmErrorKind>(e));
                            }
                            return Err(e);
                        },
                    }
                    i = i + 1;
                }
                proof {
                    assert(wv.skip(i as int).len() == 0);
                    assert(args_view(ops@) + seq![] =~= args_view(ops@));
                }
                if !k.accepts(&types) {
                    return Err(AsmErrorKind::BadShape);
                }
                let size = match get_instruction_size(&types) {
                    Some(n) => n as usize,
                    None => {
                        return Err(AsmErrorKind::BadShape);
                    },
                };
                Ok(FullInstruction { instruction: InstructionWord::Instruction(k), operands: ops, size })
            },
            None => {
                if ws.len() == 1 && is_label_token_exec(ws[0].as_str()) {
                    Ok(
                        FullInstruction {
                            instruction: InstructionWord::Label(ws[0].clone()),
                            operands: Vec::new(),
                            size: 0,
                        },
                    )
                } else {
                    Err(AsmErrorKind::UnknownMnemonic)
                }
            },
        }
    }

    /// Bytes this line takes in the program.
    pub fn size(&self) -> (r: usize)
        requires
            self.wf(),
        ensures
            r == line_size(self@),
    {
        self.size
    }

    /// The declared label's name, when the line declares one.
    pub fn as_label(&self) -> (r: Option<String>)
        ensures
            match self@ {
                LineModel::LabelDecl(name) => r is Some && r->Some_0@ == name,
                _ => r is None,
            },
    {
        match &self.instruction {
            InstructionWord::Label(lbl) => Some(lbl.clone()),
            _ => None,
        }
    }

    /// The line's bytes, with label operands replaced by their offsets.
    pub fn build(&self, labels: &Vec<(String, usize)>) -> (r: Result<Vec<u8>, AsmErrorKind>)
        requires
            self.wf(),
        ensures
            match r {
                Ok(b) => build_line(self@, table_view(labels@)) == Ok::<Seq<u8>, AsmErrorKind>(
                    b@,
                ),
                Err(e) => build_line(self@, table_view(labels@)) == Err::<Seq<u8>, AsmErrorKind>(
                    e,
                ),
            },
    {
        match &self.instruction {
            InstructionWord::Instruction(k) => {
                let ghost t = table_view(labels@);
                let ghost args = args_view(self.operands@);
                let mut resolved: Vec<Operand> = Vec::new();
                let mut i: usize = 0;
                proof {
                    assert(args.skip(0) =~= args);
                    assert(seq![] + resolve_args(args, t)->Ok_0 =~= resolve_args(args, t)->Ok_0);
                }
                while i < self.operands.len()
                    invariant
                        t == table_view(labels@),
                        args == args_view(self.operands@),
                        self.wf(),
                        self@ == LineModel::Instr(*k, args),
                        0 <= i <= self.operands.len(),
                        resolve_args(args, t) == prefixed(
                            args_view(resolved@),
                            resolve_args(args.skip(i as int), t),
                        ),
                        resolved.len() == i,
                        forall|j: int|
                            0 <= j < i ==> {
                                &&& arg_resolved(#[trigger] args_view(resolved@)[j])
                                &&& type_of_arg(args_view(resolved@)[j]) == if args[j] is Label {
                                    OperandType::Value
                                } else {
                                    type_of_arg(args[j])
                                }
                            },
                    decreases self.operands.len() - i,
                {
                    let ghost rest = args.skip(i as int);
                    assert(rest[0] == args[i as int]);
                    assert(rest.drop_first() =~= args.skip(i + 1));
                    let ghost acc = args_view(resolved@);
                    let o = match &self.operands[i] {
                        Operand::Label(name) => match find_label(labels, name) {
                            None => {
                                return Err(AsmErrorKind::UnresolvedLabel);
                            },
                            Some(off) => {
                                if off > 255 {
                                    return Err(AsmErrorKind::LabelOutOfRange);
                                }
                                Operand::Value(off as u8)
                            },
                        },
                        Operand::Register(r) => Operand::Register(*r),
                        Operand::Value(v) => Operand::Value(*v),
                    };
                    assert(args[i as int] == self.operands@[i as int]@);
                    assert(resolve_arg(args[i as int], t) == Ok::<Arg, AsmErrorKind>(o@));
                    resolved.push(o);
                    proof {
                        assert(args_view(resolved@) =~= acc.push(o@));
                        match resolve_args(args.skip(i + 1), t) {
                            Ok(tail) => {
                                assert(acc + (seq![o@] + tail) =~= acc.push(o@) + tail);
                            },
                            Err(_) => {},
                        }
                    }
                    i = i + 1;
                }
                proof {
                    let rv = args_view(resolved@);
                    assert(args.skip(i as int).len() == 0);
                    assert(rv + seq![] =~= rv);
                    assert(shape_of(rv).len() == shape_of(args).len());
                    assert forall|j: int| 0 <= j < rv.len() implies #[trigger] shape_of(rv)[j] == if shape_of(args)[j] == OperandType::Label {
                        OperandType::Value
                    } else {
                        shape_of(args)[j]
                    } by {}
                    assert(encodable(*k, rv));
                }
                Ok(k.assemble(&resolved))
            },
            _ => Ok(Vec::new()),
        }
    }
}

/// The operand that `a` becomes once labels are resolved, for the classes
/// of operand: a label turns into a value, the rest stay as they are.
pub open spec fn resolves_like(a: Arg, r: Arg) -> bool {
    &&& arg_resolved(r)
    &&& type_of_arg(r) == if a is Label {
        OperandType::Value
    } else {
        type_of_arg(a)
    }
    &&& !(a is Label) ==> r == a
}

pub proof fn lemma_resolve_args_shape(args: Seq<Arg>, t: Seq<(Seq<char>, nat)>)
    requires
        regs_in_range(args),
        resolve_args(args, t) is Ok,
    ensures
        resolve_args(args, t)->Ok_0.len() == args.len(),
        forall|i: int|
            0 <= i < args.len() ==> resolves_like(
                #[trigger] args[i],
                resolve_args(args, t)->Ok_0[i],
            ),
    decreases args.len(),
{
    if args.len() > 0 {
        let tail = args.drop_first();
        assert(regs_in_range(tail)) by {
            assert forall|i: int| 0 <= i < tail.len() implies match #[trigger] tail[i] {
                Arg::Reg(r) => r < REGISTER_COUNT,
                _ => true,
            } by {
                assert(tail[i] == args[i + 1]);
            }
        }
        lemma_resolve_args_shape(tail, t);
        let rs = resolve_args(args, t)->Ok_0;
        assert forall|i: int| 0 <= i < args.len() implies resolves_like(
            #[trigger] args[i],
            rs[i],
        ) by {
            if i > 0 {
                assert(args[i] == tail[i - 1]);
            } else {
                assert(match args[0] {
                    Arg::Reg(r) => r < REGISTER_COUNT,
                    _ => true,
                });
            }
        }
    }
}

proof fn lemma_found_names(w: Seq<char>, op: nat)
    requires
        find_named_from(w, op) is Some,
    ensures
        names(w, find_named_from(w, op)->Some_0),
    decreases 64 - op,
{
    if op < 64 {
        match kind_of_opcode(op as u8) {
            Some(k) => if !names(w, k) {
                lemma_found_names(w, op + 1);
            },
            None => {
                lemma_found_names(w, op + 1);
            },
        }
    }
}

/// A built line takes the number of bytes that its model says.
pub proof fn lemma_build_line_size(l: LineModel, t: Seq<(Seq<char>, nat)>)
    requires
        line_ok(l),
        build_line(l, t) is Ok,
    ensures
        build_line(l, t)->Ok_0.len() == line_size(l),
{
    if let LineModel::Instr(k, args) = l {
        lemma_resolve_args_shape(args, t);
        let rs = resolve_args(args, t)->Ok_0;
        assert forall|j: int| 0 <= j < rs.len() implies #[trigger] shape_of(rs)[j] == if shape_of(
            args,
        )[j] == OperandType::Label {
            OperandType::Value
        } else {
            shape_of(args)[j]
        } by {
            assert(resolves_like(args[j], rs[j]));
        }
        assert forall|j: int| 0 <= j < rs.len() implies arg_resolved(#[trigger] rs[j]) by {
            assert(resolves_like(args[j], rs[j]));
        }
        assert(encodable(k, rs));
        lemma_round_trip(k, rs, seq![0u8, 0u8, 0u8]);
    }
}

/// Round trip from source: when a line parses as an instruction and its
/// labels resolve, the bytes it assembles to, followed by any bytes, decode
/// to the kind that its first word names, with its operands in the same
/// order and of the same classes (a label having become the value it
/// stands for), and take as many bytes as the size table gives.
pub proof fn lemma_line_round_trip(line: Seq<char>, t: Seq<(Seq<char>, nat)>, rest: Seq<u8>)
    requires
        parse_line(line) is Ok,
        parse_line(line)->Ok_0 is Instr,
        build_line(parse_line(line)->Ok_0, t) is Ok,
        rest.len() >= 2,
    ensures
        ({
            let k = parse_line(line)->Ok_0->Instr_0;
            let args = parse_line(line)->Ok_0->Instr_1;
            let bytes = build_line(parse_line(line)->Ok_0, t)->Ok_0;
            let resolved = resolve_args(args, t)->Ok_0;
            &&& names(words(line)[0], k)
            &&& bytes.len() == line_size(parse_line(line)->Ok_0)
            &&& decode(bytes + rest) == Ok::<Decoded, ExecError>(
                Decoded { kind: k, args: resolved, size: bytes.len() },
            )
            &&& resolved.len() == args.len()
            &&& forall|i: int| 0 <= i < args.len() ==> resolves_like(#[trigger] args[i], resolved[i])
        }),
{
    let l = parse_line(line)->Ok_0;
    let k = l->Instr_0;
    let args = l->Instr_1;
    lemma_parse_line_ok(line);
    lemma_found_names(words(line)[0], 0);
    lemma_resolve_args_shape(args, t);
    let rs = resolve_args(args, t)->Ok_0;
    assert(shape_of(rs).len() == shape_of(args).len());
    assert forall|j: int| 0 <= j < rs.len() implies #[trigger] shape_of(rs)[j] == if shape_of(
        args,
    )[j] == OperandType::Label {
        OperandType::Value
    } else {
        shape_of(args)[j]
    } by {
        assert(resolves_like(args[j], rs[j]));
    }
    assert forall|j: int| 0 <= j < rs.len() implies arg_resolved(#[trigger] rs[j]) by {
        assert(resolves_like(args[j], rs[j]));
    }
    assert(encodable(k, rs));
    lemma_round_trip(k, rs, rest);
}

} // verus!
