//! The two-pass assembler: pass one parses every line, sizes instructions
//! and records label offsets; pass two resolves labels and encodes.
use vstd::prelude::*;

use crate::error::{AsmError, AsmErrorKind};
use crate::full_instruction::{
    build_line, lemma_build_line_size, lemma_parse_line_ok, line_ok, line_size, lookup,
    parse_line, resolve_arg, resolve_args, table_view, FullInstruction, LineModel,
};
use crate::isa::Arg;
use crate::text::string_views;

verus! {

/// What pass one knows after some lines: their models, the byte offset
/// reached, and the label table in declaration order.
pub struct Pass1 {
    pub parsed: Seq<LineModel>,
    pub offset: nat,
    pub labels: Seq<(Seq<char>, nat)>,
}

/// Pass one on the line with the given index. A label is declared at the
/// current offset and may be declared only once.
pub open spec fn pass1_step(p: Pass1, line: Seq<char>, index: nat) -> Result<Pass1, AsmError> {
    match parse_line(line) {
        Err(kind) => Err(AsmError { line: index as usize, kind }),
        Ok(l) => match l {
            LineModel::LabelDecl(name) => if lookup(p.labels, name) is Some {
                Err(AsmError { line: index as usize, kind: AsmErrorKind::DuplicateLabel })
            } else {
                Ok(
                    Pass1 {
                        parsed: p.parsed.push(l),
                        offset: p.offset,
                        labels: p.labels.push((name, p.offset)),
                    },
                )
            },
            _ => Ok(
                Pass1 { parsed: p.parsed.push(l), offset: p.offset + line_size(l), labels: p.labels },
            ),
        },
    }
}

/// Pass one over all of `lines`; the first failing line decides the error.
pub open spec fn pass1(lines: Seq<Seq<char>>) -> Result<Pass1, AsmError>
    decreases lines.len(),
{
    if lines.len() == 0 {
        Ok(Pass1 { parsed: seq![], offset: 0, labels: seq![] })
    } else {
        match pass1(lines.drop_last()) {
            Err(e) => Err(e),
            Ok(p) => pass1_step(p, lines.last(), (lines.len() - 1) as nat),
        }
    }
}

/// Pass two: the concatenated bytes of all lines; the first failing line
/// decides the error.
pub open spec fn pass2(parsed: Seq<LineModel>, labels: Seq<(Seq<char>, nat)>) -> Result<
    Seq<u8>,
    AsmError,
>
    decreases parsed.len(),
{
    if parsed.len() == 0 {
        Ok(seq![])
    } else {
        match pass2(parsed.drop_last(), labels) {
            Err(e) => Err(e),
            Ok(b) => match build_line(parsed.last(), labels) {
                Err(kind) => Err(AsmError { line: (parsed.len() - 1) as usize, kind }),
                Ok(c) => Ok(b + c),
            },
        }
    }
}

/// The program that the source lines assemble to, or the error.
pub open spec fn assemble_lines(lines: Seq<Seq<char>>) -> Result<Seq<u8>, AsmError> {
    match pass1(lines) {
        Err(e) => Err(e),
        Ok(p) => pass2(p.parsed, p.labels),
    }
}

/// Bytes taken by the lines before index `n`.
pub open spec fn bytes_before(parsed: Seq<LineModel>, n: int) -> nat
    decreases n,
{
    if n <= 0 {
        0
    } else {
        bytes_before(parsed, n - 1) + line_size(parsed[n - 1])
    }
}

proof fn lemma_pass1_err_persists(lines: Seq<Seq<char>>, n: int)
    requires
        0 <= n <= lines.len(),
        pass1(lines.take(n)) is Err,
    ensures
        pass1(lines) == pass1(lines.take(n)),
    decreases lines.len() - n,
{
    if n < lines.len() {
        assert(lines.take(n + 1).drop_last() =~= lines.take(n));
        lemma_pass1_err_persists(lines, n + 1);
    } else {
        assert(lines.take(n) =~= lines);
    }
}

proof fn lemma_pass2_err_persists(parsed: Seq<LineModel>, labels: Seq<(Seq<char>, nat)>, n: int)
    requires
        0 <= n <= parsed.len(),
        pass2(parsed.take(n), labels) is Err,
    ensures
        pass2(parsed, labels) == pass2(parsed.take(n), labels),
    decreases parsed.len() - n,
{
    if n < parsed.len() {
        assert(parsed.take(n + 1).drop_last() =~= parsed.take(n));
        lemma_pass2_err_persists(parsed, labels, n + 1);
    } else {
        assert(parsed.take(n) =~= parsed);
    }
}

pub open spec fn models(instrs: Seq<FullInstruction>) -> Seq<LineModel> {
    instrs.map_values(|f: FullInstruction| f@)
}

/// Assembles source lines into a program.
pub struct Assembler {
    assembled: Vec<u8>,
    labels: Vec<(String, usize)>,
    instrs: Vec<FullInstruction>,
}

impl View for Assembler {
    /// The bytes produced, the label table, and the parsed lines.
    type V = (Seq<u8>, Seq<(Seq<char>, nat)>, Seq<LineModel>);

    closed spec fn view(&self) -> Self::V {
        (self.assembled@, table_view(self.labels@), models(self.instrs@))
    }
}

impl Assembler {
    /// An assembler with no output, no labels and no lines yet.
    pub fn new() -> (r: Self)
        ensures
            r@ == (Seq::<u8>::empty(), Seq::<(Seq<char>, nat)>::empty(), Seq::<LineModel>::empty()),
    {
        proof {
            assert(table_view(Seq::<(String, usize)>::empty()) =~= Seq::empty());
            assert(models(Seq::<FullInstruction>::empty()) =~= Seq::empty());
        }
        Self { assembled: Vec::new(), labels: Vec::new(), instrs: Vec::new() }
    }

    /// Assembles the given source lines. Errors carry the index of the
    /// first failing line: pass one errors (syntax, range, shape, duplicate
    /// label) before pass two errors (unresolved or too distant label).
    pub fn assemble(self, lines: &Vec<String>) -> (r: Result<Vec<u8>, AsmError>)
        requires
            lines.len() <= usize::MAX / 4,
        ensures
            match r {
                Ok(b) => assemble_lines(string_views(lines@)) == Ok::<Seq<u8>, AsmError>(b@),
                Err(e) => assemble_lines(string_views(lines@)) == Err::<Seq<u8>, AsmError>(e),
            },
    {
        let ghost src = string_views(lines@);
        let mut state = self;
        state.assembled = Vec::new();
        state.labels = Vec::new();
        state.instrs = Vec::new();
        let mut current_byte: usize = 0;
        let mut i: usize = 0;
        proof {
            assert(src.take(0) =~= seq![]);
            assert(models(state.instrs@) =~= seq![]);
            assert(table_view(state.labels@) =~= seq![]);
        }
        while i < lines.len()
            invariant
                src == string_views(lines@),
                lines.len() <= usize::MAX / 4,
                0 <= i <= lines.len(),
                current_byte <= 3 * i,
                state.instrs.len() == i,
                forall|j: int| 0 <= j < i ==> (#[trigger] state.instrs@[j]).wf(),
                pass1(src.take(i as int)) == Ok::<Pass1, AsmError>(
                    Pass1 {
                        parsed: models(state.instrs@),
                        offset: current_byte as nat,
                        labels: table_view(state.labels@),
                    },
                ),
            decreases lines.len() - i,
        {
            let ghost before = models(state.instrs@);
            assert(src.take(i + 1).drop_last() =~= src.take(i as int));
            assert(src.take(i + 1).last() == lines@[i as int]@);
            let instr = match FullInstruction::new(lines[i].as_str()) {
                Ok(fi) => fi,
                Err(kind) => {
                    proof {
                        lemma_pass1_err_persists(src, i + 1);
                    }
                    return Err(AsmError { line: i, kind });
                },
            };
            match instr.as_label() {
                Some(name) => {
                    if crate::full_instruction::find_label(&state.labels, &name).is_some() {
                        proof {
                            lemma_pass1_err_persists(src, i + 1);
                        }
                        return Err(AsmError { line: i, kind: AsmErrorKind::DuplicateLabel });
                    }
                    let ghost tv = table_view(state.labels@);
                    state.labels.push((name, current_byte));
                    assert(table_view(state.labels@) =~= tv.push((name@, current_byte as nat)));
                },
                None => {
                    let sz = instr.size();
                    current_byte = current_byte + sz;
                },
            }
            state.instrs.push(instr);
            assert(models(state.instrs@) =~= before.push(instr@));
            i = i + 1;
        }
        assert(src.take(lines.len() as int) =~= src);
        let ghost p = pass1(src)->Ok_0;
        let mut out: Vec<u8> = Vec::new();
        let mut k: usize = 0;
        proof {
            assert(p.parsed.take(0) =~= seq![]);
        }
        while k < state.instrs.len()
            invariant
                p.parsed == models(state.instrs@),
                p.labels == table_view(state.labels@),
                pass1(src) == Ok::<Pass1, AsmError>(p),
                src == string_views(lines@),
                0 <= k <= state.instrs.len(),
                forall|j: int| 0 <= j < state.instrs.len() ==> (#[trigger] state.instrs@[j]).wf(),
                pass2(p.parsed.take(k as int), p.labels) == Ok::<Seq<u8>, AsmError>(out@),
            decreases state.instrs.len() - k,
        {
            assert(p.parsed.take(k + 1).drop_last() =~= p.parsed.take(k as int));
            assert(p.parsed.take(k + 1).last() == state.instrs@[k as int]@);
            let mut bytes = match state.instrs[k].build(&state.labels) {
                Ok(b) => b,
                Err(kind) => {
                    proof {
                        lemma_pass2_err_persists(p.parsed, p.labels, k + 1);
                    }
                    return Err(AsmError { line: k, kind });
                },
            };
            out.append(&mut bytes);
            k = k + 1;
        }
        assert(p.parsed.take(state.instrs.len() as int) =~= p.parsed);
        state.assembled = out;
        Ok(state.assembled)
    }
}

proof fn lemma_bytes_before_push(s: Seq<LineModel>, x: LineModel, j: int)
    requires
        0 <= j <= s.len(),
    ensures
        bytes_before(s.push(x), j) == bytes_before(s, j),
    decreases j,
{
    if j > 0 {
        lemma_bytes_before_push(s, x, j - 1);
    }
}

proof fn lemma_lookup_push(t: Seq<(Seq<char>, nat)>, x: (Seq<char>, nat), name: Seq<char>)
    ensures
        lookup(t.push(x), name) == if lookup(t, name) is Some {
            lookup(t, name)
        } else if x.0 == name {
            Some(x.1)
        } else {
            None
        },
    decreases t.len(),
{
    if t.len() > 0 {
        assert(t.push(x).drop_first() =~= t.drop_first().push(x));
        lemma_lookup_push(t.drop_first(), x, name);
    } else {
        assert(t.push(x).drop_first() =~= t);
    }
}

/// What pass one has gathered: one model per line, the offset after all
/// lines, and for each declared label the bytes taken by the lines before it.
proof fn lemma_pass1_facts(lines: Seq<Seq<char>>)
    requires
        pass1(lines) is Ok,
    ensures
        pass1(lines)->Ok_0.parsed.len() == lines.len(),
        pass1(lines)->Ok_0.offset == bytes_before(pass1(lines)->Ok_0.parsed, lines.len() as int),
        forall|j: int|
            0 <= j < lines.len() && (#[trigger] pass1(lines)->Ok_0.parsed[j]) is LabelDecl ==> lookup(
                pass1(lines)->Ok_0.labels,
                pass1(lines)->Ok_0.parsed[j]->LabelDecl_0,
            ) == Some(bytes_before(pass1(lines)->Ok_0.parsed, j)),
        forall|j: int| 0 <= j < lines.len() ==> line_ok(#[trigger] pass1(lines)->Ok_0.parsed[j]),
    decreases lines.len(),
{
    if lines.len() > 0 {
        let prev = lines.drop_last();
        lemma_pass1_facts(prev);
        lemma_parse_line_ok(lines.last());
        let q = pass1(prev)->Ok_0;
        let p = pass1(lines)->Ok_0;
        let n = prev.len() as int;
        let l = p.parsed[n];
        assert(p.parsed == q.parsed.push(l));
        lemma_bytes_before_push(q.parsed, l, n);
        assert forall|j: int| 0 <= j < lines.len() implies line_ok(#[trigger] p.parsed[j]) by {
            if j < n {
                assert(p.parsed[j] == q.parsed[j]);
            }
        }
        assert forall|j: int|
            0 <= j < lines.len() && (#[trigger] p.parsed[j]) is LabelDecl implies lookup(
                p.labels,
                p.parsed[j]->LabelDecl_0,
            ) == Some(bytes_before(p.parsed, j)) by {
            let name = p.parsed[j]->LabelDecl_0;
            if j < n {
                assert(p.parsed[j] == q.parsed[j]);
                lemma_bytes_before_push(q.parsed, l, j);
                if l is LabelDecl {
                    lemma_lookup_push(q.labels, (l->LabelDecl_0, q.offset), name);
                }
            } else {
                lemma_lookup_push(q.labels, (name, q.offset), name);
            }
        }
    }
}

proof fn lemma_resolve_args_each(args: Seq<Arg>, t: Seq<(Seq<char>, nat)>, i: int)
    requires
        resolve_args(args, t) is Ok,
        0 <= i < args.len(),
    ensures
        resolve_args(args, t)->Ok_0.len() == args.len(),
        resolve_arg(args[i], t) == Ok::<Arg, AsmErrorKind>(resolve_args(args, t)->Ok_0[i]),
    decreases args.len(),
{
    if i > 0 {
        lemma_resolve_args_each(args.drop_first(), t, i - 1);
    } else if args.len() > 1 {
        lemma_resolve_args_each(args.drop_first(), t, 0);
    }
}

/// Label resolution: when pass one succeeds and line `j` declares a label,
/// every operand naming it, on any line before or after `j`, resolves to
/// the number of bytes taken by the lines before `j` (an error when that
/// number does not fit in a byte).
pub proof fn lemma_label_resolution(lines: Seq<Seq<char>>, j: int, k: int, i: int)
    requires
        pass1(lines) is Ok,
        0 <= j < lines.len(),
        0 <= k < lines.len(),
        pass1(lines)->Ok_0.parsed[j] is LabelDecl,
        pass1(lines)->Ok_0.parsed[k] is Instr,
        0 <= i < pass1(lines)->Ok_0.parsed[k]->Instr_1.len(),
        pass1(lines)->Ok_0.parsed[k]->Instr_1[i] == Arg::Label(
            pass1(lines)->Ok_0.parsed[j]->LabelDecl_0,
        ),
    ensures
        ({
            let p = pass1(lines)->Ok_0;
            let n = bytes_before(p.parsed, j);
            let args = p.parsed[k]->Instr_1;
            &&& n <= 255 ==> resolve_arg(args[i], p.labels) == Ok::<Arg, AsmErrorKind>(
                Arg::Imm(n as u8),
            )
            &&& n > 255 ==> resolve_arg(args[i], p.labels) == Err::<Arg, AsmErrorKind>(
                AsmErrorKind::LabelOutOfRange,
            )
            &&& resolve_args(args, p.labels) is Ok ==> resolve_args(args, p.labels)->Ok_0[i]
                == Arg::Imm(n as u8)
        }),
{
    lemma_pass1_facts(lines);
    let p = pass1(lines)->Ok_0;
    let args = p.parsed[k]->Instr_1;
    assert(p.parsed[j] is LabelDecl);
    if resolve_args(args, p.labels) is Ok {
        lemma_resolve_args_each(args, p.labels, i);
    }
}

proof fn lemma_bytes_before_monotone(parsed: Seq<LineModel>, i: int, j: int)
    requires
        i <= j,
    ensures
        bytes_before(parsed, i) <= bytes_before(parsed, j),
    decreases j - i,
{
    if i < j {
        lemma_bytes_before_monotone(parsed, i, j - 1);
    }
}

/// Where pass two puts each line: the bytes of line `k` start after the
/// bytes of all lines before it.
proof fn lemma_pass2_layout(parsed: Seq<LineModel>, t: Seq<(Seq<char>, nat)>)
    requires
        forall|j: int| 0 <= j < parsed.len() ==> line_ok(#[trigger] parsed[j]),
        pass2(parsed, t) is Ok,
    ensures
        pass2(parsed, t)->Ok_0.len() == bytes_before(parsed, parsed.len() as int),
        forall|k: int|
            0 <= k < parsed.len() ==> build_line(#[trigger] parsed[k], t) is Ok
                && pass2(parsed, t)->Ok_0.subrange(
                bytes_before(parsed, k) as int,
                (bytes_before(parsed, k) + line_size(parsed[k])) as int,
            ) == build_line(parsed[k], t)->Ok_0,
    decreases parsed.len(),
{
    if parsed.len() > 0 {
        let n = parsed.len() - 1;
        let prev = parsed.drop_last();
        let last = parsed[n];
        assert(parsed =~= prev.push(last));
        lemma_pass2_layout(prev, t);
        let b = pass2(prev, t)->Ok_0;
        let c = build_line(last, t)->Ok_0;
        let out = pass2(parsed, t)->Ok_0;
        lemma_build_line_size(last, t);
        lemma_bytes_before_push(prev, last, n);
        assert forall|k: int|
            0 <= k < parsed.len() implies build_line(#[trigger] parsed[k], t) is Ok
                && out.subrange(
                bytes_before(parsed, k) as int,
                (bytes_before(parsed, k) + line_size(parsed[k])) as int,
            ) == build_line(parsed[k], t)->Ok_0 by {
            if k < n {
                assert(parsed[k] == prev[k]);
                lemma_bytes_before_push(prev, last, k);
                lemma_bytes_before_push(prev, last, k + 1);
                lemma_bytes_before_monotone(prev, k + 1, n);
                assert(out.subrange(
                    bytes_before(parsed, k) as int,
                    (bytes_before(parsed, k) + line_size(parsed[k])) as int,
                ) =~= b.subrange(
                    bytes_before(prev, k) as int,
                    (bytes_before(prev, k) + line_size(prev[k])) as int,
                ));
            } else {
                assert(out.subrange(b.len() as int, (b.len() + c.len()) as int) =~= c);
            }
        }
    }
}

proof fn lemma_resolve_args_pointwise(a: Seq<Arg>, b: Seq<Arg>, t: Seq<(Seq<char>, nat)>)
    requires
        a.len() == b.len(),
        forall|j: int| 0 <= j < a.len() ==> resolve_arg(#[trigger] a[j], t) == resolve_arg(b[j], t),
    ensures
        resolve_args(a, t) == resolve_args(b, t),
    decreases a.len(),
{
    if a.len() > 0 {
        assert(resolve_arg(a[0], t) == resolve_arg(b[0], t));
        assert forall|j: int| 0 <= j < a.len() - 1 implies resolve_arg(
            #[trigger] a.drop_first()[j],
            t,
        ) == resolve_arg(b.drop_first()[j], t) by {
            assert(resolve_arg(a[j + 1], t) == resolve_arg(b[j + 1], t));
        }
        lemma_resolve_args_pointwise(a.drop_first(), b.drop_first(), t);
    }
}

/// Label resolution in the output: when the source assembles, a label
/// declared on line `j` stands for the number `n` of bytes of the lines
/// before `j`, that number fits in a byte, and the bytes of every
/// instruction line `k` naming it, before or after `j`, are at that line's
/// offset in the program and are exactly those of the same line with the
/// literal `n` written in place of the label.
pub proof fn lemma_label_in_output(lines: Seq<Seq<char>>, j: int, k: int, i: int)
    requires
        assemble_lines(lines) is Ok,
        0 <= j < lines.len(),
        0 <= k < lines.len(),
        pass1(lines)->Ok_0.parsed[j] is LabelDecl,
        pass1(lines)->Ok_0.parsed[k] is Instr,
        0 <= i < pass1(lines)->Ok_0.parsed[k]->Instr_1.len(),
        pass1(lines)->Ok_0.parsed[k]->Instr_1[i] == Arg::Label(
            pass1(lines)->Ok_0.parsed[j]->LabelDecl_0,
        ),
    ensures
        ({
            let p = pass1(lines)->Ok_0;
            let out = assemble_lines(lines)->Ok_0;
            let n = bytes_before(p.parsed, j);
            let at = bytes_before(p.parsed, k);
            let kind = p.parsed[k]->Instr_0;
            let args = p.parsed[k]->Instr_1;
            let literal = LineModel::Instr(kind, args.update(i, Arg::Imm(n as u8)));
            &&& n <= 255
            &&& build_line(literal, p.labels) is Ok
            &&& out.subrange(at as int, (at + line_size(p.parsed[k])) as int) == build_line(
                literal,
                p.labels,
            )->Ok_0
        }),
{
    let p = pass1(lines)->Ok_0;
    lemma_pass1_facts(lines);
    lemma_pass2_layout(p.parsed, p.labels);
    lemma_label_resolution(lines, j, k, i);
    let n = bytes_before(p.parsed, j);
    let args = p.parsed[k]->Instr_1;
    let lit = args.update(i, Arg::Imm(n as u8));
    assert(build_line(p.parsed[k], p.labels) is Ok);
    assert(resolve_args(args, p.labels) is Ok);
    lemma_resolve_args_each(args, p.labels, i);
    assert(n <= 255);
    assert forall|m: int| 0 <= m < args.len() implies resolve_arg(#[trigger] args[m], p.labels)
        == resolve_arg(lit[m], p.labels) by {}
    lemma_resolve_args_pointwise(args, lit, p.labels);
}

} // verus!
