use rustrone::{AsmError, AsmErrorKind, Assembler};

fn assemble(src: &[&str]) -> Result<Vec<u8>, AsmError> {
    let lines: Vec<String> = src.iter().map(|l| l.to_string()).collect();
    Assembler::new().assemble(&lines)
}

fn error_of(src: &[&str]) -> AsmError {
    match assemble(src) {
        Err(e) => e,
        Ok(b) => panic!("expected an error, got {:?}", b),
    }
}

#[test]
fn end_to_end_program_bytes() {
    let prg = assemble(&["put r0, 5", "put r1, 2", "sub r0, r1", "halt"]).unwrap();
    assert_eq!(prg, vec![44, 0, 5, 44, 16, 2, 12, 1, 4]);
}

#[test]
fn each_shape_has_its_size() {
    assert_eq!(assemble(&["nop"]).unwrap().len(), 1);
    assert_eq!(assemble(&["add r1, r2"]).unwrap().len(), 2);
    assert_eq!(assemble(&["inc r3"]).unwrap().len(), 2);
    assert_eq!(assemble(&["jmp 7"]).unwrap().len(), 2);
    assert_eq!(assemble(&["jmp r2"]).unwrap().len(), 2);
    assert_eq!(assemble(&["put r2, 200"]).unwrap().len(), 3);
}

#[test]
fn encodings_of_every_kind() {
    assert_eq!(assemble(&["nop"]).unwrap(), vec![0]);
    assert_eq!(assemble(&["halt"]).unwrap(), vec![4]);
    assert_eq!(assemble(&["add r1, r2"]).unwrap(), vec![8, 0x12]);
    assert_eq!(assemble(&["sub r3, r0"]).unwrap(), vec![12, 0x30]);
    assert_eq!(assemble(&["mul r0, r1"]).unwrap(), vec![16, 0x01]);
    assert_eq!(assemble(&["div r2, r3"]).unwrap(), vec![20, 0x23]);
    assert_eq!(assemble(&["inc r1"]).unwrap(), vec![24, 0x10]);
    assert_eq!(assemble(&["dec r2"]).unwrap(), vec![28, 0x20]);
    assert_eq!(assemble(&["ldr r0, r1"]).unwrap(), vec![32, 0x01]);
    assert_eq!(assemble(&["str r1, r0"]).unwrap(), vec![36, 0x10]);
    assert_eq!(assemble(&["mov r3, r2"]).unwrap(), vec![40, 0x32]);
    assert_eq!(assemble(&["put r1, 9"]).unwrap(), vec![44, 0x10, 9]);
    assert_eq!(assemble(&["cmp r0, r1"]).unwrap(), vec![48, 0x01]);
    assert_eq!(assemble(&["jmp r3"]).unwrap(), vec![52, 0x30]);
    assert_eq!(assemble(&["jmp 12"]).unwrap(), vec![53, 12]);
    assert_eq!(assemble(&["jl 1"]).unwrap(), vec![57, 1]);
    assert_eq!(assemble(&["jnl 1"]).unwrap(), vec![65, 1]);
    assert_eq!(assemble(&["jg r1"]).unwrap(), vec![68, 0x10]);
    assert_eq!(assemble(&["jng 2"]).unwrap(), vec![73, 2]);
    assert_eq!(assemble(&["je 3"]).unwrap(), vec![77, 3]);
    assert_eq!(assemble(&["jne r0"]).unwrap(), vec![80, 0]);
}

#[test]
fn mnemonics_ignore_case() {
    assert_eq!(assemble(&["PUT r0, 1", "Halt"]).unwrap(), vec![44, 0, 1, 4]);
}

#[test]
fn blank_and_comment_lines_produce_nothing() {
    let prg = assemble(&["", "   ", "; only a comment", "inc r0 ; bump", "\thalt"]).unwrap();
    assert_eq!(prg, vec![24, 0, 4]);
}

#[test]
fn empty_source_is_empty_program() {
    assert_eq!(assemble(&[]).unwrap(), Vec::<u8>::new());
}

#[test]
fn forward_label_resolves_to_its_offset() {
    let prg = assemble(&["jmp @end", "put r0, 1", "@end", "halt"]).unwrap();
    assert_eq!(prg, vec![53, 5, 44, 0, 1, 4]);
}

#[test]
fn backward_label_resolves_to_its_offset() {
    let prg = assemble(&["nop", "@top", "inc r0", "jl @top", "put r1, @top"]).unwrap();
    assert_eq!(prg, vec![0, 24, 0, 57, 1, 44, 0x10, 1]);
}

#[test]
fn label_at_start_is_zero() {
    let prg = assemble(&["@start", "jmp @start"]).unwrap();
    assert_eq!(prg, vec![53, 0]);
}

#[test]
fn duplicate_label_is_an_error() {
    let e = error_of(&["@a", "nop", "@a"]);
    assert_eq!(e, AsmError { line: 2, kind: AsmErrorKind::DuplicateLabel });
}

#[test]
fn undeclared_label_is_an_error() {
    let e = error_of(&["nop", "jmp @nowhere"]);
    assert_eq!(e, AsmError { line: 1, kind: AsmErrorKind::UnresolvedLabel });
}

#[test]
fn label_past_a_byte_is_an_error() {
    let mut src: Vec<&str> = vec!["jmp @far"];
    for _ in 0..90 {
        src.push("put r0, 1");
    }
    src.push("@far");
    let e = error_of(&src);
    assert_eq!(e, AsmError { line: 0, kind: AsmErrorKind::LabelOutOfRange });
}

#[test]
fn unknown_mnemonic_is_an_error() {
    let e = error_of(&["nop", "frob r0"]);
    assert_eq!(e, AsmError { line: 1, kind: AsmErrorKind::UnknownMnemonic });
}

#[test]
fn label_declaration_with_more_words_is_an_error() {
    let e = error_of(&["@here r0"]);
    assert_eq!(e, AsmError { line: 0, kind: AsmErrorKind::UnknownMnemonic });
}

#[test]
fn malformed_operands_are_errors() {
    assert_eq!(error_of(&["inc rx"]).kind, AsmErrorKind::BadOperand);
    assert_eq!(error_of(&["inc r"]).kind, AsmErrorKind::BadOperand);
    assert_eq!(error_of(&["jmp 1a"]).kind, AsmErrorKind::BadOperand);
    assert_eq!(error_of(&["jmp @"]).kind, AsmErrorKind::BadOperand);
    assert_eq!(error_of(&["jmp @a-b"]).kind, AsmErrorKind::BadOperand);
}

#[test]
fn register_index_out_of_range_is_an_error() {
    assert_eq!(error_of(&["inc r4"]).kind, AsmErrorKind::RegisterOutOfRange);
    assert_eq!(error_of(&["inc r99999"]).kind, AsmErrorKind::RegisterOutOfRange);
}

#[test]
fn value_out_of_range_is_an_error() {
    assert_eq!(error_of(&["put r0, 256"]).kind, AsmErrorKind::ValueOutOfRange);
    assert_eq!(assemble(&["put r0, 255"]).unwrap(), vec![44, 0, 255]);
}

#[test]
fn wrong_shape_is_an_error() {
    assert_eq!(error_of(&["add r0, 5"]).kind, AsmErrorKind::BadShape);
    assert_eq!(error_of(&["halt r0"]).kind, AsmErrorKind::BadShape);
    assert_eq!(error_of(&["put 5, r0"]).kind, AsmErrorKind::BadShape);
    assert_eq!(error_of(&["jmp r0, r1"]).kind, AsmErrorKind::BadShape);
    assert_eq!(error_of(&["inc"]).kind, AsmErrorKind::BadShape);
}

#[test]
fn first_failing_line_is_reported() {
    let e = error_of(&["nop", "inc r9", "frob"]);
    assert_eq!(e, AsmError { line: 1, kind: AsmErrorKind::RegisterOutOfRange });
}

#[test]
fn pass_one_errors_come_before_pass_two_errors() {
    let e = error_of(&["jmp @missing", "inc r7"]);
    assert_eq!(e, AsmError { line: 1, kind: AsmErrorKind::RegisterOutOfRange });
}

#[test]
fn carriage_returns_and_form_feeds_separate_words() {
    let prg = assemble(&["put\u{0C}r0,\u{A0}5\r", "halt\r"]).unwrap();
    assert_eq!(prg, vec![44, 0, 5, 4]);
}
