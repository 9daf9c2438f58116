use rustrone::full_instruction::parse_operand_word;
use rustrone::isa::{get_instruction_size, instr_from_str};
use rustrone::text::{get_words, parse_decimal};
use rustrone::{AsmErrorKind, Flag, FullInstruction, InstrKind, Operand, OperandType};

const ALL_KINDS: [InstrKind; 20] = [
    InstrKind::Nop,
    InstrKind::Halt,
    InstrKind::Add,
    InstrKind::Sub,
    InstrKind::Mul,
    InstrKind::Div,
    InstrKind::Inc,
    InstrKind::Dec,
    InstrKind::Ldr,
    InstrKind::Str,
    InstrKind::Mov,
    InstrKind::Put,
    InstrKind::Cmp,
    InstrKind::Jmp,
    InstrKind::Jcond(true, Flag::Less),
    InstrKind::Jcond(false, Flag::Less),
    InstrKind::Jcond(true, Flag::Greater),
    InstrKind::Jcond(false, Flag::Greater),
    InstrKind::Jcond(true, Flag::Equal),
    InstrKind::Jcond(false, Flag::Equal),
];

#[test]
fn registry_is_a_bijection() {
    for (i, k) in ALL_KINDS.iter().enumerate() {
        assert_eq!(InstrKind::from_opcode(k.opcode()), Some(*k));
        assert_eq!(instr_from_str(k.mnemonic()), Some(*k));
        for other in &ALL_KINDS[i + 1..] {
            assert_ne!(k.opcode(), other.opcode());
            assert_ne!(k.mnemonic(), other.mnemonic());
        }
    }
}

#[test]
fn unmapped_opcodes() {
    assert_eq!(InstrKind::from_opcode(15), None);
    assert_eq!(InstrKind::from_opcode(21), None);
    assert_eq!(InstrKind::from_opcode(63), None);
}

#[test]
fn mnemonic_lookup() {
    assert_eq!(instr_from_str("sub"), Some(InstrKind::Sub));
    assert_eq!(instr_from_str("SuB"), Some(InstrKind::Sub));
    assert_eq!(instr_from_str("jnl"), Some(InstrKind::Jcond(false, Flag::Less)));
    assert_eq!(instr_from_str("subs"), None);
    assert_eq!(instr_from_str("@sub"), None);
    assert_eq!(instr_from_str(""), None);
}

#[test]
fn size_table() {
    assert_eq!(get_instruction_size(&vec![OperandType::Register, OperandType::Register]), Some(2));
    assert_eq!(get_instruction_size(&vec![OperandType::Register, OperandType::Value]), Some(3));
    assert_eq!(get_instruction_size(&vec![OperandType::Register, OperandType::Label]), Some(3));
    assert_eq!(get_instruction_size(&vec![OperandType::Register]), Some(2));
    assert_eq!(get_instruction_size(&vec![OperandType::Value]), Some(2));
    assert_eq!(get_instruction_size(&vec![OperandType::Label]), Some(2));
    assert_eq!(get_instruction_size(&vec![]), Some(1));
    assert_eq!(get_instruction_size(&vec![OperandType::Value, OperandType::Register]), None);
    assert_eq!(get_instruction_size(&vec![OperandType::Register, OperandType::Register, OperandType::Register]), None);
}

#[test]
fn shapes_each_kind_accepts() {
    assert!(InstrKind::Add.accepts(&vec![OperandType::Register, OperandType::Register]));
    assert!(!InstrKind::Add.accepts(&vec![OperandType::Register, OperandType::Value]));
    assert!(InstrKind::Put.accepts(&vec![OperandType::Register, OperandType::Label]));
    assert!(InstrKind::Jmp.accepts(&vec![OperandType::Value]));
    assert!(InstrKind::Jmp.accepts(&vec![OperandType::Register]));
    assert!(!InstrKind::Halt.accepts(&vec![OperandType::Register]));
}

#[test]
fn assemble_one_instruction() {
    let ops = vec![Operand::Register(2), Operand::Value(99)];
    assert_eq!(InstrKind::Put.assemble(&ops), vec![44, 0x20, 99]);
    assert_eq!(InstrKind::Jcond(true, Flag::Equal).assemble(&vec![Operand::Value(4)]), vec![77, 4]);
}

#[test]
fn words_of_a_line() {
    assert_eq!(get_words("  put r0,5 ; set"), vec!["put", "r0", "5"]);
    assert_eq!(get_words("add\tr1 ,r2"), vec!["add", "r1", "r2"]);
    assert_eq!(get_words(";all comment"), Vec::<String>::new());
    assert_eq!(get_words(""), Vec::<String>::new());
    assert_eq!(get_words("halt;"), vec!["halt"]);
}

#[test]
fn every_white_space_separates_words() {
    assert_eq!(get_words("a\u{0C}b"), vec!["a", "b"]);
    assert_eq!(get_words("halt\r"), vec!["halt"]);
    assert_eq!(get_words("put\u{0B}r0\u{A0}5"), vec!["put", "r0", "5"]);
    assert_eq!(get_words("\u{3000}inc\u{2003}r1\u{85}"), vec!["inc", "r1"]);
    assert_eq!(get_words("x\u{2028}y\u{202F}z"), vec!["x", "y", "z"]);
    assert_eq!(get_words("a\u{200B}b"), vec!["a\u{200B}b"]);
}

#[test]
fn decimal_literals() {
    assert_eq!(parse_decimal("r12", 1), Some(12));
    assert_eq!(parse_decimal("007", 0), Some(7));
    assert_eq!(parse_decimal("255", 0), Some(255));
    assert_eq!(parse_decimal("256", 0), Some(256));
    assert_eq!(parse_decimal("123456789", 0), Some(256));
    assert_eq!(parse_decimal("r", 1), None);
    assert_eq!(parse_decimal("1x", 0), None);
}

#[test]
fn operand_words() {
    assert!(matches!(parse_operand_word(&"r3".to_string()), Ok(Operand::Register(3))));
    assert!(matches!(parse_operand_word(&"42".to_string()), Ok(Operand::Value(42))));
    assert!(matches!(parse_operand_word(&"@loop_1".to_string()), Ok(Operand::Label(ref s)) if s == "@loop_1"));
    assert!(matches!(parse_operand_word(&"r4".to_string()), Err(AsmErrorKind::RegisterOutOfRange)));
    assert!(matches!(parse_operand_word(&"300".to_string()), Err(AsmErrorKind::ValueOutOfRange)));
    assert!(matches!(parse_operand_word(&"x".to_string()), Err(AsmErrorKind::BadOperand)));
}

#[test]
fn full_instruction_lines() {
    let fi = FullInstruction::new("put r1, 7").ok().unwrap();
    assert_eq!(fi.size(), 3);
    assert_eq!(fi.as_label(), None);
    assert_eq!(fi.build(&vec![]), Ok(vec![44, 0x10, 7]));

    let lbl = FullInstruction::new("@here").ok().unwrap();
    assert_eq!(lbl.size(), 0);
    assert_eq!(lbl.as_label(), Some("@here".to_string()));
    assert_eq!(lbl.build(&vec![]), Ok(vec![]));

    let jump = FullInstruction::new("jmp @here").ok().unwrap();
    assert_eq!(jump.build(&vec![("@here".to_string(), 9)]), Ok(vec![53, 9]));
    assert_eq!(jump.build(&vec![]), Err(AsmErrorKind::UnresolvedLabel));
    assert_eq!(jump.build(&vec![("@here".to_string(), 300)]), Err(AsmErrorKind::LabelOutOfRange));

    let blank = FullInstruction::new("   ; nothing").ok().unwrap();
    assert_eq!(blank.size(), 0);
    assert!(FullInstruction::new("bogus r0").is_err());
}
