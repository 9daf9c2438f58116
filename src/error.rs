use vstd::prelude::*;

verus! {

/// What went wrong on one source line.
#[derive(Clone, Copy, Debug, PartialEq, Eq, Structural)]
pub enum AsmErrorKind {
    /// The first word is neither a mnemonic nor a label declaration,
    /// or a label declaration is followed by more words.
    UnknownMnemonic,
    /// An operand token is malformed.
    BadOperand,
    /// A register index is not below the register count.
    RegisterOutOfRange,
    /// An immediate value does not fit in a byte.
    ValueOutOfRange,
    /// The operand count or kinds do not fit the instruction.
    BadShape,
    /// A label is declared a second time.
    DuplicateLabel,
    /// A label is referenced but never declared.
    UnresolvedLabel,
    /// A label resolves to an offset that does not fit in a byte.
    LabelOutOfRange,
}

/// An assembly error, with the index of the offending source line.
#[derive(Clone, Copy, Debug, PartialEq, Eq, Structural)]
pub struct AsmError {
    pub line: usize,
    pub kind: AsmErrorKind,
}

/// A fatal error of the execution engine.
#[derive(Clone, Copy, Debug, PartialEq, Eq, Structural)]
pub enum ExecError {
    /// The instruction pointer is at or past the end of memory.
    FetchOutOfBounds { ip: u8 },
    /// The opcode field of the fetched byte names no instruction.
    UnknownOpcode { opcode: u8 },
    /// A register field holds an index not below the register count.
    BadRegister { index: u8 },
    /// `div` with a zero divisor.
    DivideByZero,
    /// `ldr` or `str` with an address at or past the end of memory.
    AddressOutOfBounds { address: u8 },
}

} // verus!
