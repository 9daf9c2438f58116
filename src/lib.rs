//! A small 8-bit instruction set: its registry of instruction kinds, a
//! two-pass assembler from mnemonic source to bytes, and an execution
//! engine that runs those bytes.

pub mod assembler;
pub mod computer;
pub mod error;
pub mod full_instruction;
pub mod isa;
pub mod text;

pub use assembler::Assembler;
pub use computer::{Computer, Status};
pub use error::{AsmError, AsmErrorKind, ExecError};
pub use full_instruction::FullInstruction;
pub use isa::{Flag, InstrKind, Operand, OperandType};
