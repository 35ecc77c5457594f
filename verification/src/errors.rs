//! Structured errors and warnings of the two translation directions. Fatal
//! errors abort a translation; the single warning kind is collected and
//! reported after a successful run. Offending text is carried as bytes; the
//! host renders messages.

use vstd::prelude::*;

verus! {

/// Fatal assembler errors. Line numbers are 1-based.
#[derive(Debug, PartialEq, Eq)]
pub enum CompilerError {
    /// A source line could not be read by the host.
    ReadLine(usize),
    /// A statement does not end with a semicolon; carries the statement.
    LackSemiColon(usize, Vec<u8>),
    /// A mnemonic mixes upper and lower case; carries the mnemonic as written.
    CaseError(usize, Vec<u8>),
    /// A mnemonic is not in the instruction table; carries the statement.
    UnknownInstruction(usize, Vec<u8>),
    /// A loop was closed while none was open.
    NoLoop(usize),
    /// A loop was opened inside another loop.
    MultipleLoop(usize),
    /// An instruction that requires an operand got none; carries the mnemonic.
    MissingOperand(usize, Vec<u8>),
    /// An operand is not an integer in `[0, 255]`; carries the mnemonic and
    /// the operand text.
    InvalidOperand(usize, Vec<u8>, Vec<u8>),
    /// The program never reached its start marker.
    MissingStart,
    /// The program started but never reached its end marker.
    MissingEnd,
    /// A loop was still open when the input ended.
    MissingLoopEnd,
    /// The encoded container would exceed the 65535-byte length header.
    Overflow,
}

/// The mathematical view of a `CompilerError`.
pub enum ErrModel {
    ReadLine(int),
    LackSemiColon(int, Seq<u8>),
    CaseError(int, Seq<u8>),
    UnknownInstruction(int, Seq<u8>),
    NoLoop(int),
    MultipleLoop(int),
    MissingOperand(int, Seq<u8>),
    InvalidOperand(int, Seq<u8>, Seq<u8>),
    MissingStart,
    MissingEnd,
    MissingLoopEnd,
    Overflow,
}

impl View for CompilerError {
    type V = ErrModel;

    open spec fn view(&self) -> ErrModel {
        match self {
            CompilerError::ReadLine(l) => ErrModel::ReadLine(*l as int),
            CompilerError::LackSemiColon(l, t) => ErrModel::LackSemiColon(*l as int, t@),
            CompilerError::CaseError(l, t) => ErrModel::CaseError(*l as int, t@),
            CompilerError::UnknownInstruction(l, t) => ErrModel::UnknownInstruction(
                *l as int,
                t@,
            ),
            CompilerError::NoLoop(l) => ErrModel::NoLoop(*l as int),
            CompilerError::MultipleLoop(l) => ErrModel::MultipleLoop(*l as int),
            CompilerError::MissingOperand(l, m) => ErrModel::MissingOperand(*l as int, m@),
            CompilerError::InvalidOperand(l, m, a) => ErrModel::InvalidOperand(
                *l as int,
                m@,
                a@,
            ),
            CompilerError::MissingStart => ErrModel::MissingStart,
            CompilerError::MissingEnd => ErrModel::MissingEnd,
            CompilerError::MissingLoopEnd => ErrModel::MissingLoopEnd,
            CompilerError::Overflow => ErrModel::Overflow,
        }
    }
}

/// Fatal disassembler errors.
#[derive(Debug, PartialEq, Eq)]
pub enum DecompilerError {
    /// The container is shorter than its header, has odd length, or its
    /// declared length does not match its actual length.
    FileFormat,
    /// An opcode byte is not in the instruction table; carries the byte.
    UnknownInstruction(u8),
}

/// The non-fatal diagnostic: an operand was supplied to an instruction that
/// takes none. Carries the 1-based line and the lower-cased mnemonic.
#[derive(Debug, PartialEq, Eq)]
pub struct Warning {
    pub line: usize,
    pub mnemonic: Vec<u8>,
}

/// The mathematical view of a `Warning`.
pub struct WarningModel {
    pub line: int,
    pub mnemonic: Seq<u8>,
}

impl View for Warning {
    type V = WarningModel;

    open spec fn view(&self) -> WarningModel {
        WarningModel { line: self.line as int, mnemonic: self.mnemonic@ }
    }
}

} // verus!
