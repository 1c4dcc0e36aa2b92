//! What can be wrong with a source text.

use vstd::prelude::*;

verus! {

/// The mnemonics of the dialect.
#[derive(Clone, Copy, Debug, PartialEq, Eq, Structural)]
pub enum Mnemonic {
    Addi,
    Add,
    Lw,
    Sw,
    Beq,
    Jal,
    J,
    Li,
    Mv,
    Ecall,
    Halt,
    Nop,
}

/// The nature of a failure.
#[derive(Clone, Copy, Debug, PartialEq, Eq, Structural)]
pub enum ErrorKind {
    /// A register was expected and the token is empty.
    EmptyRegister,
    /// The token begins with `x` and what follows is not made of decimal
    /// digits, at least one.
    InvalidRegister,
    /// The token is `x` and a number above 31.
    RegisterOutOfRange,
    /// The token is neither `x` and a number nor an ABI name.
    UnknownRegister,
    /// An immediate was expected and the token is empty.
    EmptyImmediate,
    /// The token begins with `0x` and what follows is not made of
    /// hexadecimal digits, or is a number too large for 64 bits with a
    /// sign.
    InvalidHexImmediate,
    /// The token is not made of decimal digits behind its one optional
    /// `-`, or is a number too large for 64 bits with a sign.
    InvalidImmediate,
    /// The immediate does not fit in 32 bits.
    ImmediateOutOfRange,
    /// A memory operand lacks a parenthesis.
    MemOperandExpected,
    /// The parentheses of a memory operand are in the wrong order.
    InvalidMemOperand,
    /// The decoder refused a raw machine word.
    WordRejected,
    /// A raw machine word decodes to an instruction that does not encode
    /// back to it.
    WordMismatch,
    /// The mnemonic came with the wrong number of operands.
    OperandCount { mnemonic: Mnemonic },
    /// The immediate of `li` lies outside -2048..=2047.
    LiOutOfRange,
    /// The first word of the line is no mnemonic of the dialect.
    UnknownMnemonic,
    /// A branch or jump names a label that the text does not define.
    UnknownLabel,
}

/// A failure: the 1-based number of the line, its nature, the text at
/// fault, and for a rejected machine word the decoder's reason.
#[derive(Clone, Debug, PartialEq, Eq)]
pub struct AsmError {
    pub line_no: usize,
    pub kind: ErrorKind,
    pub token: String,
    pub detail: String,
}

/// What an `AsmError` holds, with its texts as sequences of characters.
pub struct AsmErrorView {
    pub line_no: usize,
    pub kind: ErrorKind,
    pub token: Seq<char>,
    pub detail: Seq<char>,
}

impl View for AsmError {
    type V = AsmErrorView;

    open spec fn view(&self) -> AsmErrorView {
        AsmErrorView {
            line_no: self.line_no,
            kind: self.kind,
            token: self.token@,
            detail: self.detail@,
        }
    }
}

/// The failure of kind `kind` on line `line_no` about the text `token`.
pub open spec fn fault(line_no: usize, kind: ErrorKind, token: Seq<char>) -> AsmErrorView {
    AsmErrorView { line_no, kind, token, detail: Seq::empty() }
}

impl AsmError {
    /// The failure of kind `kind` on line `line_no` about the text `token`.
    pub fn new(line_no: usize, kind: ErrorKind, token: String) -> (e: AsmError)
        ensures
            e@ == fault(line_no, kind, token@),
    {
        AsmError { line_no, kind, token, detail: String::new() }
    }
}

/// A result whose failure is taken by its view.
pub open spec fn result_view<T>(r: Result<T, AsmError>) -> Result<T, AsmErrorView> {
    match r {
        Ok(v) => Ok(v),
        Err(e) => Err(e@),
    }
}

} // verus!
