//! Failures in words.

use vstd::prelude::*;
use vstd::string::StringExecFns;
use crate::error::{AsmError, AsmErrorView, ErrorKind, Mnemonic};
use crate::number::{digit_char, digits_of, Radix};

verus! {

/// What is said of a mnemonic that came with the wrong number of operands.
pub open spec fn usage(mnemonic: Mnemonic) -> Seq<char> {
    match mnemonic {
        Mnemonic::Addi => "addi expects 3 operands: addi rd, rs1, imm"@,
        Mnemonic::Add => "add expects 3 operands: add rd, rs1, rs2"@,
        Mnemonic::Lw => "lw expects 2 operands: lw rd, off(rs1)"@,
        Mnemonic::Sw => "sw expects 2 operands: sw rs2, off(rs1)"@,
        Mnemonic::Beq => "beq expects 3 operands: beq rs1, rs2, label|imm"@,
        Mnemonic::Jal => "jal expects 1 or 2 operands: jal label  OR  jal rd, label|imm"@,
        Mnemonic::J => "j expects 1 operand: j label"@,
        Mnemonic::Li => "li expects 2 operands: li rd, imm"@,
        Mnemonic::Mv => "mv expects 2 operands: mv rd, rs"@,
        Mnemonic::Ecall => "ecall takes no operands"@,
        Mnemonic::Halt => "halt takes no operands"@,
        Mnemonic::Nop => "nop takes no operands"@,
    }
}

/// What is said of a failure of kind `kind` about `token`, with the
/// decoder's reason `detail`.
pub open spec fn description(kind: ErrorKind, token: Seq<char>, detail: Seq<char>) -> Seq<char> {
    match kind {
        ErrorKind::EmptyRegister => "expected register, got empty token"@,
        ErrorKind::InvalidRegister => "invalid register '"@ + token + "'"@,
        ErrorKind::RegisterOutOfRange => "invalid register '"@ + token + "' (x0..x31)"@,
        ErrorKind::UnknownRegister => "unknown register '"@ + token
            + "' (expected x0..x31 or ABI names like a0/t0)"@,
        ErrorKind::EmptyImmediate => "expected immediate, got empty token"@,
        ErrorKind::InvalidHexImmediate => "invalid hex immediate '"@ + token + "'"@,
        ErrorKind::InvalidImmediate => "invalid immediate '"@ + token + "'"@,
        ErrorKind::ImmediateOutOfRange => "immediate out of range for i32: '"@ + token + "'"@,
        ErrorKind::MemOperandExpected => "expected mem operand like '0(x1)', got '"@ + token
            + "'"@,
        ErrorKind::InvalidMemOperand => "invalid mem operand '"@ + token + "'"@,
        ErrorKind::WordRejected => "invalid RV32 word '"@ + token + "': "@ + detail,
        ErrorKind::WordMismatch => "unsupported raw word '"@ + token
            + "' (decode/encode mismatch)"@,
        ErrorKind::OperandCount { mnemonic } => usage(mnemonic),
        ErrorKind::LiOutOfRange =>
            "li immediate out of range for MVP (-2048..2047). Use 'lui'/'addi' or paste raw words."@,
        ErrorKind::UnknownMnemonic => "unsupported opcode '"@ + token
            + "' (supported: addi, add, lw, sw, beq, jal, j, li, mv, ecall, halt, nop)"@,
        ErrorKind::UnknownLabel => "unknown label '"@ + token + "'"@,
    }
}

/// The failure `e` in words: the word `line`, the number of the line in
/// decimal, a colon, and what is said of the failure.
pub open spec fn message_spec(e: AsmErrorView) -> Seq<char> {
    "line "@ + digits_of(e.line_no as nat, Radix::Decimal, false) + ": "@ + description(e.kind, e.token, e.detail)
}

/// Appends the decimal digits of `n` to `out`.
pub fn push_decimal(out: &mut String, n: usize)
    ensures
        final(out)@ == old(out)@ + digits_of(n as nat, Radix::Decimal, false),
    decreases n,
{
    let ghost before = out@;
    if n >= 10 {
        push_decimal(out, n / 10);
    }
    let d: u8 = (n % 10) as u8;
    out.push((48 + d) as char);
    proof {
        assert(((48 + d) as char) == digit_char(d as int, false));
        assert(out@ =~= before + digits_of(n as nat, Radix::Decimal, false));
    }
}

/// What is said of a mnemonic that came with the wrong number of operands.
pub fn usage_of(mnemonic: Mnemonic) -> (r: &'static str)
    ensures
        r@ == usage(mnemonic),
{
    match mnemonic {
        Mnemonic::Addi => "addi expects 3 operands: addi rd, rs1, imm",
        Mnemonic::Add => "add expects 3 operands: add rd, rs1, rs2",
        Mnemonic::Lw => "lw expects 2 operands: lw rd, off(rs1)",
        Mnemonic::Sw => "sw expects 2 operands: sw rs2, off(rs1)",
        Mnemonic::Beq => "beq expects 3 operands: beq rs1, rs2, label|imm",
        Mnemonic::Jal => "jal expects 1 or 2 operands: jal label  OR  jal rd, label|imm",
        Mnemonic::J => "j expects 1 operand: j label",
        Mnemonic::Li => "li expects 2 operands: li rd, imm",
        Mnemonic::Mv => "mv expects 2 operands: mv rd, rs",
        Mnemonic::Ecall => "ecall takes no operands",
        Mnemonic::Halt => "halt takes no operands",
        Mnemonic::Nop => "nop takes no operands",
    }
}

/// Appends `before`, `token` and `after` to `out`.
fn push_about(out: &mut String, before: &str, token: &str, after: &str)
    ensures
        final(out)@ == old(out)@ + (before@ + token@ + after@),
{
    let ghost start = out@;
    out.append(before);
    out.append(token);
    out.append(after);
    proof {
        assert(out@ =~= start + (before@ + token@ + after@));
    }
}

impl AsmError {
    /// The failure in words, beginning with the number of its line.
    pub fn message(&self) -> (s: String)
        ensures
            s@ == message_spec(self@),
    {
        let mut s = String::from_str("line ");
        push_decimal(&mut s, self.line_no);
        s.append(": ");
        let ghost head = s@;
        let token = self.token.as_str();
        match self.kind {
            ErrorKind::EmptyRegister => s.append("expected register, got empty token"),
            ErrorKind::InvalidRegister => push_about(&mut s, "invalid register '", token, "'"),
            ErrorKind::RegisterOutOfRange => push_about(
                &mut s,
                "invalid register '",
                token,
                "' (x0..x31)",
            ),
            ErrorKind::UnknownRegister => push_about(
                &mut s,
                "unknown register '",
                token,
                "' (expected x0..x31 or ABI names like a0/t0)",
            ),
            ErrorKind::EmptyImmediate => s.append("expected immediate, got empty token"),
            ErrorKind::InvalidHexImmediate => push_about(
                &mut s,
                "invalid hex immediate '",
                token,
                "'",
            ),
            ErrorKind::InvalidImmediate => push_about(&mut s, "invalid immediate '", token, "'"),
            ErrorKind::ImmediateOutOfRange => push_about(
                &mut s,
                "immediate out of range for i32: '",
                token,
                "'",
            ),
            ErrorKind::MemOperandExpected => push_about(
                &mut s,
                "expected mem operand like '0(x1)', got '",
                token,
                "'",
            ),
            ErrorKind::InvalidMemOperand => push_about(&mut s, "invalid mem operand '", token, "'"),
            ErrorKind::WordRejected => {
                push_about(&mut s, "invalid RV32 word '", token, "': ");
                s.append(self.detail.as_str());
                proof {
                    assert(s@ =~= head + description(self.kind, self.token@, self.detail@));
                }
            },
            ErrorKind::WordMismatch => push_about(
                &mut s,
                "unsupported raw word '",
                token,
                "' (decode/encode mismatch)",
            ),
            ErrorKind::OperandCount { mnemonic } => s.append(usage_of(mnemonic)),
            ErrorKind::LiOutOfRange => s.append(
                "li immediate out of range for MVP (-2048..2047). Use 'lui'/'addi' or paste raw words.",
            ),
            ErrorKind::UnknownMnemonic => push_about(
                &mut s,
                "unsupported opcode '",
                token,
                "' (supported: addi, add, lw, sw, beq, jal, j, li, mv, ecall, halt, nop)",
            ),
            ErrorKind::UnknownLabel => push_about(&mut s, "unknown label '", token, "'"),
        }
        s
    }
}

} // verus!
