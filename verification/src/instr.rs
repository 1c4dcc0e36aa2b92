//! Instructions, and the entries of a program that is still being read.

use vstd::prelude::*;

verus! {

/// The arithmetic operations that the dialect can name.
#[derive(Clone, Copy, Debug, PartialEq, Eq, Structural)]
pub enum AluOp {
    Add,
}

/// The memory accesses that the dialect can name.
#[derive(Clone, Copy, Debug, PartialEq, Eq, Structural)]
pub enum MemOp {
    Lw,
    Sw,
}

/// The branch conditions that the dialect can name.
#[derive(Clone, Copy, Debug, PartialEq, Eq, Structural)]
pub enum BranchCondition {
    Eq,
}

/// One instruction, ready to be encoded.  Registers are numbered 0 to 31;
/// an immediate is a signed 32-bit value.
#[derive(Clone, Copy, Debug, PartialEq, Eq, Structural)]
#[allow(inconsistent_fields)]
pub enum Instruction {
    /// `rd = rs1 op imm`
    IAlu { op: AluOp, rd: u8, rs1: u8, imm: i32 },
    /// `rd = rs1 op rs2`
    RAlu { op: AluOp, rd: u8, rs1: u8, rs2: u8 },
    /// `rd = memory[rs1 + imm]`
    Load { op: MemOp, rd: u8, rs1: u8, imm: i32 },
    /// `memory[rs1 + imm] = rs2`
    Store { op: MemOp, rs1: u8, rs2: u8, imm: i32 },
    /// Jump by `imm` bytes where `cond` holds of `rs1` and `rs2`.
    Branch { cond: BranchCondition, rs1: u8, rs2: u8, imm: i32 },
    /// Jump by `imm` bytes and leave the return address in `rd`.
    Jal { rd: u8, imm: i32 },
    /// Stop the machine.
    Halt,
    /// Do nothing.
    Nop,
    /// The instruction that the machine word `word` encodes: one that the
    /// decoder accepted and that encodes back to the very same word.
    Word { word: u32 },
}

/// An entry of the program after the first pass: an instruction, or a
/// branch or jump whose target is still a label.
#[derive(Clone, Debug, PartialEq, Eq)]
pub enum PendingInstr {
    Resolved(Instruction),
    Beq { rs1: u8, rs2: u8, target: String },
    Jal { rd: u8, target: String },
}

/// What a `PendingInstr` holds, with the label as a sequence of characters.
pub enum PendingInstrView {
    Resolved(Instruction),
    Beq { rs1: u8, rs2: u8, target: Seq<char> },
    Jal { rd: u8, target: Seq<char> },
}

impl View for PendingInstr {
    type V = PendingInstrView;

    open spec fn view(&self) -> PendingInstrView {
        match *self {
            PendingInstr::Resolved(instr) => PendingInstrView::Resolved(instr),
            PendingInstr::Beq { rs1, rs2, target } => PendingInstrView::Beq {
                rs1,
                rs2,
                target: target@,
            },
            PendingInstr::Jal { rd, target } => PendingInstrView::Jal { rd, target: target@ },
        }
    }
}

/// A program entry together with the 1-based number of the line it came
/// from.
#[derive(Clone, Debug, PartialEq, Eq)]
pub struct PendingLine {
    pub line_no: usize,
    pub instr: PendingInstr,
}

/// What a `PendingLine` holds.
pub struct PendingLineView {
    pub line_no: usize,
    pub instr: PendingInstrView,
}

impl View for PendingLine {
    type V = PendingLineView;

    open spec fn view(&self) -> PendingLineView {
        PendingLineView { line_no: self.line_no, instr: self.instr@ }
    }
}

/// The entries of a program, each by its view.
pub open spec fn pending_view(entries: Seq<PendingLine>) -> Seq<PendingLineView> {
    Seq::new(entries.len(), |i: int| entries[i]@)
}

/// Whether the registers of the entry `p` are all at most 31.
pub open spec fn registers_valid(p: PendingInstrView) -> bool {
    match p {
        PendingInstrView::Resolved(Instruction::IAlu { rd, rs1, .. }) => rd <= 31 && rs1 <= 31,
        PendingInstrView::Resolved(Instruction::RAlu { rd, rs1, rs2, .. }) => rd <= 31 && rs1 <= 31
            && rs2 <= 31,
        PendingInstrView::Resolved(Instruction::Load { rd, rs1, .. }) => rd <= 31 && rs1 <= 31,
        PendingInstrView::Resolved(Instruction::Store { rs1, rs2, .. }) => rs1 <= 31 && rs2 <= 31,
        PendingInstrView::Resolved(Instruction::Branch { rs1, rs2, .. }) => rs1 <= 31 && rs2 <= 31,
        PendingInstrView::Resolved(Instruction::Jal { rd, .. }) => rd <= 31,
        PendingInstrView::Resolved(_) => true,
        PendingInstrView::Beq { rs1, rs2, .. } => rs1 <= 31 && rs2 <= 31,
        PendingInstrView::Jal { rd, .. } => rd <= 31,
    }
}

/// Whether the registers of every entry of `pending` are all at most 31.
pub open spec fn all_registers_valid(pending: Seq<PendingLineView>) -> bool {
    forall|i: int| 0 <= i < pending.len() ==> registers_valid((#[trigger] pending[i]).instr)
}

/// Whether the registers of `instr` are all at most 31.
pub open spec fn instruction_valid(instr: Instruction) -> bool {
    registers_valid(PendingInstrView::Resolved(instr))
}

} // verus!
