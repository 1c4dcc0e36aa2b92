//! The first pass over one line: its label, and the instruction, the raw
//! machine word or the nothing that follows.

use vstd::prelude::*;
use vstd::slice::slice_subrange;
use crate::chars::{
    find_first, find_word_end, first_index, lower, lower_chars, squeeze, squeeze_chars,
    texts_at, trim, trim_chars, word_len,
};
use crate::error::{fault, AsmError, AsmErrorView, ErrorKind, Mnemonic};
use crate::instr::{
    all_registers_valid, pending_view, registers_valid, AluOp, BranchCondition, Instruction,
    MemOp, PendingInstr, PendingInstrView, PendingLine, PendingLineView,
};
use crate::labels::LabelTable;
use crate::text::{chars_of, same_text, string_of};
use crate::token::{
    find_comment, imm_of, mem_operand_of, operand_ranges, operands, parse_i32_spec,
    parse_mem_operand_spec, parse_reg_spec, parse_u32_word_spec, reg_of, strip_comment_spec,
    word_of,
};

verus! {

/// The mnemonic that the lower-case word `op` spells.
pub open spec fn mnemonic_of(op: Seq<char>) -> Option<Mnemonic> {
    if op == "addi"@ {
        Some(Mnemonic::Addi)
    } else if op == "add"@ {
        Some(Mnemonic::Add)
    } else if op == "lw"@ {
        Some(Mnemonic::Lw)
    } else if op == "sw"@ {
        Some(Mnemonic::Sw)
    } else if op == "beq"@ {
        Some(Mnemonic::Beq)
    } else if op == "jal"@ {
        Some(Mnemonic::Jal)
    } else if op == "j"@ {
        Some(Mnemonic::J)
    } else if op == "li"@ {
        Some(Mnemonic::Li)
    } else if op == "mv"@ {
        Some(Mnemonic::Mv)
    } else if op == "ecall"@ {
        Some(Mnemonic::Ecall)
    } else if op == "halt"@ {
        Some(Mnemonic::Halt)
    } else if op == "nop"@ {
        Some(Mnemonic::Nop)
    } else {
        None
    }
}

/// Whether `mnemonic` takes `n` operands.
pub open spec fn takes_operands(mnemonic: Mnemonic, n: nat) -> bool {
    match mnemonic {
        Mnemonic::Addi | Mnemonic::Add | Mnemonic::Beq => n == 3,
        Mnemonic::Lw | Mnemonic::Sw | Mnemonic::Li | Mnemonic::Mv => n == 2,
        Mnemonic::Jal => n == 1 || n == 2,
        Mnemonic::J => n == 1,
        Mnemonic::Ecall | Mnemonic::Halt | Mnemonic::Nop => n == 0,
    }
}

/// The branch on equality of `rs1` and `rs2` to `target`: resolved where
/// `target` reads as an immediate, else pending on the label `target`.
pub open spec fn branch_to(rs1: u8, rs2: u8, target: Seq<char>, line_no: usize) -> PendingInstrView {
    match parse_i32_spec(target, line_no) {
        Ok(imm) => PendingInstrView::Resolved(
            Instruction::Branch { cond: BranchCondition::Eq, rs1, rs2, imm },
        ),
        Err(_) => PendingInstrView::Beq { rs1, rs2, target },
    }
}

/// The jump to `target` that links in `rd`: resolved where `target` reads
/// as an immediate, else pending on the label `target`.
pub open spec fn jump_to(rd: u8, target: Seq<char>, line_no: usize) -> PendingInstrView {
    match parse_i32_spec(target, line_no) {
        Ok(imm) => PendingInstrView::Resolved(Instruction::Jal { rd, imm }),
        Err(_) => PendingInstrView::Jal { rd, target },
    }
}

/// The program entry that `mnemonic` makes of the operands `args`, which
/// are as many as it takes.  The operands are read from left to right and
/// the first that fails decides the failure.
pub open spec fn entry_of(mnemonic: Mnemonic, args: Seq<Seq<char>>, line_no: usize) -> Result<
    PendingInstrView,
    AsmErrorView,
>
    recommends
        takes_operands(mnemonic, args.len()),
{
    match mnemonic {
        Mnemonic::Addi => match parse_reg_spec(args[0], line_no) {
            Err(e) => Err(e),
            Ok(rd) => match parse_reg_spec(args[1], line_no) {
                Err(e) => Err(e),
                Ok(rs1) => match parse_i32_spec(args[2], line_no) {
                    Err(e) => Err(e),
                    Ok(imm) => Ok(
                        PendingInstrView::Resolved(
                            Instruction::IAlu { op: AluOp::Add, rd, rs1, imm },
                        ),
                    ),
                },
            },
        },
        Mnemonic::Add => match parse_reg_spec(args[0], line_no) {
            Err(e) => Err(e),
            Ok(rd) => match parse_reg_spec(args[1], line_no) {
                Err(e) => Err(e),
                Ok(rs1) => match parse_reg_spec(args[2], line_no) {
                    Err(e) => Err(e),
                    Ok(rs2) => Ok(
                        PendingInstrView::Resolved(
                            Instruction::RAlu { op: AluOp::Add, rd, rs1, rs2 },
                        ),
                    ),
                },
            },
        },
        Mnemonic::Lw => match parse_reg_spec(args[0], line_no) {
            Err(e) => Err(e),
            Ok(rd) => match parse_mem_operand_spec(args[1], line_no) {
                Err(e) => Err(e),
                Ok(mem) => Ok(
                    PendingInstrView::Resolved(
                        Instruction::Load { op: MemOp::Lw, rd, rs1: mem.1, imm: mem.0 },
                    ),
                ),
            },
        },
        Mnemonic::Sw => match parse_reg_spec(args[0], line_no) {
            Err(e) => Err(e),
            Ok(rs2) => match parse_mem_operand_spec(args[1], line_no) {
                Err(e) => Err(e),
                Ok(mem) => Ok(
                    PendingInstrView::Resolved(
                        Instruction::Store { op: MemOp::Sw, rs1: mem.1, rs2, imm: mem.0 },
                    ),
                ),
            },
        },
        Mnemonic::Beq => match parse_reg_spec(args[0], line_no) {
            Err(e) => Err(e),
            Ok(rs1) => match parse_reg_spec(args[1], line_no) {
                Err(e) => Err(e),
                Ok(rs2) => Ok(branch_to(rs1, rs2, args[2], line_no)),
            },
        },
        Mnemonic::Jal => if args.len() == 1 {
            Ok(PendingInstrView::Jal { rd: 1, target: args[0] })
        } else {
            match parse_reg_spec(args[0], line_no) {
                Err(e) => Err(e),
                Ok(rd) => Ok(jump_to(rd, args[1], line_no)),
            }
        },
        Mnemonic::J => Ok(PendingInstrView::Jal { rd: 0, target: args[0] }),
        Mnemonic::Li => match parse_reg_spec(args[0], line_no) {
            Err(e) => Err(e),
            Ok(rd) => match parse_i32_spec(args[1], line_no) {
                Err(e) => Err(e),
                Ok(imm) => if -2048 <= imm <= 2047 {
                    Ok(
                        PendingInstrView::Resolved(
                            Instruction::IAlu { op: AluOp::Add, rd, rs1: 0, imm },
                        ),
                    )
                } else {
                    Err(fault(line_no, ErrorKind::LiOutOfRange, args[1]))
                },
            },
        },
        Mnemonic::Mv => match parse_reg_spec(args[0], line_no) {
            Err(e) => Err(e),
            Ok(rd) => match parse_reg_spec(args[1], line_no) {
                Err(e) => Err(e),
                Ok(rs) => Ok(
                    PendingInstrView::Resolved(
                        Instruction::IAlu { op: AluOp::Add, rd, rs1: rs, imm: 0 },
                    ),
                ),
            },
        },
        Mnemonic::Ecall | Mnemonic::Halt => Ok(PendingInstrView::Resolved(Instruction::Halt)),
        Mnemonic::Nop => Ok(PendingInstrView::Resolved(Instruction::Nop)),
    }
}

/// The first word of the statement `stmt`, in lower case.
pub open spec fn opcode_text(stmt: Seq<char>) -> Seq<char> {
    lower(stmt.take(word_len(stmt)))
}

/// The operands of the statement `stmt`: what follows its first word, with
/// every run of white space taken as one blank, cut at the commas.
pub open spec fn operand_texts(stmt: Seq<char>) -> Seq<Seq<char>> {
    operands(squeeze(stmt.skip(word_len(stmt))))
}

/// The program entry that the instruction `stmt` stands for.  An unknown
/// mnemonic or a wrong number of operands fails before any operand is
/// read; either failure carries the mnemonic as it was looked up.
pub open spec fn parse_instruction_spec(stmt: Seq<char>, line_no: usize) -> Result<
    PendingInstrView,
    AsmErrorView,
> {
    let op = opcode_text(stmt);
    let args = operand_texts(stmt);
    match mnemonic_of(op) {
        None => Err(fault(line_no, ErrorKind::UnknownMnemonic, op)),
        Some(mnemonic) => if takes_operands(mnemonic, args.len()) {
            entry_of(mnemonic, args, line_no)
        } else {
            Err(fault(line_no, ErrorKind::OperandCount { mnemonic }, op))
        },
    }
}

/// A program entry or a failure, each by its view.
pub open spec fn entry_view(r: Result<PendingInstr, AsmError>) -> Result<
    PendingInstrView,
    AsmErrorView,
> {
    match r {
        Ok(p) => Ok(p@),
        Err(e) => Err(e@),
    }
}

/// The mnemonic that the lower-case word `op` spells.
pub fn parse_mnemonic(op: &[char]) -> (r: Option<Mnemonic>)
    ensures
        r == mnemonic_of(op@),
{
    if same_text(op, "addi") {
        Some(Mnemonic::Addi)
    } else if same_text(op, "add") {
        Some(Mnemonic::Add)
    } else if same_text(op, "lw") {
        Some(Mnemonic::Lw)
    } else if same_text(op, "sw") {
        Some(Mnemonic::Sw)
    } else if same_text(op, "beq") {
        Some(Mnemonic::Beq)
    } else if same_text(op, "jal") {
        Some(Mnemonic::Jal)
    } else if same_text(op, "j") {
        Some(Mnemonic::J)
    } else if same_text(op, "li") {
        Some(Mnemonic::Li)
    } else if same_text(op, "mv") {
        Some(Mnemonic::Mv)
    } else if same_text(op, "ecall") {
        Some(Mnemonic::Ecall)
    } else if same_text(op, "halt") {
        Some(Mnemonic::Halt)
    } else if same_text(op, "nop") {
        Some(Mnemonic::Nop)
    } else {
        None
    }
}

/// Whether `mnemonic` takes `n` operands.
pub fn operand_count_fits(mnemonic: Mnemonic, n: usize) -> (r: bool)
    ensures
        r == takes_operands(mnemonic, n as nat),
{
    match mnemonic {
        Mnemonic::Addi | Mnemonic::Add | Mnemonic::Beq => n == 3,
        Mnemonic::Lw | Mnemonic::Sw | Mnemonic::Li | Mnemonic::Mv => n == 2,
        Mnemonic::Jal => n == 1 || n == 2,
        Mnemonic::J => n == 1,
        Mnemonic::Ecall | Mnemonic::Halt | Mnemonic::Nop => n == 0,
    }
}

/// The branch on equality of `rs1` and `rs2` to `target`.
fn make_branch(rs1: u8, rs2: u8, target: &[char], line_no: usize) -> (p: PendingInstr)
    ensures
        p@ == branch_to(rs1, rs2, target@, line_no),
{
    match imm_of(target, line_no) {
        Ok(imm) => PendingInstr::Resolved(
            Instruction::Branch { cond: BranchCondition::Eq, rs1, rs2, imm },
        ),
        Err(_) => PendingInstr::Beq { rs1, rs2, target: string_of(target) },
    }
}

/// The jump to `target` that links in `rd`.
fn make_jump(rd: u8, target: &[char], line_no: usize) -> (p: PendingInstr)
    ensures
        p@ == jump_to(rd, target@, line_no),
{
    match imm_of(target, line_no) {
        Ok(imm) => PendingInstr::Resolved(Instruction::Jal { rd, imm }),
        Err(_) => PendingInstr::Jal { rd, target: string_of(target) },
    }
}

/// The program entry that `mnemonic` makes of the operands that `ranges`
/// mark in `text`.
fn build_entry(
    mnemonic: Mnemonic,
    text: &[char],
    ranges: &Vec<(usize, usize)>,
    line_no: usize,
) -> (r: Result<PendingInstr, AsmError>)
    requires
        forall|k: int|
            0 <= k < ranges@.len() ==> (#[trigger] ranges@[k]).0 <= ranges@[k].1 <= text@.len(),
        takes_operands(mnemonic, ranges@.len()),
    ensures
        entry_view(r) == entry_of(mnemonic, texts_at(ranges@, text@), line_no),
        r matches Ok(p) ==> registers_valid(p@),
{
    let ghost args = texts_at(ranges@, text@);
    match mnemonic {
        Mnemonic::Addi => {
            let rd = reg_of(slice_subrange(text, ranges[0].0, ranges[0].1), line_no)?;
            let rs1 = reg_of(slice_subrange(text, ranges[1].0, ranges[1].1), line_no)?;
            let imm = imm_of(slice_subrange(text, ranges[2].0, ranges[2].1), line_no)?;
            Ok(PendingInstr::Resolved(Instruction::IAlu { op: AluOp::Add, rd, rs1, imm }))
        },
        Mnemonic::Add => {
            let rd = reg_of(slice_subrange(text, ranges[0].0, ranges[0].1), line_no)?;
            let rs1 = reg_of(slice_subrange(text, ranges[1].0, ranges[1].1), line_no)?;
            let rs2 = reg_of(slice_subrange(text, ranges[2].0, ranges[2].1), line_no)?;
            Ok(PendingInstr::Resolved(Instruction::RAlu { op: AluOp::Add, rd, rs1, rs2 }))
        },
        Mnemonic::Lw => {
            let rd = reg_of(slice_subrange(text, ranges[0].0, ranges[0].1), line_no)?;
            let mem = mem_operand_of(slice_subrange(text, ranges[1].0, ranges[1].1), line_no)?;
            Ok(
                PendingInstr::Resolved(
                    Instruction::Load { op: MemOp::Lw, rd, rs1: mem.1, imm: mem.0 },
                ),
            )
        },
        Mnemonic::Sw => {
            let rs2 = reg_of(slice_subrange(text, ranges[0].0, ranges[0].1), line_no)?;
            let mem = mem_operand_of(slice_subrange(text, ranges[1].0, ranges[1].1), line_no)?;
            Ok(
                PendingInstr::Resolved(
                    Instruction::Store { op: MemOp::Sw, rs1: mem.1, rs2, imm: mem.0 },
                ),
            )
        },
        Mnemonic::Beq => {
            let rs1 = reg_of(slice_subrange(text, ranges[0].0, ranges[0].1), line_no)?;
            let rs2 = reg_of(slice_subrange(text, ranges[1].0, ranges[1].1), line_no)?;
            Ok(make_branch(rs1, rs2, slice_subrange(text, ranges[2].0, ranges[2].1), line_no))
        },
        Mnemonic::Jal => {
            if ranges.len() == 1 {
                let target = string_of(slice_subrange(text, ranges[0].0, ranges[0].1));
                Ok(PendingInstr::Jal { rd: 1, target })
            } else {
                let rd = reg_of(slice_subrange(text, ranges[0].0, ranges[0].1), line_no)?;
                Ok(make_jump(rd, slice_subrange(text, ranges[1].0, ranges[1].1), line_no))
            }
        },
        Mnemonic::J => {
            let target = string_of(slice_subrange(text, ranges[0].0, ranges[0].1));
            Ok(PendingInstr::Jal { rd: 0, target })
        },
        Mnemonic::Li => {
            let rd = reg_of(slice_subrange(text, ranges[0].0, ranges[0].1), line_no)?;
            let token = slice_subrange(text, ranges[1].0, ranges[1].1);
            let imm = imm_of(token, line_no)?;
            if imm < -2048 || imm > 2047 {
                return Err(AsmError::new(line_no, ErrorKind::LiOutOfRange, string_of(token)));
            }
            Ok(PendingInstr::Resolved(Instruction::IAlu { op: AluOp::Add, rd, rs1: 0, imm }))
        },
        Mnemonic::Mv => {
            let rd = reg_of(slice_subrange(text, ranges[0].0, ranges[0].1), line_no)?;
            let rs = reg_of(slice_subrange(text, ranges[1].0, ranges[1].1), line_no)?;
            Ok(PendingInstr::Resolved(Instruction::IAlu { op: AluOp::Add, rd, rs1: rs, imm: 0 }))
        },
        Mnemonic::Ecall | Mnemonic::Halt => Ok(PendingInstr::Resolved(Instruction::Halt)),
        Mnemonic::Nop => Ok(PendingInstr::Resolved(Instruction::Nop)),
    }
}

/// The program entry that the instruction in the characters `stmt` stands
/// for.
pub fn parse_instruction(stmt: &[char], line_no: usize) -> (r: Result<PendingInstr, AsmError>)
    ensures
        entry_view(r) == parse_instruction_spec(stmt@, line_no),
        r matches Ok(p) ==> registers_valid(p@),
{
    let n = find_word_end(stmt);
    proof {
        assert(stmt@.subrange(0, n as int) =~= stmt@.take(n as int));
        assert(stmt@.subrange(n as int, stmt@.len() as int) =~= stmt@.skip(n as int));
    }
    let op = lower_chars(slice_subrange(stmt, 0, n));
    let text = squeeze_chars(slice_subrange(stmt, n, stmt.len()));
    let ranges = operand_ranges(text.as_slice());
    match parse_mnemonic(op.as_slice()) {
        None => Err(AsmError::new(line_no, ErrorKind::UnknownMnemonic, string_of(op.as_slice()))),
        Some(mnemonic) => {
            if operand_count_fits(mnemonic, ranges.len()) {
                build_entry(mnemonic, text.as_slice(), &ranges, line_no)
            } else {
                Err(
                    AsmError::new(
                        line_no,
                        ErrorKind::OperandCount { mnemonic },
                        string_of(op.as_slice()),
                    ),
                )
            }
        },
    }
}

/// What a statement asks of the assembler.
#[derive(Clone, Debug, PartialEq, Eq)]
pub enum Statement {
    /// Nothing: the statement is empty.
    Nothing,
    /// A raw machine word, written as `text`, that the decoder has to see.
    RawWord { word: u32, text: String },
    /// One more entry of the program.
    Entry(PendingInstr),
}

/// What a `Statement` holds, with its texts as sequences of characters.
pub enum StatementView {
    Nothing,
    RawWord { word: u32, text: Seq<char> },
    Entry(PendingInstrView),
}

impl View for Statement {
    type V = StatementView;

    open spec fn view(&self) -> StatementView {
        match *self {
            Statement::Nothing => StatementView::Nothing,
            Statement::RawWord { word, text } => StatementView::RawWord { word, text: text@ },
            Statement::Entry(p) => StatementView::Entry(p@),
        }
    }
}

/// A statement or a failure, each by its view.
pub open spec fn statement_view(r: Result<Statement, AsmError>) -> Result<
    StatementView,
    AsmErrorView,
> {
    match r {
        Ok(s) => Ok(s@),
        Err(e) => Err(e@),
    }
}

/// What the statement `stmt` asks for: nothing where it is empty, the
/// decoding of a machine word where it is one number of 32 bits, else
/// the entry that it stands for as an instruction.
pub open spec fn parse_statement_spec(stmt: Seq<char>, line_no: usize) -> Result<
    StatementView,
    AsmErrorView,
> {
    if stmt.len() == 0 {
        Ok(StatementView::Nothing)
    } else {
        match parse_u32_word_spec(stmt) {
            Some(word) => Ok(StatementView::RawWord { word, text: stmt }),
            None => match parse_instruction_spec(stmt, line_no) {
                Ok(p) => Ok(StatementView::Entry(p)),
                Err(e) => Err(e),
            },
        }
    }
}

/// What the statement in the characters `stmt` asks for.
pub fn parse_statement(stmt: &[char], line_no: usize) -> (r: Result<Statement, AsmError>)
    ensures
        statement_view(r) == parse_statement_spec(stmt@, line_no),
        r matches Ok(Statement::Entry(p)) ==> registers_valid(p@),
{
    if stmt.len() == 0 {
        return Ok(Statement::Nothing);
    }
    match word_of(stmt) {
        Some(word) => Ok(Statement::RawWord { word, text: string_of(stmt) }),
        None => match parse_instruction(stmt, line_no) {
            Ok(p) => Ok(Statement::Entry(p)),
            Err(e) => Err(e),
        },
    }
}

/// The line `line` without its comment and without the white space around
/// what is left.
pub open spec fn line_text(line: Seq<char>) -> Seq<char> {
    trim(strip_comment_spec(line))
}

/// Whether the line text `raw` is passed over: it is empty, or a directive,
/// which begins with a full stop.
pub open spec fn is_passed_over(raw: Seq<char>) -> bool {
    raw.len() == 0 || raw[0] == '.'
}

/// Whether the line text `raw` holds a colon, and so a label before it.
pub open spec fn has_label(raw: Seq<char>) -> bool {
    first_index(raw, ':') < raw.len()
}

/// The name of the label of `raw`: what stands before its first colon,
/// trimmed.
pub open spec fn label_name(raw: Seq<char>) -> Seq<char> {
    trim(raw.take(first_index(raw, ':')))
}

/// The statement of `raw`: what follows its first colon, trimmed, or the
/// whole of it where it has no colon.
pub open spec fn statement_text(raw: Seq<char>) -> Seq<char> {
    if has_label(raw) {
        trim(raw.skip(first_index(raw, ':') + 1))
    } else {
        raw
    }
}

/// The label that `line` defines, if it defines one: a line that is not
/// passed over, with a colon and a name before it that is not empty.
pub open spec fn defined_label(line: Seq<char>) -> Option<Seq<char>> {
    let raw = line_text(line);
    if !is_passed_over(raw) && has_label(raw) && label_name(raw).len() > 0 {
        Some(label_name(raw))
    } else {
        None
    }
}

/// What `line` asks for behind its label.
pub open spec fn parse_line_spec(line: Seq<char>, line_no: usize) -> Result<
    StatementView,
    AsmErrorView,
> {
    let raw = line_text(line);
    if is_passed_over(raw) {
        Ok(StatementView::Nothing)
    } else {
        parse_statement_spec(statement_text(raw), line_no)
    }
}

/// The table `labels` after a line that defines `label`, read when the
/// program holds `next` entries.
pub open spec fn labels_after(
    labels: Map<Seq<char>, usize>,
    label: Option<Seq<char>>,
    next: usize,
) -> Map<Seq<char>, usize> {
    match label {
        Some(name) => labels.insert(name, next),
        None => labels,
    }
}

/// The program `pending` after a line that asks for `statement`.
pub open spec fn pending_after(
    pending: Seq<PendingLineView>,
    statement: Result<StatementView, AsmErrorView>,
    line_no: usize,
) -> Seq<PendingLineView> {
    match statement {
        Ok(StatementView::Entry(instr)) => pending.push(PendingLineView { line_no, instr }),
        _ => pending,
    }
}

/// What is left for the caller to do after a line was read.
#[derive(Clone, Debug, PartialEq, Eq)]
pub enum LineStep {
    /// Nothing: the line is dealt with.
    Done,
    /// The line holds the raw machine word `word`, written as `text`.  The
    /// caller has it decoded and encoded again, hands what came of that to
    /// `accept_raw_word`, and appends the instruction that it gets as a
    /// resolved entry.
    RawWord { word: u32, text: String },
}

/// What a `LineStep` holds, with its text as a sequence of characters.
pub enum LineStepView {
    Done,
    RawWord { word: u32, text: Seq<char> },
}

impl View for LineStep {
    type V = LineStepView;

    open spec fn view(&self) -> LineStepView {
        match *self {
            LineStep::Done => LineStepView::Done,
            LineStep::RawWord { word, text } => LineStepView::RawWord { word, text: text@ },
        }
    }
}

/// A step or a failure, each by its view.
pub open spec fn step_view(r: Result<LineStep, AsmError>) -> Result<LineStepView, AsmErrorView> {
    match r {
        Ok(s) => Ok(s@),
        Err(e) => Err(e@),
    }
}

/// What is left to do after a line that asked for `statement`.
pub open spec fn step_after(statement: Result<StatementView, AsmErrorView>) -> Result<
    LineStepView,
    AsmErrorView,
> {
    match statement {
        Ok(StatementView::RawWord { word, text }) => Ok(LineStepView::RawWord { word, text }),
        Ok(_) => Ok(LineStepView::Done),
        Err(e) => Err(e),
    }
}

/// Reads one line in the first pass.  The label of the line, if it has
/// one, is bound to the index of the next entry, whatever follows it on the
/// line.  An instruction is appended to `out`; for a raw machine word the
/// caller is told to have it decoded, and nothing is appended yet.
pub fn parse_line_chars(
    line_no: usize,
    line: &[char],
    labels: &mut LabelTable,
    out: &mut Vec<PendingLine>,
) -> (r: Result<LineStep, AsmError>)
    ensures
        final(labels)@ == labels_after(
            old(labels)@,
            defined_label(line@),
            old(out)@.len() as usize,
        ),
        pending_view(final(out)@) == pending_after(
            pending_view(old(out)@),
            parse_line_spec(line@, line_no),
            line_no,
        ),
        step_view(r) == step_after(parse_line_spec(line@, line_no)),
        all_registers_valid(pending_view(old(out)@)) ==> all_registers_valid(
            pending_view(final(out)@),
        ),
{
    let n = find_comment(line);
    let raw = trim_chars(slice_subrange(line, 0, n));
    proof {
        assert(line@.subrange(0, n as int) =~= line@.take(n as int));
        assert(raw@ == line_text(line@));
    }
    if raw.len() == 0 || raw[0] == '.' {
        return Ok(LineStep::Done);
    }
    let colon = find_first(raw, ':');
    let stmt = if colon < raw.len() {
        proof {
            assert(raw@.subrange(0, colon as int) =~= raw@.take(colon as int));
            assert(raw@.subrange(colon + 1, raw@.len() as int) =~= raw@.skip(colon + 1));
        }
        let name = trim_chars(slice_subrange(raw, 0, colon));
        if name.len() > 0 {
            labels.insert(string_of(name), out.len());
        }
        trim_chars(slice_subrange(raw, colon + 1, raw.len()))
    } else {
        raw
    };
    let ghost before = out@;
    match parse_statement(stmt, line_no) {
        Err(e) => Err(e),
        Ok(Statement::Nothing) => Ok(LineStep::Done),
        Ok(Statement::RawWord { word, text }) => Ok(LineStep::RawWord { word, text }),
        Ok(Statement::Entry(instr)) => {
            out.push(PendingLine { line_no, instr });
            proof {
                assert(pending_view(out@) =~= pending_view(before).push(
                    PendingLineView { line_no, instr: instr@ },
                ));
                if all_registers_valid(pending_view(before)) {
                    assert forall|i: int| 0 <= i < out@.len() implies registers_valid(
                        (#[trigger] pending_view(out@)[i]).instr,
                    ) by {
                        if i < before.len() {
                            assert(pending_view(out@)[i] == pending_view(before)[i]);
                        }
                    }
                }
            }
            Ok(LineStep::Done)
        },
    }
}

/// Reads the line `line`, which bears the number `line_no`, in the first
/// pass: binds its label, and appends its instruction to `out` or tells the
/// caller of its raw machine word.
pub fn parse_line(
    line_no: usize,
    line: &str,
    labels: &mut LabelTable,
    out: &mut Vec<PendingLine>,
) -> (r: Result<LineStep, AsmError>)
    ensures
        final(labels)@ == labels_after(
            old(labels)@,
            defined_label(line@),
            old(out)@.len() as usize,
        ),
        pending_view(final(out)@) == pending_after(
            pending_view(old(out)@),
            parse_line_spec(line@, line_no),
            line_no,
        ),
        step_view(r) == step_after(parse_line_spec(line@, line_no)),
        all_registers_valid(pending_view(old(out)@)) ==> all_registers_valid(
            pending_view(final(out)@),
        ),
{
    let chars = chars_of(line);
    parse_line_chars(line_no, chars.as_slice(), labels, out)
}

} // verus!
