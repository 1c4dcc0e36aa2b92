//! The assembler: the first pass line by line, and the second pass, which
//! turns every label into a displacement.

use vstd::prelude::*;
use vstd::slice::slice_subrange;
use crate::chars::{line_ranges, lines_of, texts_at};
use crate::error::{fault, result_view, AsmError, AsmErrorView, ErrorKind};
use crate::instr::{
    all_registers_valid, instruction_valid, pending_view, registers_valid, BranchCondition,
    Instruction, PendingInstr, PendingInstrView, PendingLine, PendingLineView,
};
use crate::labels::LabelTable;
use crate::line::{
    defined_label, labels_after, parse_line_chars, parse_line_spec, LineStep, StatementView,
};
use crate::text::chars_of;
use crate::word::{accept_raw_word, accept_raw_word_spec, Decoded, DecodedView};

verus! {

/// The width of an instruction in bytes.
pub const INSTRUCTION_BYTES: i32 = 4;

/// The most entries that a program can hold: the byte offset of each, and
/// of the end of the program, fits in 32 bits with a sign.
pub const MAX_PROGRAM_LEN: usize = 0x1fff_ffff;

/// Whether every label of `labels` stands at an index of at most `bound`.
pub open spec fn labels_within(labels: Map<Seq<char>, usize>, bound: nat) -> bool {
    forall|name: Seq<char>| #[trigger] labels.contains_key(name) ==> labels[name] <= bound
}

/// The displacement in bytes from the entry at index `from` to the one at
/// index `target`.
pub open spec fn displacement(target: int, from: int) -> int {
    target * INSTRUCTION_BYTES - from * INSTRUCTION_BYTES
}

/// The instruction that the entry `entry` at index `index` becomes under
/// `labels`: a resolved one stays as it is; a pending branch or jump gets
/// the displacement to its label, and fails where the label is not defined.
pub open spec fn resolve_entry_spec(
    labels: Map<Seq<char>, usize>,
    entry: PendingLineView,
    index: int,
) -> Result<Instruction, AsmErrorView> {
    match entry.instr {
        PendingInstrView::Resolved(instr) => Ok(instr),
        PendingInstrView::Beq { rs1, rs2, target } => if labels.contains_key(target) {
            Ok(
                Instruction::Branch {
                    cond: BranchCondition::Eq,
                    rs1,
                    rs2,
                    imm: displacement(labels[target] as int, index) as i32,
                },
            )
        } else {
            Err(fault(entry.line_no, ErrorKind::UnknownLabel, target))
        },
        PendingInstrView::Jal { rd, target } => if labels.contains_key(target) {
            Ok(Instruction::Jal { rd, imm: displacement(labels[target] as int, index) as i32 })
        } else {
            Err(fault(entry.line_no, ErrorKind::UnknownLabel, target))
        },
    }
}

/// The program that `pending` becomes under `labels`: each entry resolved
/// at its own index, or the failure of the first entry that fails.
pub open spec fn resolve_spec(
    labels: Map<Seq<char>, usize>,
    pending: Seq<PendingLineView>,
) -> Result<Seq<Instruction>, AsmErrorView>
    decreases pending.len(),
{
    if pending.len() == 0 {
        Ok(Seq::empty())
    } else {
        match resolve_spec(labels, pending.drop_last()) {
            Err(e) => Err(e),
            Ok(program) => match resolve_entry_spec(labels, pending.last(), pending.len() - 1) {
                Err(e) => Err(e),
                Ok(instr) => Ok(program.push(instr)),
            },
        }
    }
}

/// A program or a failure, each by its view.
pub open spec fn program_view(r: Result<Vec<Instruction>, AsmError>) -> Result<
    Seq<Instruction>,
    AsmErrorView,
> {
    match r {
        Ok(program) => Ok(program@),
        Err(e) => Err(e@),
    }
}

/// Resolves the entry `entry`, which stands at index `index`.
fn resolve_entry(labels: &LabelTable, entry: &PendingLine, index: usize) -> (r: Result<
    Instruction,
    AsmError,
>)
    requires
        index <= MAX_PROGRAM_LEN,
        labels_within(labels@, MAX_PROGRAM_LEN as nat),
    ensures
        result_view(r) == resolve_entry_spec(labels@, entry@, index as int),
        registers_valid(entry@.instr) && r is Ok ==> instruction_valid(r->Ok_0),
{
    let from: i32 = (index as i32) * INSTRUCTION_BYTES;
    match &entry.instr {
        PendingInstr::Resolved(instr) => Ok(*instr),
        PendingInstr::Beq { rs1, rs2, target } => match labels.get(target) {
            Some(at) => {
                let to: i32 = (at as i32) * INSTRUCTION_BYTES;
                Ok(
                    Instruction::Branch {
                        cond: BranchCondition::Eq,
                        rs1: *rs1,
                        rs2: *rs2,
                        imm: to - from,
                    },
                )
            },
            None => Err(AsmError::new(entry.line_no, ErrorKind::UnknownLabel, target.clone())),
        },
        PendingInstr::Jal { rd, target } => match labels.get(target) {
            Some(at) => {
                let to: i32 = (at as i32) * INSTRUCTION_BYTES;
                Ok(Instruction::Jal { rd: *rd, imm: to - from })
            },
            None => Err(AsmError::new(entry.line_no, ErrorKind::UnknownLabel, target.clone())),
        },
    }
}

/// The second pass: every entry of `pending` resolved under `labels`, in
/// order, or the failure of the first entry that names an unknown label.
pub fn resolve_labels(labels: &LabelTable, pending: &Vec<PendingLine>) -> (r: Result<
    Vec<Instruction>,
    AsmError,
>)
    requires
        pending@.len() <= MAX_PROGRAM_LEN,
        labels_within(labels@, MAX_PROGRAM_LEN as nat),
    ensures
        program_view(r) == resolve_spec(labels@, pending_view(pending@)),
        all_registers_valid(pending_view(pending@)) && r is Ok ==> forall|i: int|
            0 <= i < r->Ok_0@.len() ==> instruction_valid(#[trigger] r->Ok_0@[i]),
{
    let mut program: Vec<Instruction> = Vec::new();
    let mut i: usize = 0;
    let ghost entries = pending_view(pending@);
    while i < pending.len()
        invariant
            i <= pending@.len() <= MAX_PROGRAM_LEN,
            labels_within(labels@, MAX_PROGRAM_LEN as nat),
            entries == pending_view(pending@),
            resolve_spec(labels@, entries.take(i as int)) == Ok::<Seq<Instruction>, AsmErrorView>(
                program@,
            ),
            program@.len() == i,
            all_registers_valid(entries) ==> forall|k: int|
                0 <= k < program@.len() ==> instruction_valid(#[trigger] program@[k]),
        decreases pending.len() - i,
    {
        proof {
            assert(entries.take(i + 1).drop_last() =~= entries.take(i as int));
            assert(entries.take(i + 1).last() == pending@[i as int]@);
        }
        match resolve_entry(labels, &pending[i], i) {
            Ok(instr) => {
                proof {
                    if all_registers_valid(entries) {
                        assert(registers_valid(entries[i as int].instr));
                    }
                }
                program.push(instr);
            },
            Err(e) => {
                proof {
                    lemma_resolve_failure_stays(labels@, entries, i + 1);
                }
                return Err(e);
            },
        }
        i += 1;
    }
    proof {
        assert(entries.take(pending@.len() as int) =~= entries);
    }
    Ok(program)
}

/// Where the first `n` entries fail to resolve, so does the whole program,
/// and with the same failure.
pub proof fn lemma_resolve_failure_stays(
    labels: Map<Seq<char>, usize>,
    pending: Seq<PendingLineView>,
    n: int,
)
    requires
        0 <= n <= pending.len(),
        resolve_spec(labels, pending.take(n)) is Err,
    ensures
        resolve_spec(labels, pending) == resolve_spec(labels, pending.take(n)),
    decreases pending.len() - n,
{
    if n == pending.len() {
        assert(pending.take(n) =~= pending);
    } else {
        assert(pending.drop_last().take(n) =~= pending.take(n));
        lemma_resolve_failure_stays(labels, pending.drop_last(), n);
    }
}

/// What the first pass has gathered: the labels, and the entries of the
/// program in the order of their lines.
pub struct PassOne {
    pub labels: Map<Seq<char>, usize>,
    pub pending: Seq<PendingLineView>,
}

/// What the first pass has gathered after one more line, `line`, which
/// bears the number `line_no`.  The label of the line is bound to the index
/// of the next entry; an instruction becomes that entry; a raw machine word
/// becomes it where `answer`, which is what came of decoding the word, is
/// that it encodes back to itself.
#[verifier::opaque]
pub open spec fn after_line(
    state: PassOne,
    line: Seq<char>,
    line_no: usize,
    answer: DecodedView,
) -> Result<PassOne, AsmErrorView> {
    let labels = labels_after(state.labels, defined_label(line), state.pending.len() as usize);
    match parse_line_spec(line, line_no) {
        Err(e) => Err(e),
        Ok(StatementView::Nothing) => Ok(PassOne { labels, pending: state.pending }),
        Ok(StatementView::Entry(instr)) => Ok(
            PassOne { labels, pending: state.pending.push(PendingLineView { line_no, instr }) },
        ),
        Ok(StatementView::RawWord { word, text }) => match accept_raw_word_spec(
            line_no,
            text,
            word,
            answer,
        ) {
            Err(e) => Err(e),
            Ok(instr) => Ok(
                PassOne {
                    labels,
                    pending: state.pending.push(
                        PendingLineView { line_no, instr: PendingInstrView::Resolved(instr) },
                    ),
                },
            ),
        },
    }
}

/// What the first pass gathers from `lines`, numbered from 1, or the
/// failure of the first line that fails.  `answers` gives for the number
/// of a line what came of decoding the raw machine word on it.
pub open spec fn first_pass(lines: Seq<Seq<char>>, answers: spec_fn(usize) -> DecodedView) -> Result<
    PassOne,
    AsmErrorView,
>
    decreases lines.len(),
{
    if lines.len() == 0 {
        Ok(PassOne { labels: Map::empty(), pending: Seq::empty() })
    } else {
        match first_pass(lines.drop_last(), answers) {
            Err(e) => Err(e),
            Ok(state) => after_line(
                state,
                lines.last(),
                lines.len() as usize,
                answers(lines.len() as usize),
            ),
        }
    }
}

/// The program that `lines` assemble to: the first pass over all of them,
/// then the second over what the first has gathered.
pub open spec fn assemble_lines(
    lines: Seq<Seq<char>>,
    answers: spec_fn(usize) -> DecodedView,
) -> Result<Seq<Instruction>, AsmErrorView> {
    match first_pass(lines, answers) {
        Err(e) => Err(e),
        Ok(state) => resolve_spec(state.labels, state.pending),
    }
}

/// The program that `text` assembles to, line by line.
pub open spec fn assemble_spec(text: Seq<char>, answers: spec_fn(usize) -> DecodedView) -> Result<
    Seq<Instruction>,
    AsmErrorView,
> {
    assemble_lines(lines_of(text), answers)
}

/// The raw machine word that `line` holds, if it holds one.
#[verifier::opaque]
pub open spec fn raw_word_on(line: Seq<char>, line_no: usize) -> Option<u32> {
    match parse_line_spec(line, line_no) {
        Ok(StatementView::RawWord { word, .. }) => Some(word),
        _ => None,
    }
}

/// Whether `answer` is something that `decode` may answer about `word`.
pub open spec fn may_answer<D: Fn(u32) -> Decoded>(
    decode: D,
    word: u32,
    answer: DecodedView,
) -> bool {
    exists|decoded: Decoded| #[trigger] call_ensures(decode, (word,), decoded) && decoded@ == answer
}

/// Whether `answers` holds what `decode` answered: for each line that the
/// first pass reaches and that holds a raw machine word, something that
/// `decode` may answer about that word.
#[verifier::opaque]
pub open spec fn answered_by<D: Fn(u32) -> Decoded>(
    decode: D,
    lines: Seq<Seq<char>>,
    answers: spec_fn(usize) -> DecodedView,
) -> bool {
    forall|k: int|
        0 <= k < lines.len() && first_pass(lines.take(k), answers) is Ok && (#[trigger] raw_word_on(
            lines[k],
            (k + 1) as usize,
        )) is Some ==> may_answer(
            decode,
            raw_word_on(lines[k], (k + 1) as usize)->Some_0,
            answers((k + 1) as usize),
        )
}

/// Where the first pass fails on the first `n` lines, it fails on all of
/// them, and with the same failure.
pub proof fn lemma_first_pass_failure_stays(
    lines: Seq<Seq<char>>,
    answers: spec_fn(usize) -> DecodedView,
    n: int,
)
    requires
        0 <= n <= lines.len(),
        first_pass(lines.take(n), answers) is Err,
    ensures
        first_pass(lines, answers) == first_pass(lines.take(n), answers),
    decreases lines.len() - n,
{
    if n == lines.len() {
        assert(lines.take(n) =~= lines);
    } else {
        assert(lines.drop_last().take(n) =~= lines.take(n));
        lemma_first_pass_failure_stays(lines.drop_last(), answers, n);
    }
}

/// The first pass over `lines` asks for the answers to their own numbers
/// and for no others.
pub proof fn lemma_first_pass_asks_within(
    lines: Seq<Seq<char>>,
    one: spec_fn(usize) -> DecodedView,
    other: spec_fn(usize) -> DecodedView,
)
    requires
        lines.len() <= usize::MAX,
        forall|n: usize| 1 <= n <= lines.len() ==> #[trigger] one(n) == other(n),
    ensures
        first_pass(lines, one) == first_pass(lines, other),
    decreases lines.len(),
{
    if lines.len() > 0 {
        lemma_first_pass_asks_within(lines.drop_last(), one, other);
        assert(one(lines.len() as usize) == other(lines.len() as usize));
    }
}

/// Whether the first pass went from `before` to `labels` and `pending` over
/// `line` with the result `r`, as `after_line` says for `answer`, and
/// `answer` is something that `decode` may answer where the line holds a
/// raw machine word.
spec fn line_read<D: Fn(u32) -> Decoded>(
    decode: D,
    before: PassOne,
    line: Seq<char>,
    line_no: usize,
    answer: DecodedView,
    labels: Map<Seq<char>, usize>,
    pending: Seq<PendingLineView>,
    r: Result<(), AsmError>,
) -> bool {
    &&& raw_word_on(line, line_no) matches Some(word) ==> may_answer(decode, word, answer)
    &&& match after_line(before, line, line_no, answer) {
        Ok(state) => r is Ok && state.labels == labels && state.pending == pending,
        Err(e) => r is Err && r->Err_0@ == e,
    }
}

/// Reads the line `line` in the first pass, and asks `decode` where the
/// line holds a raw machine word.
fn first_pass_line<D: Fn(u32) -> Decoded>(
    line_no: usize,
    line: &[char],
    decode: &D,
    labels: &mut LabelTable,
    pending: &mut Vec<PendingLine>,
) -> (r: Result<(), AsmError>)
    requires
        forall|word: u32| call_requires(*decode, (word,)),
        labels_within(old(labels)@, old(pending)@.len()),
        all_registers_valid(pending_view(old(pending)@)),
    ensures
        exists|answer: DecodedView| #[trigger]
            line_read(
                *decode,
                PassOne { labels: old(labels)@, pending: pending_view(old(pending)@) },
                line@,
                line_no,
                answer,
                final(labels)@,
                pending_view(final(pending)@),
                r,
            ),
        r is Ok ==> labels_within(final(labels)@, final(pending)@.len()),
        r is Ok ==> all_registers_valid(pending_view(final(pending)@)),
        r is Ok ==> old(pending)@.len() <= final(pending)@.len() <= old(pending)@.len() + 1,
{
    let ghost before = PassOne { labels: labels@, pending: pending_view(pending@) };
    let ghost old_len = pending@.len();
    let ghost none = DecodedView::Rejected { reason: Seq::empty() };
    let step = parse_line_chars(line_no, line, labels, pending);
    proof {
        reveal(after_line);
        reveal(raw_word_on);
        assert(pending_view(pending@).len() == pending@.len());
        assert(old_len <= pending@.len() <= old_len + 1);
    }
    match step {
        Err(e) => {
            let r = Err(e);
            proof {
                assert(line_read(
                    *decode,
                    before,
                    line@,
                    line_no,
                    none,
                    labels@,
                    pending_view(pending@),
                    r,
                ));
            }
            r
        },
        Ok(LineStep::Done) => {
            proof {
                assert(line_read(
                    *decode,
                    before,
                    line@,
                    line_no,
                    none,
                    labels@,
                    pending_view(pending@),
                    Ok(()),
                ));
            }
            Ok(())
        },
        Ok(LineStep::RawWord { word, text }) => {
            let decoded = decode(word);
            proof {
                assert(may_answer(*decode, word, decoded@));
            }
            match accept_raw_word(line_no, text.as_str(), word, &decoded) {
                Err(e) => {
                    let r = Err(e);
                    proof {
                        assert(line_read(
                            *decode,
                            before,
                            line@,
                            line_no,
                            decoded@,
                            labels@,
                            pending_view(pending@),
                            r,
                        ));
                    }
                    r
                },
                Ok(instr) => {
                    let ghost unchanged = pending@;
                    pending.push(PendingLine { line_no, instr: PendingInstr::Resolved(instr) });
                    proof {
                        assert(pending_view(pending@) =~= pending_view(unchanged).push(
                            PendingLineView { line_no, instr: PendingInstrView::Resolved(instr) },
                        ));
                        assert forall|i: int| 0 <= i < pending@.len() implies registers_valid(
                            (#[trigger] pending_view(pending@)[i]).instr,
                        ) by {
                            if i < unchanged.len() {
                                assert(pending_view(pending@)[i] == pending_view(unchanged)[i]);
                            }
                        }
                        assert(line_read(
                            *decode,
                            before,
                            line@,
                            line_no,
                            decoded@,
                            labels@,
                            pending_view(pending@),
                            Ok(()),
                        ));
                    }
                    Ok(())
                },
            }
        },
    }
}

/// Whether the first pass over `lines` ended in `r`, as `first_pass` says
/// for `answers`, which hold what `decode` answered.
spec fn lines_read<D: Fn(u32) -> Decoded>(
    decode: D,
    lines: Seq<Seq<char>>,
    answers: spec_fn(usize) -> DecodedView,
    r: Result<(LabelTable, Vec<PendingLine>), AsmError>,
) -> bool {
    &&& answered_by(decode, lines, answers)
    &&& match first_pass(lines, answers) {
        Ok(state) => r is Ok && state.labels == r->Ok_0.0@ && state.pending == pending_view(
            r->Ok_0.1@,
        ),
        Err(e) => r is Err && r->Err_0@ == e,
    }
}

/// `answers` with `answer` for the line of number `line_no`.
spec fn with_answer(
    answers: spec_fn(usize) -> DecodedView,
    line_no: usize,
    answer: DecodedView,
) -> spec_fn(usize) -> DecodedView {
    |n: usize|
        if n == line_no {
            answer
        } else {
            answers(n)
        }
}

/// What `decode` answered on the first `k` lines stays so when the
/// answer for line `k + 1` is put down.
proof fn lemma_answered_further<D: Fn(u32) -> Decoded>(
    decode: D,
    lines: Seq<Seq<char>>,
    answers: spec_fn(usize) -> DecodedView,
    k: int,
    answer: DecodedView,
)
    requires
        0 <= k < lines.len() <= usize::MAX,
        answered_by(decode, lines.take(k), answers),
        first_pass(lines.take(k), answers) is Ok,
        raw_word_on(lines[k], (k + 1) as usize) matches Some(word) ==> may_answer(
            decode,
            word,
            answer,
        ),
    ensures
        answered_by(decode, lines.take(k + 1), with_answer(answers, (k + 1) as usize, answer)),
        first_pass(lines.take(k), with_answer(answers, (k + 1) as usize, answer)) == first_pass(
            lines.take(k),
            answers,
        ),
{
    reveal(answered_by);
    let next = with_answer(answers, (k + 1) as usize, answer);
    let upto = lines.take(k + 1);
    lemma_first_pass_asks_within(lines.take(k), answers, next);
    assert forall|j: int|
        0 <= j < upto.len() && first_pass(upto.take(j), next) is Ok && (#[trigger] raw_word_on(
            upto[j],
            (j + 1) as usize,
        )) is Some implies may_answer(
        decode,
        raw_word_on(upto[j], (j + 1) as usize)->Some_0,
        next((j + 1) as usize),
    ) by {
        assert(upto.take(j) =~= lines.take(j));
        assert(upto[j] == lines[j]);
        if j < k {
            assert(lines.take(k).take(j) =~= lines.take(j));
            assert(lines.take(k)[j] == lines[j]);
            lemma_first_pass_asks_within(lines.take(j), answers, next);
            assert(raw_word_on(lines.take(k)[j], (j + 1) as usize) is Some);
        }
    }
}

/// What `decode` answered on the lines up to a failure is what it answered
/// on all of them: the first pass reaches no line behind the failure.
proof fn lemma_answered_to_the_end<D: Fn(u32) -> Decoded>(
    decode: D,
    lines: Seq<Seq<char>>,
    answers: spec_fn(usize) -> DecodedView,
    n: int,
)
    requires
        0 <= n <= lines.len(),
        answered_by(decode, lines.take(n), answers),
        first_pass(lines.take(n), answers) is Err || n == lines.len(),
    ensures
        answered_by(decode, lines, answers),
{
    reveal(answered_by);
    assert forall|j: int|
        0 <= j < lines.len() && first_pass(lines.take(j), answers) is Ok && (#[trigger] raw_word_on(
            lines[j],
            (j + 1) as usize,
        )) is Some implies may_answer(
        decode,
        raw_word_on(lines[j], (j + 1) as usize)->Some_0,
        answers((j + 1) as usize),
    ) by {
        if j < n {
            assert(lines.take(n).take(j) =~= lines.take(j));
            assert(lines.take(n)[j] == lines[j]);
            assert(raw_word_on(lines.take(n)[j], (j + 1) as usize) is Some);
        } else {
            assert(lines.take(j).take(n) =~= lines.take(n));
            lemma_first_pass_failure_stays(lines.take(j), answers, n);
        }
    }
}

/// The first pass over the lines that `ranges` mark in `chars`.
fn run_first_pass<D: Fn(u32) -> Decoded>(
    chars: &[char],
    ranges: &Vec<(usize, usize)>,
    decode: &D,
) -> (r: Result<(LabelTable, Vec<PendingLine>), AsmError>)
    requires
        forall|word: u32| call_requires(*decode, (word,)),
        forall|j: int|
            0 <= j < ranges@.len() ==> (#[trigger] ranges@[j]).0 <= ranges@[j].1 <= chars@.len(),
    ensures
        exists|answers: spec_fn(usize) -> DecodedView| #[trigger]
            lines_read(*decode, texts_at(ranges@, chars@), answers, r),
        r matches Ok(gathered) ==> gathered.1@.len() <= ranges@.len() && labels_within(
            gathered.0@,
            gathered.1@.len(),
        ) && all_registers_valid(pending_view(gathered.1@)),
{
    let ghost lines = texts_at(ranges@, chars@);
    let ghost mut answers: spec_fn(usize) -> DecodedView = |n: usize|
        DecodedView::Rejected { reason: Seq::empty() };
    let mut labels = LabelTable::new();
    let mut pending: Vec<PendingLine> = Vec::new();
    let mut k: usize = 0;
    proof {
        assert(pending_view(pending@) =~= Seq::<PendingLineView>::empty());
        assert(lines.take(0).len() == 0);
        assert(answered_by(*decode, lines.take(0), answers)) by {
            reveal(answered_by);
        }
    }
    while k < ranges.len()
        invariant
            k <= ranges@.len(),
            forall|j: int|
                0 <= j < ranges@.len() ==> (#[trigger] ranges@[j]).0 <= ranges@[j].1 <= chars@.len(),
            lines == texts_at(ranges@, chars@),
            pending@.len() <= k,
            labels_within(labels@, pending@.len()),
            all_registers_valid(pending_view(pending@)),
            forall|word: u32| call_requires(*decode, (word,)),
            answered_by(*decode, lines.take(k as int), answers),
            first_pass(lines.take(k as int), answers) == Ok::<PassOne, AsmErrorView>(
                PassOne { labels: labels@, pending: pending_view(pending@) },
            ),
        decreases ranges.len() - k,
    {
        let line = slice_subrange(chars, ranges[k].0, ranges[k].1);
        let ghost before = PassOne { labels: labels@, pending: pending_view(pending@) };
        let ghost asked = answers;
        let r = first_pass_line(k + 1, line, decode, &mut labels, &mut pending);
        proof {
            let answer = choose|answer: DecodedView| #[trigger]
                line_read(
                    *decode,
                    before,
                    line@,
                    (k + 1) as usize,
                    answer,
                    labels@,
                    pending_view(pending@),
                    r,
                );
            assert(line@ == lines[k as int]);
            lemma_answered_further(*decode, lines, asked, k as int, answer);
            answers = with_answer(asked, (k + 1) as usize, answer);
            assert(lines.take(k + 1).drop_last() =~= lines.take(k as int));
            assert(lines.take(k + 1).last() == line@);
            assert(answers((k + 1) as usize) == answer);
            assert(first_pass(lines.take(k + 1), answers) == after_line(
                before,
                line@,
                (k + 1) as usize,
                answer,
            ));
        }
        match r {
            Err(e) => {
                let failed = Err(e);
                proof {
                    lemma_first_pass_failure_stays(lines, answers, k + 1);
                    lemma_answered_to_the_end(*decode, lines, answers, k + 1);
                    assert(lines_read(*decode, lines, answers, failed));
                }
                return failed;
            },
            Ok(()) => {},
        }
        k += 1;
    }
    let gathered = Ok((labels, pending));
    proof {
        assert(lines.take(ranges@.len() as int) =~= lines);
        assert(lines_read(*decode, lines, answers, gathered));
    }
    gathered
}

/// Whether the program of `text` has room: whatever the decoder answers,
/// the first pass gathers at most `MAX_PROGRAM_LEN` entries, so that every
/// byte offset fits in 32 bits with a sign.  A text of at most
/// `MAX_PROGRAM_LEN` lines has room.
pub open spec fn program_fits(text: Seq<char>) -> bool {
    forall|answers: spec_fn(usize) -> DecodedView|
        (#[trigger] first_pass(lines_of(text), answers)) matches Ok(state)
            ==> state.pending.len() <= MAX_PROGRAM_LEN
}

/// Whether `r` is the program that `text` assembles to for `answers`, which
/// hold what `decode` answered.
pub open spec fn assembled_by<D: Fn(u32) -> Decoded>(
    decode: D,
    text: Seq<char>,
    answers: spec_fn(usize) -> DecodedView,
    r: Result<Vec<Instruction>, AsmError>,
) -> bool {
    answered_by(decode, lines_of(text), answers) && program_view(r) == assemble_spec(text, answers)
}

/// Assembles `text` into a program.  `decode` is asked about each raw
/// machine word of the text, in the order of the lines: it has the word
/// decoded and the instruction encoded again, and answers with what came
/// of that.  The first line that fails ends the assembly.
///
/// Whatever `decode` answers, the result is the program, or the failure,
/// that the text has with those answers.  The text is one whose program
/// has room in 32 bits of byte offset; every text of at most
/// `MAX_PROGRAM_LEN` lines is.
pub fn assemble_rv32_mini_asm<D: Fn(u32) -> Decoded>(text: &str, decode: D) -> (r: Result<
    Vec<Instruction>,
    AsmError,
>)
    requires
        program_fits(text@),
        forall|word: u32| call_requires(decode, (word,)),
    ensures
        exists|answers: spec_fn(usize) -> DecodedView| #[trigger]
            assembled_by(decode, text@, answers, r),
        r matches Ok(program) ==> forall|i: int|
            0 <= i < program@.len() ==> instruction_valid(#[trigger] program@[i]),
{
    let chars = chars_of(text);
    let ranges = line_ranges(chars.as_slice());
    let gathered = run_first_pass(chars.as_slice(), &ranges, &decode);
    let ghost answers = choose|answers: spec_fn(usize) -> DecodedView| #[trigger]
        lines_read(decode, lines_of(text@), answers, gathered);
    match gathered {
        Err(e) => {
            let r = Err(e);
            proof {
                assert(assembled_by(decode, text@, answers, r));
            }
            r
        },
        Ok((labels, pending)) => {
            proof {
                assert(first_pass(lines_of(text@), answers) is Ok);
                assert(pending_view(pending@).len() == pending@.len());
            }
            let r = resolve_labels(&labels, &pending);
            proof {
                assert(assembled_by(decode, text@, answers, r));
            }
            r
        },
    }
}

} // verus!
