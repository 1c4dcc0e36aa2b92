use rv32_mini_asm::{
    accept_raw_word, assemble_rv32_mini_asm, parse_line, resolve_labels, AluOp, AsmError,
    BranchCondition, Decoded, ErrorKind, Instruction, LabelTable, LineStep, MemOp, Mnemonic,
    PendingInstr, PendingLine,
};

/// A decoder that takes every word and encodes it back to itself.
fn faithful(word: u32) -> Decoded {
    Decoded::Reencoded { bytes: word.to_le_bytes().to_vec() }
}

/// A decoder that refuses every word.
fn refusing(_word: u32) -> Decoded {
    Decoded::Rejected { reason: String::from("illegal instruction") }
}

/// A decoder whose encoder loses the top byte.
fn lossy(word: u32) -> Decoded {
    Decoded::Reencoded { bytes: (word & 0x00ff_ffff).to_le_bytes().to_vec() }
}

fn assemble(text: &str) -> Result<Vec<Instruction>, AsmError> {
    assemble_rv32_mini_asm(text, faithful)
}

fn addi(rd: u8, rs1: u8, imm: i32) -> Instruction {
    Instruction::IAlu { op: AluOp::Add, rd, rs1, imm }
}

fn beq(rs1: u8, rs2: u8, imm: i32) -> Instruction {
    Instruction::Branch { cond: BranchCondition::Eq, rs1, rs2, imm }
}

#[test]
fn three_instructions_assemble() {
    let program = assemble("li a0, 5\nli a1, 8\nadd a0, a0, a1\n").unwrap();
    assert_eq!(
        program,
        vec![
            addi(10, 0, 5),
            addi(11, 0, 8),
            Instruction::RAlu { op: AluOp::Add, rd: 10, rs1: 10, rs2: 11 },
        ]
    );
    assert_eq!(program.len() * 4, 12);
}

#[test]
fn backward_branch_resolves() {
    let program = assemble("loop:\n  addi x5, x5, -1\n  beq x5, x0, loop\n").unwrap();
    assert_eq!(program, vec![addi(5, 5, -1), beq(5, 0, (0 - 1) * 4)]);
}

#[test]
fn branch_two_slots_back() {
    let program = assemble("loop:\n  nop\n  addi x5, x5, -1\n  beq x5, x0, loop\n").unwrap();
    assert_eq!(program[2], beq(5, 0, (0 - 2) * 4));
}

#[test]
fn li_out_of_range_fails_and_raw_word_succeeds() {
    let e = assemble("li a0, 99999").unwrap_err();
    assert_eq!((e.kind, e.line_no, e.token.as_str()), (ErrorKind::LiOutOfRange, 1, "99999"));
    assert_eq!(assemble("0x0001869f"), Ok(vec![Instruction::Word { word: 0x0001869f }]));
    assert_eq!(assemble("99999"), Ok(vec![Instruction::Word { word: 99999 }]));
}

#[test]
fn li_bounds() {
    assert_eq!(assemble("li a0, 2047"), Ok(vec![addi(10, 0, 2047)]));
    assert_eq!(assemble("li a0, -2048"), Ok(vec![addi(10, 0, -2048)]));
    assert_eq!(assemble("li a0, 2048").unwrap_err().kind, ErrorKind::LiOutOfRange);
    assert_eq!(assemble("li a0, -2049").unwrap_err().kind, ErrorKind::LiOutOfRange);
}

#[test]
fn store_assembles() {
    assert_eq!(
        assemble("sw x1, 0(x2)\n"),
        Ok(vec![Instruction::Store { op: MemOp::Sw, rs1: 2, rs2: 1, imm: 0 }])
    );
}

#[test]
fn missing_label_fails_on_its_line() {
    let e = assemble("jal missing_label\n").unwrap_err();
    assert_eq!(
        (e.kind, e.line_no, e.token.as_str()),
        (ErrorKind::UnknownLabel, 1, "missing_label")
    );
}

#[test]
fn forward_references_resolve() {
    let program = assemble("beq x1, x2, end\njal end\nj end\nnop\nend:\nhalt\n").unwrap();
    assert_eq!(
        program,
        vec![
            beq(1, 2, 16),
            Instruction::Jal { rd: 1, imm: 12 },
            Instruction::Jal { rd: 0, imm: 8 },
            Instruction::Nop,
            Instruction::Halt,
        ]
    );
}

#[test]
fn label_at_the_end_of_the_text() {
    assert_eq!(assemble("j end\nend:"), Ok(vec![Instruction::Jal { rd: 0, imm: 4 }]));
}

#[test]
fn label_and_instruction_on_one_line() {
    assert_eq!(
        assemble("start: nop\nj start"),
        Ok(vec![Instruction::Nop, Instruction::Jal { rd: 0, imm: -4 }])
    );
    assert_eq!(assemble("here: j here"), Ok(vec![Instruction::Jal { rd: 0, imm: 0 }]));
}

#[test]
fn a_label_defined_twice_is_bound_to_the_later_place() {
    assert_eq!(
        assemble("a: nop\na: nop\nj a"),
        Ok(vec![Instruction::Nop, Instruction::Nop, Instruction::Jal { rd: 0, imm: -4 }])
    );
}

#[test]
fn labels_are_case_sensitive() {
    assert_eq!(assemble("Loop: nop\nj loop").unwrap_err().kind, ErrorKind::UnknownLabel);
}

#[test]
fn undefined_label_behind_defined_ones() {
    let e = assemble("a: nop\nbeq x0, x0, a\nbeq x0, x0, b\njal x5, c\n").unwrap_err();
    assert_eq!((e.kind, e.line_no, e.token.as_str()), (ErrorKind::UnknownLabel, 3, "b"));
}

#[test]
fn blank_lines_comments_and_directives_take_no_slot() {
    let text = "\n# header\n.text\n  // more\nstart:\n\n.globl start\n nop # first\n\n j start // back\n";
    assert_eq!(assemble(text), Ok(vec![Instruction::Nop, Instruction::Jal { rd: 0, imm: -4 }]));
}

#[test]
fn empty_text_is_an_empty_program() {
    assert_eq!(assemble(""), Ok(vec![]));
    assert_eq!(assemble("\n\n"), Ok(vec![]));
    assert_eq!(assemble("# nothing"), Ok(vec![]));
}

#[test]
fn carriage_returns_end_lines_too() {
    assert_eq!(
        assemble("nop\r\nhalt\r\n"),
        Ok(vec![Instruction::Nop, Instruction::Halt])
    );
    assert_eq!(assemble("nop\r"), Ok(vec![Instruction::Nop]));
}

#[test]
fn every_mnemonic() {
    let text = "addi x1, x2, 3\nadd x4, x5, x6\nlw x7, 8(x9)\nsw x10, -12(x11)\nbeq x12, x13, 16\n\
                jal x14, -20\nli x15, 21\nmv x16, x17\necall\nhalt\nnop\n";
    assert_eq!(
        assemble(text),
        Ok(vec![
            addi(1, 2, 3),
            Instruction::RAlu { op: AluOp::Add, rd: 4, rs1: 5, rs2: 6 },
            Instruction::Load { op: MemOp::Lw, rd: 7, rs1: 9, imm: 8 },
            Instruction::Store { op: MemOp::Sw, rs1: 11, rs2: 10, imm: -12 },
            beq(12, 13, 16),
            Instruction::Jal { rd: 14, imm: -20 },
            addi(15, 0, 21),
            addi(16, 17, 0),
            Instruction::Halt,
            Instruction::Halt,
            Instruction::Nop,
        ])
    );
}

#[test]
fn mnemonics_in_capitals_and_loose_spacing() {
    assert_eq!(assemble("  ADDI\tX1 ,  x2,3  "), Ok(vec![addi(1, 2, 3)]));
    assert_eq!(assemble("Li A0 , 0x10"), Ok(vec![addi(10, 0, 16)]));
}

#[test]
fn jal_with_one_operand_links_in_ra() {
    assert_eq!(
        assemble("jal f\nf: nop"),
        Ok(vec![Instruction::Jal { rd: 1, imm: 4 }, Instruction::Nop])
    );
}

#[test]
fn jal_with_one_operand_takes_it_for_a_label() {
    let e = assemble("jal 8").unwrap_err();
    assert_eq!((e.kind, e.token.as_str()), (ErrorKind::UnknownLabel, "8"));
    assert_eq!(assemble("jal 8\n8: nop").unwrap()[0], Instruction::Jal { rd: 1, imm: 4 });
}

#[test]
fn wrong_operand_counts() {
    let cases = [
        ("addi x1, x2", Mnemonic::Addi),
        ("add x1, x2, x3, x4", Mnemonic::Add),
        ("lw x1", Mnemonic::Lw),
        ("sw x1, 0(x2), 3", Mnemonic::Sw),
        ("beq x1, x2", Mnemonic::Beq),
        ("jal", Mnemonic::Jal),
        ("jal a, b, c", Mnemonic::Jal),
        ("j", Mnemonic::J),
        ("j a, b", Mnemonic::J),
        ("li x1", Mnemonic::Li),
        ("mv x1", Mnemonic::Mv),
        ("ecall 1", Mnemonic::Ecall),
        ("halt x1", Mnemonic::Halt),
        ("nop nop", Mnemonic::Nop),
    ];
    for (text, mnemonic) in cases {
        let e = assemble(text).unwrap_err();
        assert_eq!(e.kind, ErrorKind::OperandCount { mnemonic }, "{}", text);
        assert_eq!(e.line_no, 1);
    }
}

#[test]
fn operand_count_is_checked_before_the_operands() {
    assert_eq!(
        assemble("addi q1, q2").unwrap_err().kind,
        ErrorKind::OperandCount { mnemonic: Mnemonic::Addi }
    );
}

#[test]
fn unknown_mnemonic() {
    let e = assemble("nop\nFrob x1, x2").unwrap_err();
    assert_eq!((e.kind, e.line_no, e.token.as_str()), (ErrorKind::UnknownMnemonic, 2, "frob"));
}

#[test]
fn operands_fail_from_left_to_right() {
    assert_eq!(assemble("addi q, r, s").unwrap_err().token, "q");
    assert_eq!(assemble("addi x1, r, s").unwrap_err().token, "r");
    assert_eq!(assemble("addi x1, x2, s").unwrap_err().token, "s");
    assert_eq!(assemble("addi x1, x2, s").unwrap_err().kind, ErrorKind::InvalidImmediate);
    assert_eq!(assemble("lw x1, 0(x32)").unwrap_err().kind, ErrorKind::RegisterOutOfRange);
    assert_eq!(assemble("sw x1, x2").unwrap_err().kind, ErrorKind::MemOperandExpected);
}

#[test]
fn the_first_failing_line_decides() {
    let e = assemble("nop\naddi x1, x2\nfrob\n").unwrap_err();
    assert_eq!(e.line_no, 2);
    let e = assemble("j nowhere\nfrob\n").unwrap_err();
    assert_eq!((e.kind, e.line_no), (ErrorKind::UnknownMnemonic, 2));
}

#[test]
fn beq_with_a_number_too_wide_waits_for_a_label() {
    let e = assemble("beq x1, x2, 4294967296").unwrap_err();
    assert_eq!((e.kind, e.token.as_str()), (ErrorKind::UnknownLabel, "4294967296"));
}

#[test]
fn raw_words_in_decimal_and_hex() {
    assert_eq!(
        assemble("0x00000013\n19\n0X0000_0073"),
        Ok(vec![
            Instruction::Word { word: 0x13 },
            Instruction::Word { word: 19 },
            Instruction::Word { word: 0x73 },
        ])
    );
}

#[test]
fn raw_word_behind_a_label() {
    assert_eq!(
        assemble("j w\nw: 0x13"),
        Ok(vec![Instruction::Jal { rd: 0, imm: 4 }, Instruction::Word { word: 0x13 }])
    );
}

#[test]
fn raw_word_that_the_decoder_refuses() {
    let e = assemble_rv32_mini_asm("nop\n0xffffffff\n", refusing).unwrap_err();
    assert_eq!(
        (e.kind, e.line_no, e.token.as_str(), e.detail.as_str()),
        (ErrorKind::WordRejected, 2, "0xffffffff", "illegal instruction")
    );
}

#[test]
fn raw_word_that_does_not_encode_back() {
    let e = assemble_rv32_mini_asm("0x12345678", lossy).unwrap_err();
    assert_eq!(
        (e.kind, e.line_no, e.token.as_str()),
        (ErrorKind::WordMismatch, 1, "0x12345678")
    );
    assert_eq!(
        assemble_rv32_mini_asm("0x00345678", lossy),
        Ok(vec![Instruction::Word { word: 0x00345678 }])
    );
}

#[test]
fn the_decoder_is_asked_for_raw_words_only() {
    assert_eq!(assemble_rv32_mini_asm("nop\nli a0, 1\n", refusing).unwrap().len(), 2);
}

#[test]
fn accept_raw_word_wants_the_four_bytes() {
    let ok = Decoded::Reencoded { bytes: vec![0x78, 0x56, 0x34, 0x12] };
    assert_eq!(
        accept_raw_word(1, "0x12345678", 0x12345678, &ok),
        Ok(Instruction::Word { word: 0x12345678 })
    );
    for bytes in [vec![0x12, 0x34, 0x56, 0x78], vec![0x78, 0x56, 0x34], vec![0x78, 0x56, 0x34, 0x12, 0], vec![]] {
        let e = accept_raw_word(4, "w", 0x12345678, &Decoded::Reencoded { bytes }).unwrap_err();
        assert_eq!((e.kind, e.line_no, e.token.as_str()), (ErrorKind::WordMismatch, 4, "w"));
    }
    let no = Decoded::Rejected { reason: String::from("why") };
    let e = accept_raw_word(4, "w", 0x12345678, &no).unwrap_err();
    assert_eq!((e.kind, e.detail.as_str()), (ErrorKind::WordRejected, "why"));
}

#[test]
fn parse_line_step_by_step() {
    let mut labels = LabelTable::new();
    let mut out: Vec<PendingLine> = Vec::new();
    assert_eq!(
        parse_line(1, "top: beq x1, x2, bottom # go", &mut labels, &mut out),
        Ok(LineStep::Done)
    );
    assert_eq!(labels.get(&String::from("top")), Some(0));
    assert_eq!(
        out,
        vec![PendingLine {
            line_no: 1,
            instr: PendingInstr::Beq { rs1: 1, rs2: 2, target: String::from("bottom") },
        }]
    );
    let step = parse_line(2, " w: 0x13 ", &mut labels, &mut out);
    assert_eq!(step, Ok(LineStep::RawWord { word: 0x13, text: String::from("0x13") }));
    assert_eq!(labels.get(&String::from("w")), Some(1));
    assert_eq!(out.len(), 1);
    let instr = accept_raw_word(2, "0x13", 0x13, &faithful(0x13)).unwrap();
    out.push(PendingLine { line_no: 2, instr: PendingInstr::Resolved(instr) });
    assert_eq!(parse_line(3, ".data", &mut labels, &mut out), Ok(LineStep::Done));
    assert_eq!(parse_line(4, "bottom:", &mut labels, &mut out), Ok(LineStep::Done));
    assert_eq!(labels.get(&String::from("bottom")), Some(2));
    assert_eq!(labels.get(&String::from("nowhere")), None);
    assert_eq!(
        resolve_labels(&labels, &out),
        Ok(vec![beq(1, 2, 8), Instruction::Word { word: 0x13 }])
    );
}

#[test]
fn parse_line_binds_the_label_even_where_the_statement_fails() {
    let mut labels = LabelTable::new();
    let mut out: Vec<PendingLine> = Vec::new();
    assert!(parse_line(1, "x: frob", &mut labels, &mut out).is_err());
    assert_eq!(labels.get(&String::from("x")), Some(0));
    assert!(out.is_empty());
}

#[test]
fn a_colon_without_a_name_defines_nothing() {
    let mut labels = LabelTable::new();
    let mut out: Vec<PendingLine> = Vec::new();
    assert_eq!(parse_line(1, " : nop", &mut labels, &mut out), Ok(LineStep::Done));
    assert_eq!(labels.get(&String::new()), None);
    assert_eq!(out.len(), 1);
}

#[test]
fn white_space_inside_an_operand_becomes_one_blank() {
    let e = assemble("j far \t  away").unwrap_err();
    assert_eq!((e.kind, e.token.as_str()), (ErrorKind::UnknownLabel, "far away"));
}
