use rv32_mini_asm::{
    accept_raw_word, assemble_rv32_mini_asm, parse_i32, parse_mem_operand, parse_reg, AsmError,
    Decoded, ErrorKind, Mnemonic,
};

fn faithful(word: u32) -> Decoded {
    Decoded::Reencoded { bytes: word.to_le_bytes().to_vec() }
}

fn failure(text: &str) -> String {
    assemble_rv32_mini_asm(text, faithful).unwrap_err().message()
}

#[test]
fn register_messages() {
    assert_eq!(
        parse_reg(" ", 3).unwrap_err().message(),
        "line 3: expected register, got empty token"
    );
    assert_eq!(parse_reg("x9z", 12).unwrap_err().message(), "line 12: invalid register 'x9z'");
    assert_eq!(
        parse_reg("X40,", 1).unwrap_err().message(),
        "line 1: invalid register 'X40,' (x0..x31)"
    );
    assert_eq!(
        parse_reg("bogus", 100).unwrap_err().message(),
        "line 100: unknown register 'bogus' (expected x0..x31 or ABI names like a0/t0)"
    );
}

#[test]
fn immediate_messages() {
    assert_eq!(
        parse_i32("", 1).unwrap_err().message(),
        "line 1: expected immediate, got empty token"
    );
    assert_eq!(
        parse_i32("0xzz", 2).unwrap_err().message(),
        "line 2: invalid hex immediate '0xzz'"
    );
    assert_eq!(parse_i32("ten", 3).unwrap_err().message(), "line 3: invalid immediate 'ten'");
    assert_eq!(
        parse_i32("4294967296", 4).unwrap_err().message(),
        "line 4: immediate out of range for i32: '4294967296'"
    );
}

#[test]
fn mem_operand_messages() {
    assert_eq!(
        parse_mem_operand("x1", 5).unwrap_err().message(),
        "line 5: expected mem operand like '0(x1)', got 'x1'"
    );
    assert_eq!(
        parse_mem_operand(")x1(", 6).unwrap_err().message(),
        "line 6: invalid mem operand ')x1('"
    );
}

#[test]
fn raw_word_messages() {
    let refused = Decoded::Rejected { reason: String::from("unsupported opcode 0x7f") };
    assert_eq!(
        accept_raw_word(7, "0xffffffff", u32::MAX, &refused).unwrap_err().message(),
        "line 7: invalid RV32 word '0xffffffff': unsupported opcode 0x7f"
    );
    let other = Decoded::Reencoded { bytes: vec![0, 0, 0, 0] };
    assert_eq!(
        accept_raw_word(8, "0x1", 1, &other).unwrap_err().message(),
        "line 8: unsupported raw word '0x1' (decode/encode mismatch)"
    );
}

#[test]
fn operand_count_messages() {
    assert_eq!(failure("addi"), "line 1: addi expects 3 operands: addi rd, rs1, imm");
    assert_eq!(failure("add"), "line 1: add expects 3 operands: add rd, rs1, rs2");
    assert_eq!(failure("lw"), "line 1: lw expects 2 operands: lw rd, off(rs1)");
    assert_eq!(failure("sw"), "line 1: sw expects 2 operands: sw rs2, off(rs1)");
    assert_eq!(failure("beq"), "line 1: beq expects 3 operands: beq rs1, rs2, label|imm");
    assert_eq!(
        failure("jal"),
        "line 1: jal expects 1 or 2 operands: jal label  OR  jal rd, label|imm"
    );
    assert_eq!(failure("j"), "line 1: j expects 1 operand: j label");
    assert_eq!(failure("li"), "line 1: li expects 2 operands: li rd, imm");
    assert_eq!(failure("mv"), "line 1: mv expects 2 operands: mv rd, rs");
    assert_eq!(failure("ecall 1"), "line 1: ecall takes no operands");
    assert_eq!(failure("HALT 1"), "line 1: halt takes no operands");
    assert_eq!(failure("nop 1"), "line 1: nop takes no operands");
}

#[test]
fn line_messages() {
    assert_eq!(
        failure("\n\nli a0, 99999"),
        "line 3: li immediate out of range for MVP (-2048..2047). Use 'lui'/'addi' or paste raw words."
    );
    assert_eq!(
        failure("SUB x1, x2, x3"),
        "line 1: unsupported opcode 'sub' (supported: addi, add, lw, sw, beq, jal, j, li, mv, ecall, halt, nop)"
    );
    assert_eq!(failure("jal missing_label\n"), "line 1: unknown label 'missing_label'");
    let message = failure("\n\n\n\n\n\n\n\nmul x1, x2, x3");
    assert!(message.contains("line 9"));
    assert!(message.contains("'mul'"));
    for name in ["addi", "add", "lw", "sw", "beq", "jal", "j", "li", "mv", "ecall", "halt", "nop"] {
        assert!(message.contains(&format!(" {}", name)), "{}", name);
    }
}

#[test]
fn line_numbers_in_decimal() {
    for n in [0usize, 1, 9, 10, 11, 99, 100, 101, 12345, 4294967295, usize::MAX] {
        let e = AsmError {
            line_no: n,
            kind: ErrorKind::OperandCount { mnemonic: Mnemonic::Nop },
            token: String::new(),
            detail: String::new(),
        };
        assert_eq!(e.message(), format!("line {}: nop takes no operands", n));
    }
}
