use rv32_mini_asm::{
    parse_i32, parse_mem_operand, parse_operands, parse_reg, parse_u32_word, strip_comment,
    ErrorKind,
};

#[test]
fn strip_comment_cuts_at_hash() {
    assert_eq!(strip_comment("addi x1, x0, 1 # one"), "addi x1, x0, 1 ");
}

#[test]
fn strip_comment_cuts_at_slashes() {
    assert_eq!(strip_comment("nop // rest"), "nop ");
}

#[test]
fn strip_comment_takes_the_earlier_marker() {
    assert_eq!(strip_comment("a // b # c"), "a ");
    assert_eq!(strip_comment("a # b // c"), "a ");
}

#[test]
fn strip_comment_leaves_a_plain_line() {
    assert_eq!(strip_comment("lw x1, 0(x2)"), "lw x1, 0(x2)");
    assert_eq!(strip_comment(""), "");
    assert_eq!(strip_comment("a / b"), "a / b");
}

#[test]
fn strip_comment_single_slash_at_end() {
    assert_eq!(strip_comment("a /"), "a /");
    assert_eq!(strip_comment("//"), "");
    assert_eq!(strip_comment("#"), "");
}

#[test]
fn parse_reg_numeric_names() {
    for i in 0u8..32 {
        assert_eq!(parse_reg(&format!("x{}", i), 1), Ok(i));
        assert_eq!(parse_reg(&format!("X{}", i), 1), Ok(i));
    }
}

#[test]
fn parse_reg_abi_names() {
    let names = [
        "zero", "ra", "sp", "gp", "tp", "t0", "t1", "t2", "s0", "s1", "a0", "a1", "a2", "a3",
        "a4", "a5", "a6", "a7", "s2", "s3", "s4", "s5", "s6", "s7", "s8", "s9", "s10", "s11",
        "t3", "t4", "t5", "t6",
    ];
    for (i, name) in names.iter().enumerate() {
        assert_eq!(parse_reg(name, 1), Ok(i as u8));
        assert_eq!(parse_reg(&name.to_uppercase(), 1), Ok(i as u8));
        assert_eq!(parse_reg(name, 1), parse_reg(&format!("x{}", i), 1));
    }
    assert_eq!(parse_reg("fp", 1), Ok(8));
}

#[test]
fn parse_reg_x10_and_a0_agree() {
    assert_eq!(parse_reg("x10", 3), Ok(10));
    assert_eq!(parse_reg("a0", 3), Ok(10));
}

#[test]
fn parse_reg_trims_and_drops_trailing_commas() {
    assert_eq!(parse_reg("  a0,, ", 1), Ok(10));
    assert_eq!(parse_reg("\tx5,", 1), Ok(5));
}

#[test]
fn parse_reg_takes_digits_and_no_sign() {
    assert_eq!(parse_reg("x007", 1), Ok(7));
    let e = parse_reg("x+5", 1).unwrap_err();
    assert_eq!((e.kind, e.line_no, e.token.as_str()), (ErrorKind::InvalidRegister, 1, "x+5"));
    assert_eq!(parse_reg("x+7", 1).unwrap_err().kind, ErrorKind::InvalidRegister);
    assert_eq!(parse_reg("x-0", 1).unwrap_err().kind, ErrorKind::InvalidRegister);
}

#[test]
fn parse_reg_empty_token() {
    let e = parse_reg("  ,", 7).unwrap_err();
    assert_eq!(e.kind, ErrorKind::EmptyRegister);
    assert_eq!(e.line_no, 7);
}

#[test]
fn parse_reg_out_of_range() {
    let e = parse_reg("x32", 2).unwrap_err();
    assert_eq!(e.kind, ErrorKind::RegisterOutOfRange);
    assert_eq!(e.line_no, 2);
    assert_eq!(e.token, "x32");
    assert_eq!(parse_reg("x255", 2).unwrap_err().kind, ErrorKind::RegisterOutOfRange);
    assert_eq!(parse_reg("x256", 2).unwrap_err().kind, ErrorKind::RegisterOutOfRange);
    assert_eq!(
        parse_reg("x99999999999999999999999", 2).unwrap_err().kind,
        ErrorKind::RegisterOutOfRange
    );
    assert_eq!(parse_reg("x031", 2), Ok(31));
    assert_eq!(parse_reg("x032", 2).unwrap_err().kind, ErrorKind::RegisterOutOfRange);
}

#[test]
fn parse_reg_invalid_number() {
    assert_eq!(parse_reg("x", 2).unwrap_err().kind, ErrorKind::InvalidRegister);
    assert_eq!(parse_reg("x-1", 2).unwrap_err().kind, ErrorKind::InvalidRegister);
    assert_eq!(parse_reg("x1 ,", 2).unwrap_err().kind, ErrorKind::InvalidRegister);
    assert_eq!(parse_reg("x1a", 2).unwrap_err().kind, ErrorKind::InvalidRegister);
}

#[test]
fn parse_reg_unknown_name() {
    let e = parse_reg("q9", 4).unwrap_err();
    assert_eq!(e.kind, ErrorKind::UnknownRegister);
    assert_eq!(e.line_no, 4);
    assert_eq!(e.token, "q9");
    assert_eq!(parse_reg("s12", 4).unwrap_err().kind, ErrorKind::UnknownRegister);
    assert_eq!(parse_reg("t7", 4).unwrap_err().kind, ErrorKind::UnknownRegister);
    assert_eq!(parse_reg("a8", 4).unwrap_err().kind, ErrorKind::UnknownRegister);
}

#[test]
fn parse_i32_decimal() {
    assert_eq!(parse_i32("0", 1), Ok(0));
    assert_eq!(parse_i32("42", 1), Ok(42));
    assert_eq!(parse_i32("-1", 1), Ok(-1));
    assert_eq!(parse_i32(" 12, ", 1), Ok(12));
    assert_eq!(parse_i32("1_000", 1), Ok(1000));
    assert_eq!(parse_i32("007", 1), Ok(7));
}

#[test]
fn parse_i32_hex() {
    assert_eq!(parse_i32("0x10", 1), Ok(16));
    assert_eq!(parse_i32("0XfF", 1), Ok(255));
    assert_eq!(parse_i32("-0x10", 1), Ok(-16));
    assert_eq!(parse_i32("0x7fff_ffff", 1), Ok(i32::MAX));
    assert_eq!(parse_i32("-0x8000_0000", 1), Ok(i32::MIN));
}

#[test]
fn parse_i32_bounds() {
    assert_eq!(parse_i32("2147483647", 1), Ok(i32::MAX));
    assert_eq!(parse_i32("-2147483648", 1), Ok(i32::MIN));
    assert_eq!(parse_i32("2147483648", 1).unwrap_err().kind, ErrorKind::ImmediateOutOfRange);
    assert_eq!(parse_i32("-2147483649", 1).unwrap_err().kind, ErrorKind::ImmediateOutOfRange);
    assert_eq!(parse_i32("0x80000000", 1).unwrap_err().kind, ErrorKind::ImmediateOutOfRange);
    assert_eq!(parse_i32("-0x80000001", 1).unwrap_err().kind, ErrorKind::ImmediateOutOfRange);
}

#[test]
fn parse_i32_takes_one_leading_minus_and_no_other_sign() {
    assert_eq!(parse_i32("5", 1), Ok(5));
    assert_eq!(parse_i32("-5", 1), Ok(-5));
    assert_eq!(parse_i32("-0x5", 1), Ok(-5));
    assert_eq!(parse_i32("-0", 1), Ok(0));
    assert_eq!(parse_i32("-0x0", 1), Ok(0));
    for text in ["+5", "+17", "--5", "-+5", "+-5", "-", "+", "5-", "5+"] {
        let e = parse_i32(text, 1).unwrap_err();
        assert_eq!((e.kind, e.token.as_str()), (ErrorKind::InvalidImmediate, text), "{}", text);
    }
    for text in ["0x-5", "0x+5", "-0x-5", "-0x+5", "0x", "-0x", "0X-5"] {
        let e = parse_i32(text, 1).unwrap_err();
        assert_eq!((e.kind, e.token.as_str()), (ErrorKind::InvalidHexImmediate, text), "{}", text);
    }
}

#[test]
fn parse_i32_hex_in_either_case() {
    for m in [0i64, 1, 9, 10, 15, 16, 0xab, 0xabcdef, 0x7fff_ffff] {
        assert_eq!(parse_i32(&format!("0x{:x}", m), 1), Ok(m as i32));
        assert_eq!(parse_i32(&format!("0X{:X}", m), 1), Ok(m as i32));
        assert_eq!(parse_i32(&format!("0x{:X}", m), 1), Ok(m as i32));
    }
    for m in [0i64, 1, 0xff, 0x7fff_ffff, 0x8000_0000] {
        assert_eq!(parse_i32(&format!("-0x{:x}", m), 1), Ok((-m) as i32));
        assert_eq!(parse_i32(&format!("-0X{:X}", m), 1), Ok((-m) as i32));
    }
}

#[test]
fn parse_i32_wide_values() {
    assert_eq!(
        parse_i32("9223372036854775807", 1).unwrap_err().kind,
        ErrorKind::ImmediateOutOfRange
    );
    assert_eq!(parse_i32("9223372036854775808", 1).unwrap_err().kind, ErrorKind::InvalidImmediate);
    assert_eq!(
        parse_i32("-9223372036854775807", 1).unwrap_err().kind,
        ErrorKind::ImmediateOutOfRange
    );
    assert_eq!(
        parse_i32("-9223372036854775808", 1).unwrap_err().kind,
        ErrorKind::InvalidImmediate
    );
    assert_eq!(
        parse_i32("0x1_0000_0000_0000_0000", 1).unwrap_err().kind,
        ErrorKind::InvalidHexImmediate
    );
}

#[test]
fn parse_i32_failures() {
    let e = parse_i32(" , ", 9).unwrap_err();
    assert_eq!((e.kind, e.line_no), (ErrorKind::EmptyImmediate, 9));
    assert_eq!(parse_i32("___", 9).unwrap_err().kind, ErrorKind::EmptyImmediate);
    let e = parse_i32("12a", 9).unwrap_err();
    assert_eq!((e.kind, e.line_no, e.token.as_str()), (ErrorKind::InvalidImmediate, 9, "12a"));
    assert_eq!(parse_i32("0xg", 9).unwrap_err().kind, ErrorKind::InvalidHexImmediate);
    assert_eq!(parse_i32("0x", 9).unwrap_err().kind, ErrorKind::InvalidHexImmediate);
    assert_eq!(parse_i32("loop", 9).unwrap_err().kind, ErrorKind::InvalidImmediate);
    assert_eq!(parse_i32("1 2", 9).unwrap_err().kind, ErrorKind::InvalidImmediate);
}

#[test]
fn parse_u32_word_forms() {
    assert_eq!(parse_u32_word("0"), Some(0));
    assert_eq!(parse_u32_word(" 19 "), Some(19));
    assert_eq!(parse_u32_word("0x00000013"), Some(0x13));
    assert_eq!(parse_u32_word("0XFFFF_FFFF"), Some(u32::MAX));
    assert_eq!(parse_u32_word("4294967295"), Some(u32::MAX));
    assert_eq!(parse_u32_word("+7"), None);
    assert_eq!(parse_u32_word("0x+7"), None);
    assert_eq!(parse_u32_word("4294967296"), None);
    assert_eq!(parse_u32_word("0x1_0000_0000"), None);
    assert_eq!(parse_u32_word("-1"), None);
    assert_eq!(parse_u32_word(""), None);
    assert_eq!(parse_u32_word("  "), None);
    assert_eq!(parse_u32_word("1 2"), None);
    assert_eq!(parse_u32_word("nop"), None);
    assert_eq!(parse_u32_word("0x"), None);
}

#[test]
fn parse_mem_operand_forms() {
    assert_eq!(parse_mem_operand("0(x1)", 1), Ok((0, 1)));
    assert_eq!(parse_mem_operand("(x1)", 1), Ok((0, 1)));
    assert_eq!(parse_mem_operand("8(sp)", 1), Ok((8, 2)));
    assert_eq!(parse_mem_operand("-4( a0 ),", 1), Ok((-4, 10)));
    assert_eq!(parse_mem_operand(" 0x10 (t0)", 1), Ok((16, 5)));
    assert_eq!(parse_mem_operand("4(x1)rest", 1), Ok((4, 1)));
}

#[test]
fn parse_mem_operand_failures() {
    let e = parse_mem_operand("x1", 5).unwrap_err();
    assert_eq!((e.kind, e.line_no, e.token.as_str()), (ErrorKind::MemOperandExpected, 5, "x1"));
    assert_eq!(parse_mem_operand("0(x1", 5).unwrap_err().kind, ErrorKind::MemOperandExpected);
    assert_eq!(parse_mem_operand("0x1)", 5).unwrap_err().kind, ErrorKind::MemOperandExpected);
    assert_eq!(parse_mem_operand(")x1(", 5).unwrap_err().kind, ErrorKind::InvalidMemOperand);
    assert_eq!(parse_mem_operand("q(x1)", 5).unwrap_err().kind, ErrorKind::InvalidImmediate);
    assert_eq!(parse_mem_operand("0(q)", 5).unwrap_err().kind, ErrorKind::UnknownRegister);
    assert_eq!(parse_mem_operand("0()", 5).unwrap_err().kind, ErrorKind::EmptyRegister);
    let e = parse_mem_operand("q(r)", 5).unwrap_err();
    assert_eq!((e.kind, e.token.as_str()), (ErrorKind::InvalidImmediate, "q"));
}

#[test]
fn parse_operands_splits_and_trims() {
    assert_eq!(parse_operands("a0, a1 ,a2"), vec!["a0", "a1", "a2"]);
    assert_eq!(parse_operands(" x1 , 0(x2) "), vec!["x1", "0(x2)"]);
    assert_eq!(parse_operands("a,,b,"), vec!["a", "b"]);
    assert_eq!(parse_operands(""), Vec::<&str>::new());
    assert_eq!(parse_operands(" , ,"), Vec::<&str>::new());
    assert_eq!(parse_operands("one"), vec!["one"]);
}
