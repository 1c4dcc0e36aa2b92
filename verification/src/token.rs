//! The parts of a line: comments, registers, immediates, machine words,
//! memory operands and operand lists.

use vstd::prelude::*;
use vstd::slice::slice_subrange;
use vstd::string::StrSliceExecFns;
use crate::chars::{
    end_of_last, find_end_of_last, find_first, first_index, lower, lower_chars, ranges_within,
    strip_commas, strip_commas_chars, texts_at, trim, trim_bounds, trim_chars,
    without_underscores, without_underscores_chars,
};
use crate::error::{fault, result_view, AsmError, AsmErrorView, ErrorKind};
use crate::number::{all_digits, digits_value, is_number, number_upto, parse_digits, Radix};
use crate::text::{chars_of, same_text, string_of};

verus! {

/// The position of the first `//` in `s`, or `s.len()` where there is none.
pub open spec fn first_slashes(s: Seq<char>) -> int
    decreases s.len(),
{
    if s.len() < 2 {
        s.len() as int
    } else if s[0] == '/' && s[1] == '/' {
        0
    } else {
        1 + first_slashes(s.drop_first())
    }
}

/// Where the comment of a line begins: at its first `#` or its first `//`,
/// whichever comes first, or at its end where it has neither.
pub open spec fn comment_start(s: Seq<char>) -> int {
    if first_index(s, '#') <= first_slashes(s) {
        first_index(s, '#')
    } else {
        first_slashes(s)
    }
}

/// The line `s` without its comment.
pub open spec fn strip_comment_spec(s: Seq<char>) -> Seq<char> {
    s.take(comment_start(s))
}

/// The first `//` of `s` stands at `i` where `i` holds the first one; it
/// is the length of `s` where `s` holds none before `i` and `i` is its last
/// position or its length.
pub proof fn lemma_first_slashes(s: Seq<char>, i: int)
    requires
        0 <= i <= s.len(),
        forall|k: int| 0 <= k < i && k + 1 < s.len() ==> !(#[trigger] s[k] == '/' && s[k + 1] == '/'),
        i + 1 >= s.len() || (s[i] == '/' && s[i + 1] == '/'),
    ensures
        first_slashes(s) == (if i + 1 >= s.len() {
            s.len() as int
        } else {
            i
        }),
    decreases i,
{
    if i > 0 {
        let t = s.drop_first();
        if s.len() >= 2 {
            assert(!(s[0] == '/' && s[1] == '/'));
            assert forall|k: int| 0 <= k < i - 1 && k + 1 < t.len() implies !(#[trigger] t[k] == '/'
                && t[k + 1] == '/') by {
                assert(t[k] == s[k + 1]);
                assert(t[k + 1] == s[k + 2]);
            }
            lemma_first_slashes(t, i - 1);
        }
    }
}

/// Where the comment of the line `s` begins.
pub fn find_comment(s: &[char]) -> (n: usize)
    ensures
        n == comment_start(s@),
        n <= s@.len(),
{
    let hash = find_first(s, '#');
    let mut i: usize = 0;
    while s.len() - i >= 2 && !(s[i] == '/' && s[i + 1] == '/')
        invariant
            i <= s.len(),
            forall|k: int|
                0 <= k < i && k + 1 < s@.len() ==> !(#[trigger] s@[k] == '/' && s@[k + 1] == '/'),
        decreases s.len() - i,
    {
        i += 1;
    }
    proof {
        lemma_first_slashes(s@, i as int);
    }
    let slashes = if s.len() - i >= 2 {
        i
    } else {
        s.len()
    };
    if hash <= slashes {
        hash
    } else {
        slashes
    }
}

/// The line without its comment: what stands before the first `#` or `//`.
pub fn strip_comment(line: &str) -> (r: &str)
    ensures
        r@ == strip_comment_spec(line@),
{
    let chars = chars_of(line);
    let n = find_comment(chars.as_slice());
    proof {
        assert(line@.subrange(0, n as int) =~= line@.take(n as int));
    }
    line.substring_char(0, n)
}

/// The register that the ABI name `name` stands for.
pub open spec fn abi_register(name: Seq<char>) -> Option<u8> {
    if name == "zero"@ {
        Some(0u8)
    } else if name == "ra"@ {
        Some(1u8)
    } else if name == "sp"@ {
        Some(2u8)
    } else if name == "gp"@ {
        Some(3u8)
    } else if name == "tp"@ {
        Some(4u8)
    } else if name == "t0"@ {
        Some(5u8)
    } else if name == "t1"@ {
        Some(6u8)
    } else if name == "t2"@ {
        Some(7u8)
    } else if name == "s0"@ {
        Some(8u8)
    } else if name == "fp"@ {
        Some(8u8)
    } else if name == "s1"@ {
        Some(9u8)
    } else if name == "a0"@ {
        Some(10u8)
    } else if name == "a1"@ {
        Some(11u8)
    } else if name == "a2"@ {
        Some(12u8)
    } else if name == "a3"@ {
        Some(13u8)
    } else if name == "a4"@ {
        Some(14u8)
    } else if name == "a5"@ {
        Some(15u8)
    } else if name == "a6"@ {
        Some(16u8)
    } else if name == "a7"@ {
        Some(17u8)
    } else if name == "s2"@ {
        Some(18u8)
    } else if name == "s3"@ {
        Some(19u8)
    } else if name == "s4"@ {
        Some(20u8)
    } else if name == "s5"@ {
        Some(21u8)
    } else if name == "s6"@ {
        Some(22u8)
    } else if name == "s7"@ {
        Some(23u8)
    } else if name == "s8"@ {
        Some(24u8)
    } else if name == "s9"@ {
        Some(25u8)
    } else if name == "s10"@ {
        Some(26u8)
    } else if name == "s11"@ {
        Some(27u8)
    } else if name == "t3"@ {
        Some(28u8)
    } else if name == "t4"@ {
        Some(29u8)
    } else if name == "t5"@ {
        Some(30u8)
    } else if name == "t6"@ {
        Some(31u8)
    } else {
        None
    }
}

/// A register token as it is looked up: trimmed, without its trailing
/// commas, in lower case.
pub open spec fn register_token(token: Seq<char>) -> Seq<char> {
    lower(strip_commas(trim(token)))
}

/// The register that `token` names.  `x` and decimal digits that denote a
/// number up to 31 name that register; an ABI name names its own.  The failure carries `line_no` and
/// `token` as it was given.
pub open spec fn parse_reg_spec(token: Seq<char>, line_no: usize) -> Result<u8, AsmErrorView> {
    let t = register_token(token);
    if t.len() == 0 {
        Err(fault(line_no, ErrorKind::EmptyRegister, token))
    } else if t[0] == 'x' {
        let digits = t.drop_first();
        if digits.len() == 0 || !all_digits(digits, Radix::Decimal) {
            Err(fault(line_no, ErrorKind::InvalidRegister, token))
        } else if digits_value(digits, Radix::Decimal) > 31 {
            Err(fault(line_no, ErrorKind::RegisterOutOfRange, token))
        } else {
            Ok(digits_value(digits, Radix::Decimal) as u8)
        }
    } else {
        match abi_register(t) {
            Some(r) => Ok(r),
            None => Err(fault(line_no, ErrorKind::UnknownRegister, token)),
        }
    }
}

/// The register that the ABI name `name` stands for.
pub fn abi_register_of(name: &[char]) -> (r: Option<u8>)
    ensures
        r == abi_register(name@),
{
    if same_text(name, "zero") {
        Some(0)
    } else if same_text(name, "ra") {
        Some(1)
    } else if same_text(name, "sp") {
        Some(2)
    } else if same_text(name, "gp") {
        Some(3)
    } else if same_text(name, "tp") {
        Some(4)
    } else if same_text(name, "t0") {
        Some(5)
    } else if same_text(name, "t1") {
        Some(6)
    } else if same_text(name, "t2") {
        Some(7)
    } else if same_text(name, "s0") {
        Some(8)
    } else if same_text(name, "fp") {
        Some(8)
    } else if same_text(name, "s1") {
        Some(9)
    } else if same_text(name, "a0") {
        Some(10)
    } else if same_text(name, "a1") {
        Some(11)
    } else if same_text(name, "a2") {
        Some(12)
    } else if same_text(name, "a3") {
        Some(13)
    } else if same_text(name, "a4") {
        Some(14)
    } else if same_text(name, "a5") {
        Some(15)
    } else if same_text(name, "a6") {
        Some(16)
    } else if same_text(name, "a7") {
        Some(17)
    } else if same_text(name, "s2") {
        Some(18)
    } else if same_text(name, "s3") {
        Some(19)
    } else if same_text(name, "s4") {
        Some(20)
    } else if same_text(name, "s5") {
        Some(21)
    } else if same_text(name, "s6") {
        Some(22)
    } else if same_text(name, "s7") {
        Some(23)
    } else if same_text(name, "s8") {
        Some(24)
    } else if same_text(name, "s9") {
        Some(25)
    } else if same_text(name, "s10") {
        Some(26)
    } else if same_text(name, "s11") {
        Some(27)
    } else if same_text(name, "t3") {
        Some(28)
    } else if same_text(name, "t4") {
        Some(29)
    } else if same_text(name, "t5") {
        Some(30)
    } else if same_text(name, "t6") {
        Some(31)
    } else {
        None
    }
}

/// The register that the characters `token` name.
pub fn reg_of(token: &[char], line_no: usize) -> (r: Result<u8, AsmError>)
    ensures
        result_view(r) == parse_reg_spec(token@, line_no),
        r matches Ok(n) ==> n <= 31,
{
    let t = lower_chars(strip_commas_chars(trim_chars(token)));
    if t.len() == 0 {
        return Err(AsmError::new(line_no, ErrorKind::EmptyRegister, string_of(token)));
    }
    if t[0] == 'x' {
        proof {
            assert(t@.subrange(1, t@.len() as int) =~= t@.drop_first());
        }
        let digits = slice_subrange(t.as_slice(), 1, t.len());
        if !is_number(digits, Radix::Decimal) {
            return Err(AsmError::new(line_no, ErrorKind::InvalidRegister, string_of(token)));
        }
        return match parse_digits(digits, Radix::Decimal, 31) {
            None => Err(AsmError::new(line_no, ErrorKind::RegisterOutOfRange, string_of(token))),
            Some(n) => Ok(n as u8),
        };
    }
    match abi_register_of(t.as_slice()) {
        Some(r) => Ok(r),
        None => Err(AsmError::new(line_no, ErrorKind::UnknownRegister, string_of(token))),
    }
}

/// The register that `token` names: `x0` to `x31`, or an ABI name, in
/// either case of letters.
pub fn parse_reg(token: &str, line_no: usize) -> (r: Result<u8, AsmError>)
    ensures
        result_view(r) == parse_reg_spec(token@, line_no),
        r matches Ok(n) ==> n <= 31,
{
    let chars = chars_of(token);
    reg_of(chars.as_slice(), line_no)
}

/// An immediate token as it is read: trimmed, without its trailing commas
/// and without underscores.
pub open spec fn immediate_token(token: Seq<char>) -> Seq<char> {
    without_underscores(strip_commas(trim(token)))
}

/// Whether `s` begins with `0x` or `0X`.
pub open spec fn has_hex_prefix(s: Seq<char>) -> bool {
    s.len() >= 2 && s[0] == '0' && (s[1] == 'x' || s[1] == 'X')
}

/// The number that `s` denotes: hexadecimal digits behind `0x` or `0X`, else
/// decimal digits, in either case at least one digit, nothing else, and a
/// number that fits in 64 bits with a sign.
pub open spec fn magnitude(s: Seq<char>) -> Option<int> {
    if has_hex_prefix(s) {
        number_upto(s.skip(2), Radix::Hex, i64::MAX as int)
    } else {
        number_upto(s, Radix::Decimal, i64::MAX as int)
    }
}

/// The signed 32-bit value that `token` denotes: one optional `-`, then a
/// decimal number or `0x` and a hexadecimal one, the sign applied to the
/// number.  The failure carries `line_no` and `token` as it was given.
pub open spec fn parse_i32_spec(token: Seq<char>, line_no: usize) -> Result<i32, AsmErrorView> {
    let t = immediate_token(token);
    if t.len() == 0 {
        Err(fault(line_no, ErrorKind::EmptyImmediate, token))
    } else {
        let negative = t[0] == '-';
        let s = if negative {
            t.drop_first()
        } else {
            t
        };
        match magnitude(s) {
            None => if has_hex_prefix(s) {
                Err(fault(line_no, ErrorKind::InvalidHexImmediate, token))
            } else {
                Err(fault(line_no, ErrorKind::InvalidImmediate, token))
            },
            Some(m) => {
                let v = if negative {
                    -m
                } else {
                    m
                };
                if i32::MIN <= v <= i32::MAX {
                    Ok(v as i32)
                } else {
                    Err(fault(line_no, ErrorKind::ImmediateOutOfRange, token))
                }
            },
        }
    }
}

/// Whether `s` begins with `0x` or `0X`.
fn starts_with_hex_prefix(s: &[char]) -> (r: bool)
    ensures
        r == has_hex_prefix(s@),
{
    s.len() >= 2 && s[0] == '0' && (s[1] == 'x' || s[1] == 'X')
}

/// The signed 32-bit value that the characters `token` denote.
pub fn imm_of(token: &[char], line_no: usize) -> (r: Result<i32, AsmError>)
    ensures
        result_view(r) == parse_i32_spec(token@, line_no),
{
    let t = without_underscores_chars(strip_commas_chars(trim_chars(token)));
    if t.len() == 0 {
        return Err(AsmError::new(line_no, ErrorKind::EmptyImmediate, string_of(token)));
    }
    let negative = t[0] == '-';
    let s = if negative {
        slice_subrange(t.as_slice(), 1, t.len())
    } else {
        t.as_slice()
    };
    proof {
        assert(t@.subrange(1, t@.len() as int) =~= t@.drop_first());
        assert(s@.subrange(2, s@.len() as int) =~= s@.skip(2));
    }
    let hex = starts_with_hex_prefix(s);
    let parsed = if hex {
        parse_digits(slice_subrange(s, 2, s.len()), Radix::Hex, 0x7fff_ffff_ffff_ffff)
    } else {
        parse_digits(s, Radix::Decimal, 0x7fff_ffff_ffff_ffff)
    };
    match parsed {
        None => if hex {
            Err(AsmError::new(line_no, ErrorKind::InvalidHexImmediate, string_of(token)))
        } else {
            Err(AsmError::new(line_no, ErrorKind::InvalidImmediate, string_of(token)))
        },
        Some(m) => {
            if negative {
                if m > 0x8000_0000 {
                    Err(AsmError::new(line_no, ErrorKind::ImmediateOutOfRange, string_of(token)))
                } else {
                    Ok((-(m as i64)) as i32)
                }
            } else {
                if m > 0x7fff_ffff {
                    Err(AsmError::new(line_no, ErrorKind::ImmediateOutOfRange, string_of(token)))
                } else {
                    Ok(m as i32)
                }
            }
        },
    }
}

/// The signed 32-bit value that `token` denotes, in decimal or, behind
/// `0x`, in hexadecimal; underscores between the digits are passed over.
pub fn parse_i32(token: &str, line_no: usize) -> (r: Result<i32, AsmError>)
    ensures
        result_view(r) == parse_i32_spec(token@, line_no),
{
    let chars = chars_of(token);
    imm_of(chars.as_slice(), line_no)
}

/// The machine word that the text `line` denotes, if it is nothing but one
/// number that fits in 32 bits: decimal digits, or `0x` and hexadecimal
/// digits, without a sign.
pub open spec fn parse_u32_word_spec(line: Seq<char>) -> Option<u32> {
    let t = without_underscores(trim(line));
    let value = if has_hex_prefix(t) {
        number_upto(t.skip(2), Radix::Hex, u32::MAX as int)
    } else {
        number_upto(t, Radix::Decimal, u32::MAX as int)
    };
    match value {
        Some(v) => Some(v as u32),
        None => None,
    }
}

/// The machine word that the characters `line` denote, if they are one.
pub fn word_of(line: &[char]) -> (r: Option<u32>)
    ensures
        r == parse_u32_word_spec(line@),
{
    let t = without_underscores_chars(trim_chars(line));
    proof {
        assert(t@.subrange(2, t@.len() as int) =~= t@.skip(2));
    }
    let parsed = if starts_with_hex_prefix(t.as_slice()) {
        parse_digits(slice_subrange(t.as_slice(), 2, t.len()), Radix::Hex, 0xffff_ffff)
    } else {
        parse_digits(t.as_slice(), Radix::Decimal, 0xffff_ffff)
    };
    match parsed {
        Some(v) => Some(v as u32),
        None => None,
    }
}

/// The machine word that `line` denotes, if it is nothing but one number
/// that fits in 32 bits, in decimal digits or `0x` and hexadecimal ones.
pub fn parse_u32_word(line: &str) -> (r: Option<u32>)
    ensures
        r == parse_u32_word_spec(line@),
{
    let chars = chars_of(line);
    word_of(chars.as_slice())
}

/// The offset and the base register of the memory operand `token`, which
/// has the shape `offset(register)`; an absent offset is 0.  The text
/// behind the last `)` is passed over.
pub open spec fn parse_mem_operand_spec(token: Seq<char>, line_no: usize) -> Result<
    (i32, u8),
    AsmErrorView,
> {
    let t = strip_commas(trim(token));
    let open = first_index(t, '(');
    let close = end_of_last(t, ')') - 1;
    if open == t.len() || close < 0 {
        Err(fault(line_no, ErrorKind::MemOperandExpected, token))
    } else if close <= open {
        Err(fault(line_no, ErrorKind::InvalidMemOperand, token))
    } else {
        let offset_text = trim(t.take(open));
        let base_text = trim(t.subrange(open + 1, close));
        let offset = if offset_text.len() == 0 {
            Ok(0i32)
        } else {
            parse_i32_spec(offset_text, line_no)
        };
        match offset {
            Err(e) => Err(e),
            Ok(off) => match parse_reg_spec(base_text, line_no) {
                Err(e) => Err(e),
                Ok(base) => Ok((off, base)),
            },
        }
    }
}

/// The offset and the base register of the memory operand that the
/// characters `token` hold.
pub fn mem_operand_of(token: &[char], line_no: usize) -> (r: Result<(i32, u8), AsmError>)
    ensures
        result_view(r) == parse_mem_operand_spec(token@, line_no),
        r matches Ok(pair) ==> pair.1 <= 31,
{
    let t = strip_commas_chars(trim_chars(token));
    let open = find_first(t, '(');
    let close_end = find_end_of_last(t, ')');
    if open == t.len() || close_end == 0 {
        return Err(AsmError::new(line_no, ErrorKind::MemOperandExpected, string_of(token)));
    }
    let close = close_end - 1;
    if close <= open {
        return Err(AsmError::new(line_no, ErrorKind::InvalidMemOperand, string_of(token)));
    }
    proof {
        assert(t@.subrange(0, open as int) =~= t@.take(open as int));
    }
    let offset_text = trim_chars(slice_subrange(t, 0, open));
    let base_text = trim_chars(slice_subrange(t, open + 1, close));
    let off = if offset_text.len() == 0 {
        0
    } else {
        match imm_of(offset_text, line_no) {
            Ok(v) => v,
            Err(e) => {
                return Err(e);
            },
        }
    };
    match reg_of(base_text, line_no) {
        Ok(base) => Ok((off, base)),
        Err(e) => Err(e),
    }
}

/// The offset and the base register of the memory operand `token`, such as
/// `8(sp)` or `(x1)`.
pub fn parse_mem_operand(token: &str, line_no: usize) -> (r: Result<(i32, u8), AsmError>)
    ensures
        result_view(r) == parse_mem_operand_spec(token@, line_no),
        r matches Ok(pair) ==> pair.1 <= 31,
{
    let chars = chars_of(token);
    mem_operand_of(chars.as_slice(), line_no)
}

/// The operands in `s`: the pieces between its commas, each trimmed, the
/// empty ones left out.
pub open spec fn operands(s: Seq<char>) -> Seq<Seq<char>>
    decreases s.len(),
{
    let i = first_index(s, ',');
    let piece = trim(s.take(i));
    let head = if piece.len() > 0 {
        seq![piece]
    } else {
        Seq::empty()
    };
    if 0 <= i < s.len() {
        head + operands(s.skip(i + 1))
    } else {
        head
    }
}

/// Where in `s` each of its operands begins and ends.
pub fn operand_ranges(s: &[char]) -> (out: Vec<(usize, usize)>)
    ensures
        ranges_within(out@, s@.len()),
        texts_at(out@, s@) == operands(s@),
{
    let mut out: Vec<(usize, usize)> = Vec::new();
    let mut start: usize = 0;
    proof {
        assert(s@.skip(0) =~= s@);
        assert(texts_at(out@, s@) + operands(s@) =~= operands(s@));
    }
    loop
        invariant_except_break
            texts_at(out@, s@) + operands(s@.skip(start as int)) == operands(s@),
        invariant
            start <= s.len(),
            ranges_within(out@, s@.len()),
        ensures
            ranges_within(out@, s@.len()),
            texts_at(out@, s@) == operands(s@),
        decreases s.len() - start,
    {
        let rest = slice_subrange(s, start, s.len());
        let i = find_first(rest, ',');
        let (a, b) = trim_bounds(slice_subrange(rest, 0, i));
        let ghost before = out@;
        let ghost piece = trim(rest@.take(i as int));
        proof {
            assert(rest@ =~= s@.skip(start as int));
            assert(rest@.subrange(0, i as int) =~= rest@.take(i as int));
            assert(rest@.take(i as int).subrange(a as int, b as int) =~= s@.subrange(
                start + a,
                start + b,
            ));
        }
        if a < b {
            out.push((start + a, start + b));
            proof {
                assert(texts_at(out@, s@) =~= texts_at(before, s@) + seq![piece]);
            }
        }
        let ghost head = if piece.len() > 0 {
            seq![piece]
        } else {
            Seq::empty()
        };
        proof {
            assert(texts_at(out@, s@) =~= texts_at(before, s@) + head);
        }
        if i < rest.len() {
            proof {
                assert(rest@.skip(i + 1) =~= s@.skip(start + i + 1));
                assert(texts_at(out@, s@) + operands(s@.skip(start + i + 1)) =~= texts_at(
                    before,
                    s@,
                ) + (head + operands(rest@.skip(i + 1))));
            }
            start = start + i + 1;
        } else {
            proof {
                assert(operands(rest@) == head);
            }
            break ;
        }
    }
    out
}

/// The texts that the string slices `parts` hold.
pub open spec fn texts_of(parts: Seq<&str>) -> Seq<Seq<char>> {
    Seq::new(parts.len(), |k: int| parts[k]@)
}

/// The operands in `rest`: the pieces between its commas, each trimmed, the
/// empty ones left out.
pub fn parse_operands(rest: &str) -> (out: Vec<&str>)
    ensures
        texts_of(out@) == operands(rest@),
{
    let chars = chars_of(rest);
    let ranges = operand_ranges(chars.as_slice());
    let mut out: Vec<&str> = Vec::new();
    let mut k: usize = 0;
    while k < ranges.len()
        invariant
            k <= ranges.len(),
            chars@ == rest@,
            ranges_within(ranges@, rest@.len()),
            texts_of(out@) == texts_at(ranges@, rest@).take(k as int),
        decreases ranges.len() - k,
    {
        let (a, b) = ranges[k];
        let ghost before = out@;
        out.push(rest.substring_char(a, b));
        proof {
            assert(texts_of(out@) =~= texts_of(before).push(rest@.subrange(a as int, b as int)));
            assert(texts_at(ranges@, rest@).take(k + 1) =~= texts_at(ranges@, rest@).take(
                k as int,
            ).push(rest@.subrange(a as int, b as int)));
        }
        k += 1;
    }
    proof {
        assert(texts_at(ranges@, rest@).take(ranges@.len() as int) =~= texts_at(ranges@, rest@));
    }
    out
}

} // verus!
