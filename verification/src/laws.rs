//! What holds of the assembler for every input.

use vstd::prelude::*;
use crate::assemble::{
    after_line, assemble_lines, assemble_spec, displacement, first_pass, labels_within,
    program_fits, raw_word_on, resolve_entry_spec, resolve_spec, PassOne, MAX_PROGRAM_LEN,
};
use crate::chars::{
    first_index, is_space, join_blank, lemma_first_index, lemma_trim_start_skip,
    lemma_word_len, lines_of, lower, squeeze, strip_commas, trim, trim_end, trim_start,
    without_underscores, word_len,
};
use crate::error::{fault, AsmErrorView, ErrorKind};
use crate::error::Mnemonic;
use crate::instr::{AluOp, BranchCondition, Instruction, PendingInstrView, PendingLineView};
use crate::line::{
    defined_label, entry_of, has_label, is_passed_over, line_text, mnemonic_of, opcode_text,
    operand_texts, parse_instruction_spec, parse_line_spec, parse_statement_spec,
    statement_text, takes_operands, StatementView,
};
use crate::number::{
    digit_value, digits_of, is_digit_char, lemma_digits_of, number_upto, Radix,
};
use crate::token::{
    abi_register, comment_start, has_hex_prefix, immediate_token, lemma_first_slashes,
    magnitude, operands, parse_i32_spec, parse_reg_spec, parse_u32_word_spec, register_token,
    strip_comment_spec,
};
use crate::word::{accept_raw_word_spec, le_bytes, DecodedView};

verus! {

/// `v` without its sign.
pub open spec fn absolute(v: int) -> nat {
    if v < 0 {
        (-v) as nat
    } else {
        v as nat
    }
}

/// The literal with the sign `negative` for the number `size`: a `-` where
/// `negative` holds, `0x` where the radix is hexadecimal, then the digits
/// of `size`; the `X` and the letters among the digits are capital where
/// `capital` holds.
pub open spec fn literal(negative: bool, size: nat, radix: Radix, capital: bool) -> Seq<char> {
    let sign = if negative {
        seq!['-']
    } else {
        Seq::empty()
    };
    let prefix = if radix == Radix::Hex {
        if capital {
            seq!['0', 'X']
        } else {
            seq!['0', 'x']
        }
    } else {
        Seq::empty()
    };
    sign + prefix + digits_of(size, radix, capital)
}

/// The literal that denotes `v`, in small letters: a `-` where `v` is
/// negative, `0x` where the radix is hexadecimal, then the digits of `v`
/// without its sign.
pub open spec fn literal_of(v: int, radix: Radix) -> Seq<char> {
    literal(v < 0, absolute(v), radix, false)
}

/// Whether `c` can stand in a literal: a digit, a letter from `a` to `f`,
/// `x` or `-`, the letters small or capital.
pub open spec fn is_literal_char(c: char) -> bool {
    is_digit_char(c) || c == 'x' || c == 'X' || c == '-'
}

/// A text is left as it is where it holds no underscore.
pub proof fn lemma_without_underscores_same(s: Seq<char>)
    requires
        forall|i: int| 0 <= i < s.len() ==> #[trigger] s[i] != '_',
    ensures
        without_underscores(s) == s,
    decreases s.len(),
{
    if s.len() > 0 {
        lemma_without_underscores_same(s.drop_last());
        assert(s.drop_last().push(s.last()) =~= s);
    }
}

/// A text made of the characters of literals is read as it stands: nothing
/// is trimmed from it and nothing taken out of it.
pub proof fn lemma_literal_text_kept(s: Seq<char>)
    requires
        forall|i: int| 0 <= i < s.len() ==> is_literal_char(#[trigger] s[i]),
    ensures
        trim(s) == s,
        strip_commas(s) == s,
        without_underscores(s) == s,
        immediate_token(s) == s,
{
    if s.len() > 0 {
        assert(is_literal_char(s[0]));
        assert(is_literal_char(s[s.len() - 1]));
        assert(!is_space(s[0]));
        assert(!is_space(s.last()));
    }
    assert(trim_start(s) == s);
    assert(trim_end(s) == s);
    assert forall|i: int| 0 <= i < s.len() implies #[trigger] s[i] != '_' by {
        assert(is_literal_char(s[i]));
    }
    lemma_without_underscores_same(s);
}

/// A literal reads as the number it was written for, with its sign: for
/// every number that fits in 64 bits with a sign, in decimal and in
/// hexadecimal, in small letters and in capitals, with a `-` and without,
/// the literal reads as that value where it fits in 32 bits with a sign,
/// and fails as out of range where it does not.
pub proof fn lemma_literal_read(
    negative: bool,
    size: nat,
    radix: Radix,
    capital: bool,
    line_no: usize,
)
    requires
        size <= i64::MAX,
    ensures
        parse_i32_spec(literal(negative, size, radix, capital), line_no) == ({
            let v = if negative {
                -(size as int)
            } else {
                size as int
            };
            if i32::MIN <= v <= i32::MAX {
                Ok::<i32, AsmErrorView>(v as i32)
            } else {
                Err::<i32, AsmErrorView>(
                    fault(
                        line_no,
                        ErrorKind::ImmediateOutOfRange,
                        literal(negative, size, radix, capital),
                    ),
                )
            }
        }),
{
    let t = literal(negative, size, radix, capital);
    let digits = digits_of(size, radix, capital);
    lemma_digits_of(size, radix, capital);
    let sign = if negative {
        seq!['-']
    } else {
        Seq::<char>::empty()
    };
    let prefix = if radix == Radix::Hex {
        if capital {
            seq!['0', 'X']
        } else {
            seq!['0', 'x']
        }
    } else {
        Seq::<char>::empty()
    };
    assert(t == sign + prefix + digits);
    assert forall|i: int| 0 <= i < t.len() implies is_literal_char(#[trigger] t[i]) by {
        if i < sign.len() {
            assert(t[i] == '-');
        } else if i < sign.len() + prefix.len() {
            assert(t[i] == prefix[i - sign.len()]);
        } else {
            assert(t[i] == digits[i - sign.len() - prefix.len()]);
            assert(is_digit_char(digits[i - sign.len() - prefix.len()]));
        }
    }
    lemma_literal_text_kept(t);
    assert(t.len() > 0);
    let s = if t[0] == '-' {
        t.drop_first()
    } else {
        t
    };
    assert(is_digit_char(digits[0]));
    if negative {
        assert(t[0] == '-');
        assert(s =~= prefix + digits);
    } else {
        if radix == Radix::Hex {
            assert(t[0] == '0');
        } else {
            assert(t[0] == digits[0]);
        }
        assert(s =~= prefix + digits);
    }
    if radix == Radix::Hex {
        assert(s[0] == '0' && (s[1] == 'x' || s[1] == 'X'));
        assert(has_hex_prefix(s));
        assert(s.skip(2) =~= digits);
    } else {
        assert(s == digits);
        if s.len() >= 2 {
            assert(is_digit_char(s[1]));
        }
        assert(!has_hex_prefix(s));
    }
    assert(magnitude(s) == Some(size as int));
}

/// Reading the literal of a value gives the value back: for every `v` that
/// fits in 64 bits with a sign, as does `-v`, in decimal and in
/// hexadecimal, the literal of `v` reads as `v` where `v` fits in 32 bits
/// with a sign, and fails as out of range where it does not.
pub proof fn lemma_immediate_round_trip(v: int, radix: Radix, line_no: usize)
    requires
        -0x7fff_ffff_ffff_ffff <= v <= 0x7fff_ffff_ffff_ffff,
    ensures
        parse_i32_spec(literal_of(v, radix), line_no) == (if i32::MIN <= v <= i32::MAX {
            Ok::<i32, AsmErrorView>(v as i32)
        } else {
            Err::<i32, AsmErrorView>(
                fault(line_no, ErrorKind::ImmediateOutOfRange, literal_of(v, radix)),
            )
        }),
{
    lemma_literal_read(v < 0, absolute(v), radix, false, line_no);
}

/// A sign is no part of a number: a text that begins with `+` or `-` is no
/// number, whatever follows.
pub proof fn lemma_no_sign_in_number(s: Seq<char>, radix: Radix, max: int)
    requires
        s.len() > 0,
        s[0] == '+' || s[0] == '-',
    ensures
        number_upto(s, radix, max) is None,
{
    assert(digit_value(s[0], radix) is None);
}

/// An immediate takes one `-` before it and no other sign: a second `-`, a
/// `+`, or a sign behind `0x` fails as malformed, whatever follows.
pub proof fn lemma_immediate_takes_one_sign(rest: Seq<char>, line_no: usize)
    requires
        forall|i: int| 0 <= i < rest.len() ==> is_literal_char(#[trigger] rest[i]),
        rest.len() > 0,
    ensures
        parse_i32_spec(seq!['+'] + rest, line_no) == Err::<i32, AsmErrorView>(
            fault(line_no, ErrorKind::InvalidImmediate, seq!['+'] + rest),
        ),
        parse_i32_spec(seq!['-', '-'] + rest, line_no) == Err::<i32, AsmErrorView>(
            fault(line_no, ErrorKind::InvalidImmediate, seq!['-', '-'] + rest),
        ),
        parse_i32_spec(seq!['0', 'x', '-'] + rest, line_no) == Err::<i32, AsmErrorView>(
            fault(line_no, ErrorKind::InvalidHexImmediate, seq!['0', 'x', '-'] + rest),
        ),
{
    let last = rest[rest.len() - 1];
    assert(is_literal_char(last));
    let plus = seq!['+'] + rest;
    assert(plus[0] == '+');
    assert(plus.last() == last);
    assert forall|i: int| 0 <= i < plus.len() implies #[trigger] plus[i] != '_' by {
        if i > 0 {
            assert(plus[i] == rest[i - 1]);
            assert(is_literal_char(rest[i - 1]));
        }
    }
    lemma_without_underscores_same(plus);
    assert(trim_start(plus) == plus);
    assert(trim_end(plus) == plus);
    assert(strip_commas(plus) == plus);
    assert(immediate_token(plus) == plus);
    assert(!has_hex_prefix(plus));
    lemma_no_sign_in_number(plus, Radix::Decimal, i64::MAX as int);

    let twice = seq!['-', '-'] + rest;
    assert(twice[0] == '-' && twice[1] == '-');
    assert(twice.last() == last);
    assert forall|i: int| 0 <= i < twice.len() implies #[trigger] twice[i] != '_' by {
        if i > 1 {
            assert(twice[i] == rest[i - 2]);
            assert(is_literal_char(rest[i - 2]));
        }
    }
    lemma_without_underscores_same(twice);
    assert(trim_start(twice) == twice);
    assert(trim_end(twice) == twice);
    assert(strip_commas(twice) == twice);
    assert(immediate_token(twice) == twice);
    let behind = twice.drop_first();
    assert(behind[0] == '-');
    assert(!has_hex_prefix(behind));
    lemma_no_sign_in_number(behind, Radix::Decimal, i64::MAX as int);

    let hex = seq!['0', 'x', '-'] + rest;
    assert(hex[0] == '0' && hex[1] == 'x' && hex[2] == '-');
    assert(hex.last() == last);
    assert forall|i: int| 0 <= i < hex.len() implies #[trigger] hex[i] != '_' by {
        if i > 2 {
            assert(hex[i] == rest[i - 3]);
            assert(is_literal_char(rest[i - 3]));
        }
    }
    lemma_without_underscores_same(hex);
    assert(trim_start(hex) == hex);
    assert(trim_end(hex) == hex);
    assert(strip_commas(hex) == hex);
    assert(immediate_token(hex) == hex);
    assert(has_hex_prefix(hex));
    assert(hex.skip(2)[0] == '-');
    lemma_no_sign_in_number(hex.skip(2), Radix::Hex, i64::MAX as int);
}

/// A register by number takes no sign: `x`, a `+` or a `-`, and digits is
/// no register.
pub proof fn lemma_register_takes_no_sign(sign: char, digits: Seq<char>, line_no: usize)
    requires
        sign == '+' || sign == '-',
        forall|i: int| 0 <= i < digits.len() ==> '0' <= (#[trigger] digits[i]) <= '9',
    ensures
        parse_reg_spec(seq!['x', sign] + digits, line_no) == Err::<u8, AsmErrorView>(
            fault(line_no, ErrorKind::InvalidRegister, seq!['x', sign] + digits),
        ),
{
    let t = seq!['x', sign] + digits;
    assert(t[0] == 'x' && t[1] == sign);
    assert forall|i: int| 0 <= i < t.len() implies !is_space(#[trigger] t[i]) && t[i] != ','
        && lower(t)[i] == t[i] by {
        if i >= 2 {
            assert(t[i] == digits[i - 2]);
        }
    }
    assert(!is_space(t.last()));
    assert(trim_start(t) == t);
    assert(trim_end(t) == t);
    assert(strip_commas(t) == t);
    assert(lower(t) =~= t);
    assert(register_token(t) == t);
    assert(t.drop_first()[0] == sign);
    assert(digit_value(t.drop_first()[0], Radix::Decimal) is None);
}

/// A machine word takes no sign: a `+` or a `-` and digits is no machine
/// word, in decimal or behind `0x`.
pub proof fn lemma_word_takes_no_sign(sign: char, digits: Seq<char>)
    requires
        sign == '+' || sign == '-',
        forall|i: int| 0 <= i < digits.len() ==> is_digit_char(#[trigger] digits[i]),
    ensures
        parse_u32_word_spec(seq![sign] + digits) is None,
        parse_u32_word_spec(seq!['0', 'x', sign] + digits) is None,
{
    let t = seq![sign] + digits;
    assert(t[0] == sign);
    assert forall|i: int| 0 <= i < t.len() implies !is_space(#[trigger] t[i]) && t[i] != '_' by {
        if i >= 1 {
            assert(t[i] == digits[i - 1]);
            assert(is_digit_char(digits[i - 1]));
        }
    }
    assert(!is_space(t.last()));
    assert(trim_start(t) == t);
    assert(trim_end(t) == t);
    lemma_without_underscores_same(t);
    assert(!has_hex_prefix(t));
    lemma_no_sign_in_number(t, Radix::Decimal, u32::MAX as int);

    let h = seq!['0', 'x', sign] + digits;
    assert(h[0] == '0' && h[1] == 'x' && h[2] == sign);
    assert forall|i: int| 0 <= i < h.len() implies !is_space(#[trigger] h[i]) && h[i] != '_' by {
        if i >= 3 {
            assert(h[i] == digits[i - 3]);
            assert(is_digit_char(digits[i - 3]));
        }
    }
    assert(!is_space(h.last()));
    assert(trim_start(h) == h);
    assert(trim_end(h) == h);
    lemma_without_underscores_same(h);
    assert(has_hex_prefix(h));
    assert(h.skip(2)[0] == sign);
    lemma_no_sign_in_number(h.skip(2), Radix::Hex, u32::MAX as int);
}

/// The name of register `n` by its number: `x` and the decimal digits of
/// `n`.
pub open spec fn numeric_name(n: u8) -> Seq<char> {
    seq!['x'] + digits_of(n as nat, Radix::Decimal, false)
}

/// The ABI name of register `n`; register 8 has a second one, `fp`.
pub open spec fn abi_name(n: u8) -> Seq<char>
    recommends
        n <= 31,
{
    if n == 0 {
        "zero"@
    } else if n == 1 {
        "ra"@
    } else if n == 2 {
        "sp"@
    } else if n == 3 {
        "gp"@
    } else if n == 4 {
        "tp"@
    } else if n == 5 {
        "t0"@
    } else if n == 6 {
        "t1"@
    } else if n == 7 {
        "t2"@
    } else if n == 8 {
        "s0"@
    } else if n == 9 {
        "s1"@
    } else if n == 10 {
        "a0"@
    } else if n == 11 {
        "a1"@
    } else if n == 12 {
        "a2"@
    } else if n == 13 {
        "a3"@
    } else if n == 14 {
        "a4"@
    } else if n == 15 {
        "a5"@
    } else if n == 16 {
        "a6"@
    } else if n == 17 {
        "a7"@
    } else if n == 18 {
        "s2"@
    } else if n == 19 {
        "s3"@
    } else if n == 20 {
        "s4"@
    } else if n == 21 {
        "s5"@
    } else if n == 22 {
        "s6"@
    } else if n == 23 {
        "s7"@
    } else if n == 24 {
        "s8"@
    } else if n == 25 {
        "s9"@
    } else if n == 26 {
        "s10"@
    } else if n == 27 {
        "s11"@
    } else if n == 28 {
        "t3"@
    } else if n == 29 {
        "t4"@
    } else if n == 30 {
        "t5"@
    } else {
        "t6"@
    }
}

/// Whether `c` is a lower-case letter or a decimal digit.
pub open spec fn is_name_char(c: char) -> bool {
    'a' <= c <= 'z' || '0' <= c <= '9'
}

/// A register token made of lower-case letters and digits is looked up as
/// it stands.
pub proof fn lemma_register_token_kept(s: Seq<char>)
    requires
        forall|i: int| 0 <= i < s.len() ==> is_name_char(#[trigger] s[i]),
    ensures
        register_token(s) == s,
{
    if s.len() > 0 {
        assert(is_name_char(s[0]));
        assert(is_name_char(s[s.len() - 1]));
        assert(!is_space(s[0]));
        assert(!is_space(s.last()));
    }
    assert(trim_start(s) == s);
    assert(trim_end(s) == s);
    assert(strip_commas(s) == s);
    assert forall|i: int| 0 <= i < s.len() implies lower(s)[i] == s[i] by {
        assert(is_name_char(s[i]));
    }
    assert(lower(s) =~= s);
}

/// The spellings of a register agree: for every `n` up to 31, the name by
/// number and the ABI name both read as `n`, and `fp` reads as 8.
pub proof fn lemma_register_spellings_agree(n: u8, line_no: usize)
    requires
        n <= 31,
    ensures
        parse_reg_spec(numeric_name(n), line_no) == Ok::<u8, AsmErrorView>(n),
        parse_reg_spec(abi_name(n), line_no) == Ok::<u8, AsmErrorView>(n),
        parse_reg_spec("fp"@, line_no) == Ok::<u8, AsmErrorView>(8),
{
    lemma_numeric_name_reads(n, line_no);
    lemma_abi_name_reads(n, line_no);
}

proof fn lemma_numeric_name_reads(n: u8, line_no: usize)
    requires
        n <= 31,
    ensures
        parse_reg_spec(numeric_name(n), line_no) == Ok::<u8, AsmErrorView>(n),
{
    let digits = digits_of(n as nat, Radix::Decimal, false);
    let t = numeric_name(n);
    lemma_digits_of(n as nat, Radix::Decimal, false);
    assert forall|i: int| 0 <= i < t.len() implies is_name_char(#[trigger] t[i]) by {
        if i > 0 {
            assert(t[i] == digits[i - 1]);
            assert(is_digit_char(digits[i - 1]));
            assert(digit_value(digits[i - 1], Radix::Decimal) is Some);
        }
    }
    lemma_register_token_kept(t);
    assert(t[0] == 'x');
    assert(t.drop_first() =~= digits);
}

proof fn lemma_abi_name_reads(n: u8, line_no: usize)
    requires
        n <= 31,
    ensures
        parse_reg_spec(abi_name(n), line_no) == Ok::<u8, AsmErrorView>(n),
        parse_reg_spec("fp"@, line_no) == Ok::<u8, AsmErrorView>(8),
{
    reveal_strlit("zero");
    reveal_strlit("ra");
    reveal_strlit("sp");
    reveal_strlit("gp");
    reveal_strlit("tp");
    reveal_strlit("t0");
    reveal_strlit("t1");
    reveal_strlit("t2");
    reveal_strlit("s0");
    reveal_strlit("s1");
    reveal_strlit("a0");
    reveal_strlit("a1");
    reveal_strlit("a2");
    reveal_strlit("a3");
    reveal_strlit("a4");
    reveal_strlit("a5");
    reveal_strlit("a6");
    reveal_strlit("a7");
    reveal_strlit("s2");
    reveal_strlit("s3");
    reveal_strlit("s4");
    reveal_strlit("s5");
    reveal_strlit("s6");
    reveal_strlit("s7");
    reveal_strlit("s8");
    reveal_strlit("s9");
    reveal_strlit("s10");
    reveal_strlit("s11");
    reveal_strlit("t3");
    reveal_strlit("t4");
    reveal_strlit("t5");
    reveal_strlit("t6");
    reveal_strlit("fp");
    let t = abi_name(n);
    lemma_register_token_kept(t);
    lemma_register_token_kept("fp"@);
    assert(t.len() >= 2);
    assert(t[0] != 'x');
    assert(abi_register(t) == Some(n));
    assert(abi_register("fp"@) == Some(8u8));
}

/// A raw machine word is taken where it encodes back to itself, and only
/// there: the decision on a word is the instruction that it encodes if and
/// only if the decoder accepted it and the encoder gave back its four
/// bytes, least significant first.
pub proof fn lemma_raw_word_taken_iff_round_trip(
    line_no: usize,
    text: Seq<char>,
    word: u32,
    decoded: DecodedView,
)
    ensures
        accept_raw_word_spec(line_no, text, word, decoded) is Ok <==> decoded
            == (DecodedView::Reencoded { bytes: le_bytes(word) }),
        accept_raw_word_spec(line_no, text, word, decoded) is Ok ==> accept_raw_word_spec(
            line_no,
            text,
            word,
            decoded,
        ) == Ok::<Instruction, AsmErrorView>(Instruction::Word { word }),
{
}

/// A line that holds nothing but the literal of a machine word asks for
/// the decoding of that word, and defines no label.
pub proof fn lemma_word_line_read(word: u32, radix: Radix, capital: bool, line_no: usize)
    ensures
        parse_line_spec(literal(false, word as nat, radix, capital), line_no) == Ok::<
            StatementView,
            AsmErrorView,
        >(StatementView::RawWord { word, text: literal(false, word as nat, radix, capital) }),
        defined_label(literal(false, word as nat, radix, capital)) is None,
{
    let t = literal(false, word as nat, radix, capital);
    let digits = digits_of(word as nat, radix, capital);
    lemma_digits_of(word as nat, radix, capital);
    let prefix = if radix == Radix::Hex {
        if capital {
            seq!['0', 'X']
        } else {
            seq!['0', 'x']
        }
    } else {
        Seq::<char>::empty()
    };
    assert(t =~= prefix + digits);
    assert forall|i: int| 0 <= i < t.len() implies is_literal_char(#[trigger] t[i]) && t[i] != '-' by {
        if i < prefix.len() {
            assert(t[i] == prefix[i]);
        } else {
            assert(t[i] == digits[i - prefix.len()]);
            assert(is_digit_char(digits[i - prefix.len()]));
        }
    }
    lemma_literal_text_kept(t);
    assert forall|k: int| 0 <= k < t.len() implies #[trigger] t[k] != '#' by {
        assert(is_literal_char(t[k]));
    }
    assert forall|k: int| 0 <= k < t.len() implies #[trigger] t[k] != ':' by {
        assert(is_literal_char(t[k]));
    }
    assert forall|k: int| 0 <= k < t.len() - 1 && k + 1 < t.len() implies !(#[trigger] t[k] == '/'
        && t[k + 1] == '/') by {
        assert(is_literal_char(t[k]));
    }
    lemma_first_index(t, '#', t.len() as int);
    lemma_first_index(t, ':', t.len() as int);
    lemma_first_slashes(t, t.len() - 1);
    assert(comment_start(t) == t.len());
    assert(t.take(t.len() as int) =~= t);
    assert(strip_comment_spec(t) == t);
    assert(line_text(t) == t);
    assert(is_literal_char(t[0]));
    assert(!is_passed_over(t));
    assert(!has_label(t));
    assert(statement_text(t) == t);
    assert(is_digit_char(digits[0]));
    assert(digit_value(digits[0], radix) is Some);
    assert(number_upto(digits, radix, u32::MAX as int) == Some(word as int));
    if radix == Radix::Hex {
        assert(t[0] == '0' && (t[1] == 'x' || t[1] == 'X'));
        assert(t.skip(2) =~= digits);
    } else {
        assert(t == digits);
        if t.len() >= 2 {
            assert(is_digit_char(t[1]));
        }
        assert(!has_hex_prefix(t));
    }
    assert(parse_u32_word_spec(t) == Some(word));
}

/// A raw machine word assembles where it encodes back to itself, and only
/// there: the text of one line that holds the literal of `word`, decimal
/// or hexadecimal, in small letters or capitals, assembles if and only if the decoder accepted the word
/// and the encoder gave back its four bytes; the program is then the one
/// instruction that the word encodes.
pub proof fn lemma_word_line_assembles_iff_round_trip(
    word: u32,
    radix: Radix,
    capital: bool,
    answers: spec_fn(usize) -> DecodedView,
)
    ensures
        assemble_lines(seq![literal(false, word as nat, radix, capital)], answers) is Ok <==> answers(1)
            == (DecodedView::Reencoded { bytes: le_bytes(word) }),
        assemble_lines(seq![literal(false, word as nat, radix, capital)], answers) is Ok ==> assemble_lines(
            seq![literal(false, word as nat, radix, capital)],
            answers,
        ) == Ok::<Seq<Instruction>, AsmErrorView>(seq![Instruction::Word { word }]),
{
    reveal(after_line);
    let t = literal(false, word as nat, radix, capital);
    let lines = seq![t];
    lemma_word_line_read(word, radix, capital, 1);
    assert(lines.drop_last() =~= Seq::<Seq<char>>::empty());
    assert(lines.last() == t);
    let start = PassOne { labels: Map::empty(), pending: Seq::empty() };
    assert(first_pass(lines.drop_last(), answers) == Ok::<PassOne, AsmErrorView>(start));
    assert(first_pass(lines, answers) == after_line(start, t, 1, answers(1)));
    if first_pass(lines, answers) is Ok {
        let state = first_pass(lines, answers)->Ok_0;
        let entry = PendingLineView {
            line_no: 1,
            instr: PendingInstrView::Resolved(Instruction::Word { word }),
        };
        assert(state.pending =~= seq![entry]);
        assert(state.pending.drop_last() =~= Seq::<PendingLineView>::empty());
        assert(resolve_spec(state.labels, state.pending.drop_last()) == Ok::<
            Seq<Instruction>,
            AsmErrorView,
        >(Seq::empty()));
        assert(Seq::<Instruction>::empty().push(Instruction::Word { word }) =~= seq![
            Instruction::Word { word },
        ]);
    }
}

/// The label that the entry `p` waits for, if it waits for one.
pub open spec fn awaited_label(p: PendingInstrView) -> Option<Seq<char>> {
    match p {
        PendingInstrView::Resolved(_) => None,
        PendingInstrView::Beq { target, .. } => Some(target),
        PendingInstrView::Jal { target, .. } => Some(target),
    }
}

/// The instruction that the entry `p` becomes with the displacement `imm`.
pub open spec fn with_displacement(p: PendingInstrView, imm: i32) -> Instruction {
    match p {
        PendingInstrView::Resolved(instr) => instr,
        PendingInstrView::Beq { rs1, rs2, .. } => Instruction::Branch {
            cond: BranchCondition::Eq,
            rs1,
            rs2,
            imm,
        },
        PendingInstrView::Jal { rd, .. } => Instruction::Jal { rd, imm },
    }
}

/// The number of entries that the first pass has gathered from the first
/// `k` of `lines`: the index of the entry that line `k` appends, and the
/// index that a label on line `k` is bound to.
pub open spec fn entries_before(
    lines: Seq<Seq<char>>,
    answers: spec_fn(usize) -> DecodedView,
    k: int,
) -> int {
    match first_pass(lines.take(k), answers) {
        Ok(state) => state.pending.len() as int,
        Err(_) => 0,
    }
}

/// Whether the entry at index `i` is the first of `pending` that fails to
/// resolve under `labels`, and fails with `e`.
pub open spec fn fails_first_at(
    labels: Map<Seq<char>, usize>,
    pending: Seq<PendingLineView>,
    i: int,
    e: AsmErrorView,
) -> bool {
    &&& 0 <= i < pending.len()
    &&& resolve_entry_spec(labels, pending[i], i) == Err::<Instruction, AsmErrorView>(e)
    &&& forall|j: int| 0 <= j < i ==> resolve_entry_spec(labels, #[trigger] pending[j], j) is Ok
}

/// The second pass resolves each entry at its own index: where it
/// succeeds, the program is as long as the list of entries and holds at
/// each index what the entry there resolves to; where it fails, the failure
/// is an unknown label, that of the first entry that fails to resolve.
pub proof fn lemma_resolve_each(labels: Map<Seq<char>, usize>, pending: Seq<PendingLineView>)
    ensures
        match resolve_spec(labels, pending) {
            Ok(program) => program.len() == pending.len() && forall|i: int|
                0 <= i < pending.len() ==> resolve_entry_spec(labels, #[trigger] pending[i], i)
                    == Ok::<Instruction, AsmErrorView>(program[i]),
            Err(e) => e.kind == ErrorKind::UnknownLabel && exists|i: int| #[trigger]
                fails_first_at(labels, pending, i, e),
        },
    decreases pending.len(),
{
    if pending.len() > 0 {
        let front = pending.drop_last();
        lemma_resolve_each(labels, front);
        match resolve_spec(labels, front) {
            Err(e) => {
                let i = choose|i: int| #[trigger] fails_first_at(labels, front, i, e);
                assert(pending[i] == front[i]);
                assert forall|j: int| 0 <= j < i implies resolve_entry_spec(
                    labels,
                    #[trigger] pending[j],
                    j,
                ) is Ok by {
                    assert(pending[j] == front[j]);
                }
                assert(fails_first_at(labels, pending, i, e));
            },
            Ok(program) => {
                let last = pending.len() - 1;
                assert forall|j: int| 0 <= j < last implies resolve_entry_spec(
                    labels,
                    #[trigger] pending[j],
                    j,
                ) is Ok by {
                    assert(pending[j] == front[j]);
                }
                match resolve_entry_spec(labels, pending.last(), last) {
                    Err(e) => {
                        assert(fails_first_at(labels, pending, last, e));
                    },
                    Ok(instr) => {
                        let whole = program.push(instr);
                        assert forall|i: int| 0 <= i < pending.len() implies resolve_entry_spec(
                            labels,
                            #[trigger] pending[i],
                            i,
                        ) == Ok::<Instruction, AsmErrorView>(whole[i]) by {
                            if i < last {
                                assert(pending[i] == front[i]);
                            }
                        }
                    },
                }
            },
        }
    }
}

/// The first pass only ever appends: what it has gathered from the first
/// `k` lines is the beginning of what it gathers from all of them, and it
/// gathers no more entries than there are lines.
pub proof fn lemma_first_pass_appends(
    lines: Seq<Seq<char>>,
    answers: spec_fn(usize) -> DecodedView,
    k: int,
)
    requires
        0 <= k <= lines.len(),
        first_pass(lines, answers) is Ok,
    ensures
        first_pass(lines.take(k), answers) is Ok,
        entries_before(lines, answers, k) <= k,
        entries_before(lines, answers, k) <= first_pass(lines, answers)->Ok_0.pending.len()
            <= lines.len(),
        first_pass(lines.take(k), answers)->Ok_0.pending == first_pass(
            lines,
            answers,
        )->Ok_0.pending.take(entries_before(lines, answers, k)),
    decreases lines.len(),
{
    reveal(after_line);
    if lines.len() == 0 {
        assert(lines.take(k) =~= lines);
        assert(first_pass(lines, answers)->Ok_0.pending.take(0) =~= Seq::<
            PendingLineView,
        >::empty());
    } else {
        let front = lines.drop_last();
        let whole = first_pass(lines, answers)->Ok_0.pending;
        let most = first_pass(front, answers)->Ok_0.pending;
        lemma_first_pass_appends(front, answers, front.len() as int);
        assert(front.take(front.len() as int) =~= front);
        assert(most =~= whole.take(most.len() as int));
        if k == lines.len() {
            assert(lines.take(k) =~= lines);
            assert(whole.take(whole.len() as int) =~= whole);
        } else {
            lemma_first_pass_appends(front, answers, k);
            assert(front.take(k) =~= lines.take(k));
            let n = entries_before(lines, answers, k);
            assert(most.take(n) =~= whole.take(n));
        }
    }
}

/// A label stays bound to where its last definition stands: after the
/// first pass, a label whose last definition is on line `b` is bound to the
/// index of the entry that follows that line's label.
pub proof fn lemma_label_bound(
    lines: Seq<Seq<char>>,
    answers: spec_fn(usize) -> DecodedView,
    b: int,
    label: Seq<char>,
)
    requires
        lines.len() <= usize::MAX,
        0 <= b < lines.len(),
        first_pass(lines, answers) is Ok,
        defined_label(lines[b]) == Some(label),
        forall|k: int| b < k < lines.len() ==> defined_label(#[trigger] lines[k]) != Some(label),
    ensures
        first_pass(lines, answers)->Ok_0.labels.contains_key(label),
        first_pass(lines, answers)->Ok_0.labels[label] == entries_before(lines, answers, b),
    decreases lines.len(),
{
    reveal(after_line);
    let front = lines.drop_last();
    let last = lines.len() - 1;
    lemma_first_pass_appends(front, answers, front.len() as int);
    assert(front.take(front.len() as int) =~= front);
    if b == last {
        assert(lines.take(b) =~= front);
    } else {
        assert(front[b] == lines[b]);
        assert forall|k: int| b < k < front.len() implies defined_label(#[trigger] front[k])
            != Some(label) by {
            assert(front[k] == lines[k]);
        }
        lemma_label_bound(front, answers, b, label);
        assert(front.take(b) =~= lines.take(b));
        assert(defined_label(lines[last]) != Some(label));
    }
}

/// A label that no line defines is not bound after the first pass.
pub proof fn lemma_label_unbound(
    lines: Seq<Seq<char>>,
    answers: spec_fn(usize) -> DecodedView,
    label: Seq<char>,
)
    requires
        first_pass(lines, answers) is Ok,
        forall|k: int| 0 <= k < lines.len() ==> defined_label(#[trigger] lines[k]) != Some(label),
    ensures
        !first_pass(lines, answers)->Ok_0.labels.contains_key(label),
    decreases lines.len(),
{
    reveal(after_line);
    if lines.len() > 0 {
        let front = lines.drop_last();
        assert forall|k: int| 0 <= k < front.len() implies defined_label(#[trigger] front[k])
            != Some(label) by {
            assert(front[k] == lines[k]);
        }
        lemma_label_unbound(front, answers, label);
        assert(defined_label(lines[lines.len() - 1]) != Some(label));
    }
}

/// The entry that line `a` appends stands, after the first pass, at the
/// index that the pass had reached before that line.
pub proof fn lemma_entry_kept(
    lines: Seq<Seq<char>>,
    answers: spec_fn(usize) -> DecodedView,
    a: int,
    instr: PendingInstrView,
)
    requires
        lines.len() <= usize::MAX,
        0 <= a < lines.len(),
        first_pass(lines, answers) is Ok,
        parse_line_spec(lines[a], (a + 1) as usize) == Ok::<StatementView, AsmErrorView>(
            StatementView::Entry(instr),
        ),
    ensures
        0 <= entries_before(lines, answers, a) < first_pass(lines, answers)->Ok_0.pending.len(),
        first_pass(lines, answers)->Ok_0.pending[entries_before(lines, answers, a)]
            == (PendingLineView { line_no: (a + 1) as usize, instr }),
{
    reveal(after_line);
    lemma_first_pass_appends(lines, answers, a + 1);
    lemma_first_pass_appends(lines, answers, a);
    let upto = lines.take(a + 1);
    assert(upto.drop_last() =~= lines.take(a));
    assert(upto.last() == lines[a]);
    let n = entries_before(lines, answers, a);
    let gathered = first_pass(upto, answers)->Ok_0.pending;
    assert(gathered[n] == (PendingLineView { line_no: (a + 1) as usize, instr }));
}

/// A reference to a label resolves to the displacement between the two
/// slots, wherever the label is defined: before the reference, on its line
/// or after it.  Where line `a` holds a branch or jump to the label that
/// line `b` is the last to define, and the text assembles, the instruction
/// of line `a` carries four times the index that the label is bound to,
/// less four times its own.
pub proof fn lemma_label_reference_resolves(
    lines: Seq<Seq<char>>,
    answers: spec_fn(usize) -> DecodedView,
    a: int,
    b: int,
    instr: PendingInstrView,
    label: Seq<char>,
)
    requires
        lines.len() <= MAX_PROGRAM_LEN,
        0 <= a < lines.len(),
        0 <= b < lines.len(),
        parse_line_spec(lines[a], (a + 1) as usize) == Ok::<StatementView, AsmErrorView>(
            StatementView::Entry(instr),
        ),
        awaited_label(instr) == Some(label),
        defined_label(lines[b]) == Some(label),
        forall|k: int| b < k < lines.len() ==> defined_label(#[trigger] lines[k]) != Some(label),
        assemble_lines(lines, answers) is Ok,
    ensures
        ({
            let from = entries_before(lines, answers, a);
            let to = entries_before(lines, answers, b);
            let program = assemble_lines(lines, answers)->Ok_0;
            &&& 0 <= from < program.len()
            &&& i32::MIN <= to * 4 - from * 4 <= i32::MAX
            &&& program[from] == with_displacement(instr, (to * 4 - from * 4) as i32)
        }),
{
    let state = first_pass(lines, answers)->Ok_0;
    let from = entries_before(lines, answers, a);
    let to = entries_before(lines, answers, b);
    lemma_entry_kept(lines, answers, a, instr);
    lemma_label_bound(lines, answers, b, label);
    lemma_first_pass_appends(lines, answers, b);
    lemma_resolve_each(state.labels, state.pending);
    let program = assemble_lines(lines, answers)->Ok_0;
    assert(resolve_entry_spec(state.labels, state.pending[from], from) == Ok::<
        Instruction,
        AsmErrorView,
    >(program[from]));
    assert(displacement(to, from) == to * 4 - from * 4);
}

/// A reference to a label that no line defines fails the assembly, always:
/// where line `a` holds a branch or jump to such a label, the text does
/// not assemble; and where the first pass finds no fault, the failure is
/// an unknown label.
pub proof fn lemma_undefined_label_fails(
    lines: Seq<Seq<char>>,
    answers: spec_fn(usize) -> DecodedView,
    a: int,
    instr: PendingInstrView,
    label: Seq<char>,
)
    requires
        lines.len() <= usize::MAX,
        0 <= a < lines.len(),
        parse_line_spec(lines[a], (a + 1) as usize) == Ok::<StatementView, AsmErrorView>(
            StatementView::Entry(instr),
        ),
        awaited_label(instr) == Some(label),
        forall|k: int| 0 <= k < lines.len() ==> defined_label(#[trigger] lines[k]) != Some(label),
    ensures
        assemble_lines(lines, answers) is Err,
        first_pass(lines, answers) is Ok ==> assemble_lines(lines, answers)->Err_0.kind
            == ErrorKind::UnknownLabel,
{
    if first_pass(lines, answers) is Ok {
        let state = first_pass(lines, answers)->Ok_0;
        let from = entries_before(lines, answers, a);
        lemma_entry_kept(lines, answers, a, instr);
        lemma_label_unbound(lines, answers, label);
        lemma_resolve_each(state.labels, state.pending);
        assert(resolve_entry_spec(state.labels, state.pending[from], from) is Err);
    }
}

/// The answers of the decoder matter only where it is asked: two lists of
/// answers that agree on every line that the first pass reaches and that
/// holds a raw machine word give the same first pass, and so the same
/// program.
pub proof fn lemma_answers_matter_where_asked(
    lines: Seq<Seq<char>>,
    one: spec_fn(usize) -> DecodedView,
    other: spec_fn(usize) -> DecodedView,
)
    requires
        lines.len() <= usize::MAX,
        forall|k: int|
            0 <= k < lines.len() && first_pass(lines.take(k), one) is Ok && (#[trigger] raw_word_on(
                lines[k],
                (k + 1) as usize,
            )) is Some ==> one((k + 1) as usize) == other((k + 1) as usize),
    ensures
        first_pass(lines, one) == first_pass(lines, other),
        assemble_lines(lines, one) == assemble_lines(lines, other),
    decreases lines.len(),
{
    reveal(after_line);
    reveal(raw_word_on);
    if lines.len() > 0 {
        let front = lines.drop_last();
        let last = lines.len() - 1;
        assert forall|k: int|
            0 <= k < front.len() && first_pass(front.take(k), one) is Ok && (#[trigger] raw_word_on(
                front[k],
                (k + 1) as usize,
            )) is Some implies one((k + 1) as usize) == other((k + 1) as usize) by {
            assert(front.take(k) =~= lines.take(k));
            assert(front[k] == lines[k]);
            assert(raw_word_on(lines[k], (k + 1) as usize) is Some);
        }
        lemma_answers_matter_where_asked(front, one, other);
        assert(lines.take(last) =~= front);
        if first_pass(front, one) is Ok && raw_word_on(lines[last], (last + 1) as usize) is Some {
            assert(one((last + 1) as usize) == other((last + 1) as usize));
        }
    }
}

/// A text has no more lines than characters.
pub proof fn lemma_lines_within_length(text: Seq<char>)
    ensures
        lines_of(text).len() <= text.len(),
    decreases text.len(),
{
    let i = first_index(text, '\n');
    if text.len() > 0 && 0 <= i < text.len() {
        lemma_lines_within_length(text.skip(i + 1));
    }
}

/// A text of at most `MAX_PROGRAM_LEN` lines, and so one of at most that
/// many characters, has room for its program.
pub proof fn lemma_short_text_fits(text: Seq<char>)
    requires
        lines_of(text).len() <= MAX_PROGRAM_LEN || text.len() <= MAX_PROGRAM_LEN,
    ensures
        program_fits(text),
{
    lemma_lines_within_length(text);
    assert forall|answers: spec_fn(usize) -> DecodedView|
        (#[trigger] first_pass(lines_of(text), answers)) is Ok implies first_pass(
        lines_of(text),
        answers,
    )->Ok_0.pending.len() <= MAX_PROGRAM_LEN by {
        lemma_first_pass_labels_within(lines_of(text), answers);
    }
}

/// After the first pass every label stands at the index of an entry or
/// just behind the last one, and there are no more entries than lines.
pub proof fn lemma_first_pass_labels_within(
    lines: Seq<Seq<char>>,
    answers: spec_fn(usize) -> DecodedView,
)
    requires
        lines.len() <= usize::MAX,
        first_pass(lines, answers) is Ok,
    ensures
        first_pass(lines, answers)->Ok_0.pending.len() <= lines.len(),
        labels_within(
            first_pass(lines, answers)->Ok_0.labels,
            first_pass(lines, answers)->Ok_0.pending.len(),
        ),
    decreases lines.len(),
{
    reveal(after_line);
    if lines.len() > 0 {
        lemma_first_pass_labels_within(lines.drop_last(), answers);
    }
}

/// Whether the instruction at index `k` of `program` is what the entry at
/// index `k` of `state` becomes: the entry itself where it is resolved;
/// where it waits for a label, the branch or jump with the registers of the
/// entry and four times the index of the label less four times `k`.
pub open spec fn resolved_at(state: PassOne, program: Seq<Instruction>, k: int) -> bool {
    match awaited_label(state.pending[k].instr) {
        None => state.pending[k].instr == PendingInstrView::Resolved(program[k]),
        Some(label) => {
            &&& state.labels.contains_key(label)
            &&& i32::MIN <= state.labels[label] * 4 - k * 4 <= i32::MAX
            &&& program[k] == with_displacement(
                state.pending[k].instr,
                (state.labels[label] * 4 - k * 4) as i32,
            )
        },
    }
}

/// What a text assembles to, whatever the decoder answered.  Where it
/// assembles, the program holds one instruction for each entry of the
/// first pass, in order: a resolved entry as it is, a reference to a label
/// with the displacement from its own slot to the label's, be the label
/// defined before it or after it.  Where it does not assemble, the failure
/// is that of the first pass, or else that of the first entry in program
/// order whose label no line defines: an unknown label, with the line of
/// that entry and the name of the label.  It is never a program with that
/// entry left out or resolved to some other displacement.
pub proof fn lemma_assembled_program(text: Seq<char>, answers: spec_fn(usize) -> DecodedView)
    requires
        lines_of(text).len() <= usize::MAX,
        program_fits(text),
    ensures
        match assemble_spec(text, answers) {
            Ok(program) => {
                &&& first_pass(lines_of(text), answers) is Ok
                &&& program.len() == first_pass(lines_of(text), answers)->Ok_0.pending.len()
                &&& forall|k: int|
                    0 <= k < program.len() ==> #[trigger] resolved_at(
                        first_pass(lines_of(text), answers)->Ok_0,
                        program,
                        k,
                    )
            },
            Err(e) => match first_pass(lines_of(text), answers) {
                Err(first) => e == first,
                Ok(state) => exists|i: int|
                    {
                        &&& #[trigger] fails_first_at(state.labels, state.pending, i, e)
                        &&& awaited_label(state.pending[i].instr) is Some
                        &&& !state.labels.contains_key(awaited_label(state.pending[i].instr)->Some_0)
                        &&& e == fault(
                            state.pending[i].line_no,
                            ErrorKind::UnknownLabel,
                            awaited_label(state.pending[i].instr)->Some_0,
                        )
                    },
            },
        },
{
    let lines = lines_of(text);
    if first_pass(lines, answers) is Ok {
        let state = first_pass(lines, answers)->Ok_0;
        lemma_first_pass_labels_within(lines, answers);
        lemma_resolve_each(state.labels, state.pending);
        match resolve_spec(state.labels, state.pending) {
            Ok(program) => {
                assert forall|k: int| 0 <= k < program.len() implies #[trigger] resolved_at(
                    state,
                    program,
                    k,
                ) by {
                    assert(resolve_entry_spec(state.labels, state.pending[k], k) == Ok::<
                        Instruction,
                        AsmErrorView,
                    >(program[k]));
                    match awaited_label(state.pending[k].instr) {
                        None => {},
                        Some(label) => {
                            assert(state.labels.contains_key(label));
                            assert(state.labels[label] <= state.pending.len());
                            assert(displacement(state.labels[label] as int, k)
                                == state.labels[label] * 4 - k * 4);
                        },
                    }
                }
            },
            Err(e) => {
                let i = choose|i: int| #[trigger]
                    fails_first_at(state.labels, state.pending, i, e);
                assert(fails_first_at(state.labels, state.pending, i, e));
            },
        }
    }
}

/// A reference in a text resolves to the displacement between the two
/// slots: where line `a` of `text` holds a branch or jump to the label that
/// line `b` is the last to define, before it or after it, and the text
/// assembles, the instruction of line `a` carries four times the index that
/// the label is bound to, less four times its own.
pub proof fn lemma_reference_in_text_resolves(
    text: Seq<char>,
    answers: spec_fn(usize) -> DecodedView,
    a: int,
    b: int,
    instr: PendingInstrView,
    label: Seq<char>,
)
    requires
        lines_of(text).len() <= MAX_PROGRAM_LEN,
        0 <= a < lines_of(text).len(),
        0 <= b < lines_of(text).len(),
        parse_line_spec(lines_of(text)[a], (a + 1) as usize) == Ok::<
            StatementView,
            AsmErrorView,
        >(StatementView::Entry(instr)),
        awaited_label(instr) == Some(label),
        defined_label(lines_of(text)[b]) == Some(label),
        forall|k: int|
            b < k < lines_of(text).len() ==> defined_label(#[trigger] lines_of(text)[k]) != Some(
                label,
            ),
        assemble_spec(text, answers) is Ok,
    ensures
        ({
            let from = entries_before(lines_of(text), answers, a);
            let to = entries_before(lines_of(text), answers, b);
            let program = assemble_spec(text, answers)->Ok_0;
            &&& 0 <= from < program.len()
            &&& i32::MIN <= to * 4 - from * 4 <= i32::MAX
            &&& program[from] == with_displacement(instr, (to * 4 - from * 4) as i32)
        }),
{
    lemma_label_reference_resolves(lines_of(text), answers, a, b, instr, label);
}

/// A reference in a text to a label that no line of it defines fails the
/// assembly: the text never assembles, and where the first pass finds no
/// fault the failure is an unknown label.
pub proof fn lemma_undefined_label_in_text_fails(
    text: Seq<char>,
    answers: spec_fn(usize) -> DecodedView,
    a: int,
    instr: PendingInstrView,
    label: Seq<char>,
)
    requires
        lines_of(text).len() <= usize::MAX,
        0 <= a < lines_of(text).len(),
        parse_line_spec(lines_of(text)[a], (a + 1) as usize) == Ok::<
            StatementView,
            AsmErrorView,
        >(StatementView::Entry(instr)),
        awaited_label(instr) == Some(label),
        forall|k: int|
            0 <= k < lines_of(text).len() ==> defined_label(#[trigger] lines_of(text)[k])
                != Some(label),
    ensures
        assemble_spec(text, answers) is Err,
        first_pass(lines_of(text), answers) is Ok ==> assemble_spec(text, answers)->Err_0.kind
            == ErrorKind::UnknownLabel,
{
    lemma_undefined_label_fails(lines_of(text), answers, a, instr, label);
}

/// Whether `s` holds no white space.
pub open spec fn no_space(s: Seq<char>) -> bool {
    forall|i: int| 0 <= i < s.len() ==> !is_space(#[trigger] s[i])
}

/// Whether `s` holds none of the characters that part a line: `#`, `/`,
/// `:`.
pub open spec fn no_marks(s: Seq<char>) -> bool {
    forall|i: int| 0 <= i < s.len() ==> (#[trigger] s[i]) != '#' && s[i] != '/' && s[i] != ':'
}

/// A line without comment and label that neither begins nor ends with
/// white space, nor begins with a full stop, is its own statement.
pub proof fn lemma_plain_line(t: Seq<char>, line_no: usize)
    requires
        t.len() > 0,
        no_marks(t),
        !is_space(t[0]),
        !is_space(t.last()),
        t[0] != '.',
    ensures
        line_text(t) == t,
        statement_text(t) == t,
        defined_label(t) is None,
        parse_line_spec(t, line_no) == parse_statement_spec(t, line_no),
{
    lemma_first_index(t, '#', t.len() as int);
    lemma_first_index(t, ':', t.len() as int);
    assert forall|k: int| 0 <= k < t.len() - 1 && k + 1 < t.len() implies !(#[trigger] t[k] == '/'
        && t[k + 1] == '/') by {}
    lemma_first_slashes(t, t.len() - 1);
    assert(comment_start(t) == t.len());
    assert(t.take(t.len() as int) =~= t);
    assert(trim_start(t) == t);
    assert(trim_end(t) == t);
}

/// Two words with white space before and between them squeeze to the two
/// words with one blank between them.
pub proof fn lemma_squeeze_two_words(first: Seq<char>, second: Seq<char>)
    requires
        first.len() > 0,
        second.len() > 0,
        no_space(first),
        no_space(second),
    ensures
        squeeze(seq![' '] + first + seq![' '] + second) == first + seq![' '] + second,
{
    let u = seq![' '] + first + seq![' '] + second;
    let w = first + seq![' '] + second;
    let x = seq![' '] + second;
    let none = Seq::<char>::empty();
    assert(is_space(' '));
    // The second word and what is left behind it.
    assert(trim_start(none) == none);
    assert(word_len(none) == 0);
    assert(squeeze(none) == none);
    assert(second[0] == second[0] && !is_space(second[0]));
    assert(trim_start(second) == second);
    lemma_word_len(second, second.len() as int);
    assert(second.skip(second.len() as int) =~= none);
    assert(second.take(second.len() as int) =~= second);
    assert(squeeze(second) == join_blank(second, none));
    assert(x.drop_first() =~= second);
    assert(x[0] == ' ');
    assert(trim_start(x) == second);
    assert(squeeze(x) == second);
    // The first word.
    assert(u.drop_first() =~= w);
    assert(u[0] == ' ');
    assert(w[0] == first[0] && !is_space(first[0]));
    assert(trim_start(w) == w);
    assert(trim_start(u) == w);
    assert forall|k: int| 0 <= k < first.len() implies !is_space(#[trigger] w[k]) by {
        assert(w[k] == first[k]);
    }
    assert(w[first.len() as int] == ' ');
    lemma_word_len(w, first.len() as int);
    assert(w.take(first.len() as int) =~= first);
    assert(w.skip(first.len() as int) =~= x);
    assert(squeeze(u) == join_blank(first, second));
    assert(join_blank(first, second) =~= w);
}

/// Two operands with a comma and a blank between them are split into the
/// two.
pub proof fn lemma_operands_two(first: Seq<char>, second: Seq<char>)
    requires
        first.len() > 0,
        second.len() > 0,
        no_space(first),
        no_space(second),
        forall|i: int| 0 <= i < first.len() ==> #[trigger] first[i] != ',',
        forall|i: int| 0 <= i < second.len() ==> #[trigger] second[i] != ',',
    ensures
        operands(first + seq![',', ' '] + second) == seq![first, second],
{
    let y = first + seq![',', ' '] + second;
    let x = seq![' '] + second;
    assert(is_space(' '));
    // What follows the comma.
    assert forall|k: int| 0 <= k < x.len() implies #[trigger] x[k] != ',' by {
        if k > 0 {
            assert(x[k] == second[k - 1]);
        }
    }
    lemma_first_index(x, ',', x.len() as int);
    assert(x.take(x.len() as int) =~= x);
    assert(x.drop_first() =~= second);
    assert(x[0] == ' ');
    assert(!is_space(second[0]));
    assert(trim_start(second) == second);
    assert(trim_start(x) == second);
    assert(!is_space(second.last()));
    assert(trim_end(second) == second);
    assert(trim(x) == second);
    assert(operands(x) == seq![second]);
    // The whole.
    assert forall|k: int| 0 <= k < first.len() implies #[trigger] y[k] != ',' by {
        assert(y[k] == first[k]);
    }
    assert(y[first.len() as int] == ',');
    lemma_first_index(y, ',', first.len() as int);
    assert(y.take(first.len() as int) =~= first);
    assert(y.skip(first.len() as int + 1) =~= x);
    assert(!is_space(first[0]));
    assert(!is_space(first.last()));
    assert(trim_start(first) == first);
    assert(trim_end(first) == first);
    assert(trim(first) == first);
    assert(operands(y) == seq![first] + operands(x));
    assert(seq![first] + seq![second] =~= seq![first, second]);
}

/// The line that loads the value written as `value` into the register
/// written as `name`: `li`, the name, a comma, and the value.
pub open spec fn li_text(name: Seq<char>, value: Seq<char>) -> Seq<char> {
    seq!['l', 'i', ' '] + name + seq![',', ' '] + value
}

/// The line that loads the value `v` into the register `n`: `li`, the ABI
/// name of the register, a comma, and `v` in decimal.
pub open spec fn li_line(n: u8, v: int) -> Seq<char> {
    li_text(abi_name(n), literal_of(v, Radix::Decimal))
}

/// Whether `name` and `value` can stand as the operands of a line: a name
/// of small letters and digits, and a literal that ends in a digit.
pub open spec fn plain_operands(name: Seq<char>, value: Seq<char>) -> bool {
    &&& name.len() > 0
    &&& value.len() > 0
    &&& forall|i: int| 0 <= i < name.len() ==> is_name_char(#[trigger] name[i])
    &&& forall|i: int| 0 <= i < value.len() ==> is_literal_char(#[trigger] value[i])
    &&& is_digit_char(value.last())
}

/// The characters of a line that loads a value: it begins with `li` and a
/// blank, ends in a digit, and holds no mark and no underscore.
proof fn lemma_li_chars(name: Seq<char>, value: Seq<char>)
    requires
        plain_operands(name, value),
    ensures
        li_text(name, value).len() == 3 + name.len() + 2 + value.len(),
        li_text(name, value)[0] == 'l',
        li_text(name, value)[1] == 'i',
        li_text(name, value)[2] == ' ',
        is_digit_char(li_text(name, value).last()),
        no_marks(li_text(name, value)),
        forall|k: int|
            0 <= k < li_text(name, value).len() ==> (#[trigger] li_text(name, value)[k]) != '_',
{
    let t = li_text(name, value);
    assert forall|k: int| 0 <= k < t.len() implies (#[trigger] t[k]) != '#' && t[k] != '/' && t[k]
        != ':' && t[k] != '_' by {
        if k < 3 {
        } else if k < 3 + name.len() {
            assert(t[k] == name[k - 3]);
            assert(is_name_char(name[k - 3]));
        } else if k < 3 + name.len() + 2 {
        } else {
            assert(t[k] == value[k - 3 - name.len() - 2]);
            assert(is_literal_char(value[k - 3 - name.len() - 2]));
        }
    }
    assert(t.last() == value.last());
}

/// A line that loads a value is an instruction: it has no label and is no
/// machine word.
proof fn lemma_li_is_instruction(name: Seq<char>, value: Seq<char>, line_no: usize)
    requires
        plain_operands(name, value),
    ensures
        defined_label(li_text(name, value)) is None,
        parse_line_spec(li_text(name, value), line_no) == (match parse_instruction_spec(
            li_text(name, value),
            line_no,
        ) {
            Ok(p) => Ok::<StatementView, AsmErrorView>(StatementView::Entry(p)),
            Err(e) => Err::<StatementView, AsmErrorView>(e),
        }),
{
    let t = li_text(name, value);
    lemma_li_chars(name, value);
    lemma_plain_line(t, line_no);
    assert(trim_start(t) == t);
    assert(trim_end(t) == t);
    lemma_without_underscores_same(t);
    assert(!has_hex_prefix(t));
    assert(digit_value(t[0], Radix::Decimal) is None);
    assert(parse_u32_word_spec(t) is None);
}

/// The first word of a line that loads a value is the mnemonic `li`.
proof fn lemma_li_mnemonic(name: Seq<char>, value: Seq<char>)
    requires
        plain_operands(name, value),
    ensures
        word_len(li_text(name, value)) == 2,
        mnemonic_of(opcode_text(li_text(name, value))) == Some(Mnemonic::Li),
{
    let t = li_text(name, value);
    let op = seq!['l', 'i'];
    lemma_li_chars(name, value);
    assert(is_space(' '));
    lemma_word_len(t, 2);
    assert(t.take(2) =~= op);
    assert(lower(op) =~= op);
    reveal_strlit("addi");
    reveal_strlit("add");
    reveal_strlit("lw");
    reveal_strlit("sw");
    reveal_strlit("beq");
    reveal_strlit("jal");
    reveal_strlit("j");
    reveal_strlit("li");
    assert(op =~= "li"@);
}

/// The operands of a line that loads a value are the name and the value.
proof fn lemma_li_operands(name: Seq<char>, value: Seq<char>)
    requires
        plain_operands(name, value),
    ensures
        operand_texts(li_text(name, value)) == seq![name, value],
{
    let t = li_text(name, value);
    let first = name + seq![','];
    lemma_li_mnemonic(name, value);
    assert forall|k: int| 0 <= k < first.len() implies !is_space(#[trigger] first[k]) by {
        if k < name.len() {
            assert(first[k] == name[k]);
            assert(is_name_char(name[k]));
        }
    }
    assert forall|k: int| 0 <= k < value.len() implies !is_space(#[trigger] value[k]) && value[k]
        != ',' by {
        assert(is_literal_char(value[k]));
    }
    assert forall|k: int| 0 <= k < name.len() implies !is_space(#[trigger] name[k]) && name[k]
        != ',' by {
        assert(is_name_char(name[k]));
    }
    lemma_squeeze_two_words(first, value);
    assert(t.skip(2) =~= seq![' '] + first + seq![' '] + value);
    assert(first + seq![' '] + value =~= name + seq![',', ' '] + value);
    lemma_operands_two(name, value);
}

/// A line that loads a value stands for what `li` makes of the name and
/// the value.
pub proof fn lemma_li_read(name: Seq<char>, value: Seq<char>, line_no: usize)
    requires
        plain_operands(name, value),
    ensures
        defined_label(li_text(name, value)) is None,
        parse_line_spec(li_text(name, value), line_no) == (match entry_of(
            Mnemonic::Li,
            seq![name, value],
            line_no,
        ) {
            Ok(p) => Ok::<StatementView, AsmErrorView>(StatementView::Entry(p)),
            Err(e) => Err::<StatementView, AsmErrorView>(e),
        }),
{
    lemma_li_is_instruction(name, value, line_no);
    lemma_li_mnemonic(name, value);
    lemma_li_operands(name, value);
    assert(takes_operands(Mnemonic::Li, seq![name, value].len()));
}

/// `li` takes the values from -2048 to 2047 and no others: for every
/// register and every 32-bit value `v`, the line that loads `v` into the
/// register adds the constant `v` to register 0 where `v` lies in that
/// range, and fails as out of range for `li` where it does not.
pub proof fn lemma_li_range(n: u8, v: int, line_no: usize)
    requires
        n <= 31,
        i32::MIN <= v <= i32::MAX,
    ensures
        defined_label(li_line(n, v)) is None,
        parse_line_spec(li_line(n, v), line_no) == (if -2048 <= v <= 2047 {
            Ok::<StatementView, AsmErrorView>(
                StatementView::Entry(
                    PendingInstrView::Resolved(
                        Instruction::IAlu { op: AluOp::Add, rd: n, rs1: 0, imm: v as i32 },
                    ),
                ),
            )
        } else {
            Err::<StatementView, AsmErrorView>(
                fault(line_no, ErrorKind::LiOutOfRange, literal_of(v, Radix::Decimal)),
            )
        }),
{
    let name = abi_name(n);
    let value = literal_of(v, Radix::Decimal);
    lemma_abi_name_chars(n);
    lemma_literal_chars(v < 0, absolute(v), Radix::Decimal, false);
    lemma_register_spellings_agree(n, line_no);
    lemma_immediate_round_trip(v, Radix::Decimal, line_no);
    lemma_li_read(name, value, line_no);
    let args = seq![name, value];
    assert(args[0] == name && args[1] == value);
}

/// The ABI names are made of small letters and digits, at least two.
proof fn lemma_abi_name_chars(n: u8)
    requires
        n <= 31,
    ensures
        abi_name(n).len() >= 2,
        forall|i: int| 0 <= i < abi_name(n).len() ==> is_name_char(#[trigger] abi_name(n)[i]),
{
    reveal_strlit("zero");
    reveal_strlit("ra");
    reveal_strlit("sp");
    reveal_strlit("gp");
    reveal_strlit("tp");
    reveal_strlit("t0");
    reveal_strlit("t1");
    reveal_strlit("t2");
    reveal_strlit("s0");
    reveal_strlit("s1");
    reveal_strlit("a0");
    reveal_strlit("a1");
    reveal_strlit("a2");
    reveal_strlit("a3");
    reveal_strlit("a4");
    reveal_strlit("a5");
    reveal_strlit("a6");
    reveal_strlit("a7");
    reveal_strlit("s2");
    reveal_strlit("s3");
    reveal_strlit("s4");
    reveal_strlit("s5");
    reveal_strlit("s6");
    reveal_strlit("s7");
    reveal_strlit("s8");
    reveal_strlit("s9");
    reveal_strlit("s10");
    reveal_strlit("s11");
    reveal_strlit("t3");
    reveal_strlit("t4");
    reveal_strlit("t5");
    reveal_strlit("t6");
}

/// A literal is made of the characters of literals and ends in a digit.
proof fn lemma_literal_chars(negative: bool, size: nat, radix: Radix, capital: bool)
    ensures
        literal(negative, size, radix, capital).len() > 0,
        forall|i: int|
            0 <= i < literal(negative, size, radix, capital).len() ==> is_literal_char(
                #[trigger] literal(negative, size, radix, capital)[i],
            ),
        is_digit_char(literal(negative, size, radix, capital).last()),
{
    let t = literal(negative, size, radix, capital);
    let digits = digits_of(size, radix, capital);
    lemma_digits_of(size, radix, capital);
    let sign = if negative {
        seq!['-']
    } else {
        Seq::<char>::empty()
    };
    let prefix = if radix == Radix::Hex {
        if capital {
            seq!['0', 'X']
        } else {
            seq!['0', 'x']
        }
    } else {
        Seq::<char>::empty()
    };
    assert(t == sign + prefix + digits);
    assert forall|i: int| 0 <= i < t.len() implies is_literal_char(#[trigger] t[i]) by {
        if i < sign.len() {
        } else if i < sign.len() + prefix.len() {
            assert(t[i] == prefix[i - sign.len()]);
        } else {
            assert(t[i] == digits[i - sign.len() - prefix.len()]);
            assert(is_digit_char(digits[i - sign.len() - prefix.len()]));
        }
    }
    assert(t.last() == digits.last());
    assert(is_digit_char(digits[digits.len() - 1]));
}

} // verus!
