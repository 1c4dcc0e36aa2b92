use rv32_mini_asm::chars::{
    find_end_of_last, find_first, find_word_end, is_space_char, leading_space, line_ranges,
    lower_chars, lower_of_char, squeeze_chars, strip_commas_chars, trim_bounds, trim_chars,
    without_underscores_chars,
};
use rv32_mini_asm::number::{digit_of_char, parse_digits, Radix};
use rv32_mini_asm::text::{chars_of, same_text, string_of};

fn chars(s: &str) -> Vec<char> {
    s.chars().collect()
}

fn text(s: &[char]) -> String {
    s.iter().collect()
}

const SAMPLES: [&str; 14] = [
    "",
    " ",
    "a",
    "  a  ",
    "\t a b \r\n",
    "a,b,,",
    ",,,",
    "\u{2003}x\u{3000}",
    "one  two\tthree",
    "   lead",
    "trail   ",
    "A_b_C",
    "__",
    "mid\u{a0}dle \u{85} x",
];

#[test]
fn white_space_is_what_std_calls_white_space() {
    for code in 0u32..=0x10ffff {
        if let Some(c) = char::from_u32(code) {
            assert_eq!(is_space_char(c), c.is_whitespace(), "{:x}", code);
        }
    }
}

#[test]
fn lower_case_is_what_std_calls_ascii_lower_case() {
    for code in 0u32..=0x10ffff {
        if let Some(c) = char::from_u32(code) {
            assert_eq!(lower_of_char(c), c.to_ascii_lowercase(), "{:x}", code);
        }
    }
    for s in SAMPLES {
        assert_eq!(text(&lower_chars(&chars(s))), s.to_ascii_lowercase());
    }
}

#[test]
fn trimming_agrees_with_std() {
    for s in SAMPLES {
        let c = chars(s);
        assert_eq!(text(trim_chars(&c)), s.trim(), "{:?}", s);
        let (a, b) = trim_bounds(&c);
        assert_eq!(text(&c[a..b]), s.trim(), "{:?}", s);
        assert_eq!(text(&c[leading_space(&c)..]), s.trim_start(), "{:?}", s);
        assert_eq!(text(strip_commas_chars(&c)), s.trim_end_matches(','), "{:?}", s);
        assert_eq!(text(&without_underscores_chars(&c)), s.replace('_', ""), "{:?}", s);
    }
}

#[test]
fn squeezing_agrees_with_std() {
    for s in SAMPLES {
        let expected = s.split_whitespace().collect::<Vec<_>>().join(" ");
        assert_eq!(text(&squeeze_chars(&chars(s))), expected, "{:?}", s);
    }
}

#[test]
fn searching_agrees_with_std() {
    for s in SAMPLES {
        let c = chars(s);
        for needle in [',', ' ', 'a', '_', 'x'] {
            let first = c.iter().position(|&x| x == needle).unwrap_or(c.len());
            let last = c.iter().rposition(|&x| x == needle).map(|i| i + 1).unwrap_or(0);
            assert_eq!(find_first(&c, needle), first);
            assert_eq!(find_end_of_last(&c, needle), last);
        }
        let word = c.iter().position(|x| x.is_whitespace()).unwrap_or(c.len());
        assert_eq!(find_word_end(&c), word);
    }
}

#[test]
fn lines_agree_with_std() {
    let texts = [
        "",
        "\n",
        "a",
        "a\n",
        "a\nb",
        "a\n\nb\n",
        "a\r\nb\r\n",
        "\r\n",
        "a\r\r\nb",
        "\n\n\n",
        "one\ntwo\r\nthree",
    ];
    for s in texts {
        let c = chars(s);
        let lines: Vec<String> = line_ranges(&c).iter().map(|&(a, b)| text(&c[a..b])).collect();
        let expected: Vec<String> = s.lines().map(String::from).collect();
        assert_eq!(lines, expected, "{:?}", s);
    }
}

#[test]
fn a_carriage_return_without_a_line_feed_stays() {
    let c = chars("a\r");
    assert_eq!(line_ranges(&c), vec![(0, 2)]);
    let c = chars("a\rb\n");
    assert_eq!(line_ranges(&c), vec![(0, 3)]);
}

#[test]
fn strings_and_characters() {
    for s in SAMPLES {
        assert_eq!(chars_of(s), chars(s));
        assert_eq!(string_of(&chars(s)), s);
        assert!(same_text(&chars(s), s));
        assert!(!same_text(&chars(s), "other"));
    }
    assert!(!same_text(&chars("add"), "addi"));
    assert!(!same_text(&chars("addi"), "add"));
    assert!(!same_text(&chars("adx"), "add"));
}

#[test]
fn digits() {
    for (c, d) in "0123456789".chars().zip(0u8..) {
        assert_eq!(digit_of_char(c, Radix::Decimal), Some(d));
        assert_eq!(digit_of_char(c, Radix::Hex), Some(d));
    }
    for (c, d) in "abcdef".chars().zip(10u8..) {
        assert_eq!(digit_of_char(c, Radix::Hex), Some(d));
        assert_eq!(digit_of_char(c.to_ascii_uppercase(), Radix::Hex), Some(d));
        assert_eq!(digit_of_char(c, Radix::Decimal), None);
    }
    for c in ['g', 'G', '/', ':', '@', '`', ' ', '-', '+', '_', '\u{663}'] {
        assert_eq!(digit_of_char(c, Radix::Hex), None);
        assert_eq!(digit_of_char(c, Radix::Decimal), None);
    }
}

#[test]
fn numbers_are_digits_and_nothing_else() {
    let texts = [
        "", "0", "7", "007", "+7", "-7", "+", "-", "++7", "18446744073709551615",
        "18446744073709551616", "9223372036854775807", "9223372036854775808", "ff", "FF", "fF",
        "7fffffffffffffff", "8000000000000000", "ffffffffffffffff", "10000000000000000", "1_0",
        " 1", "1 ", "0x1", "g", "\u{663}",
    ];
    for s in texts {
        let c = chars(s);
        for (radix, base) in [(Radix::Decimal, 10), (Radix::Hex, 16)] {
            let expected = if !s.is_empty() && s.chars().all(|x| x.is_digit(base)) {
                u64::from_str_radix(s, base).ok()
            } else {
                None
            };
            assert_eq!(parse_digits(&c, radix, u64::MAX), expected, "{:?}", s);
            assert_eq!(parse_digits(&c, radix, 255), expected.filter(|&v| v <= 255), "{:?}", s);
            assert_eq!(
                parse_digits(&c, radix, 0x7fff_ffff_ffff_ffff),
                expected.filter(|&v| v <= i64::MAX as u64),
                "{:?}",
                s
            );
        }
    }
    assert_eq!(parse_digits(&chars("123"), Radix::Decimal, 123), Some(123));
    assert_eq!(parse_digits(&chars("123"), Radix::Decimal, 122), None);
    assert_eq!(parse_digits(&chars("+1"), Radix::Decimal, 10), None);
    assert_eq!(parse_digits(&chars("-1"), Radix::Decimal, 10), None);
    assert_eq!(parse_digits(&chars("ff"), Radix::Hex, 255), Some(255));
    assert_eq!(parse_digits(&chars("ff"), Radix::Decimal, 255), None);
}
