use rv32_mini_asm::{
    parse_i32, parse_mem_operand, parse_operands, parse_reg, parse_u32_word, strip_comment,
};

/// Calls `check` with every text of at most `max_len` characters over
/// `alphabet`.
fn for_each_text(alphabet: &[char], max_len: usize, check: &dyn Fn(&str)) {
    let mut indices: Vec<usize> = Vec::new();
    loop {
        let text: String = indices.iter().map(|&i| alphabet[i]).collect();
        check(&text);
        let mut pos = indices.len();
        loop {
            if pos == 0 {
                if indices.len() == max_len {
                    return;
                }
                indices = vec![0; indices.len() + 1];
                break;
            }
            pos -= 1;
            if indices[pos] + 1 < alphabet.len() {
                indices[pos] += 1;
                break;
            }
            indices[pos] = 0;
        }
    }
}

/// The number that `text` denotes where it is digits of `radix` and
/// nothing else.
fn digits(text: &str, radix: u32) -> Option<u64> {
    if text.is_empty() || !text.chars().all(|c| c.is_digit(radix)) {
        return None;
    }
    u64::from_str_radix(text, radix).ok()
}

fn std_i32(token: &str) -> Option<i32> {
    let cleaned = token.trim().trim_end_matches(',').replace('_', "");
    let (negative, body) = match cleaned.strip_prefix('-') {
        Some(rest) => (true, rest),
        None => (false, cleaned.as_str()),
    };
    let size = match body.strip_prefix("0x").or_else(|| body.strip_prefix("0X")) {
        Some(hex) => digits(hex, 16)?,
        None => digits(body, 10)?,
    };
    let size = i64::try_from(size).ok()?;
    i32::try_from(if negative { -size } else { size }).ok()
}

fn std_reg(token: &str) -> Option<u8> {
    let cleaned = token.trim().trim_end_matches(',').to_ascii_lowercase();
    if let Some(number) = cleaned.strip_prefix('x') {
        return digits(number, 10).filter(|&n| n <= 31).map(|n| n as u8);
    }
    let names = [
        "zero", "ra", "sp", "gp", "tp", "t0", "t1", "t2", "s0", "s1", "a0", "a1", "a2", "a3",
        "a4", "a5", "a6", "a7", "s2", "s3", "s4", "s5", "s6", "s7", "s8", "s9", "s10", "s11",
        "t3", "t4", "t5", "t6",
    ];
    if cleaned == "fp" {
        return Some(8);
    }
    names.iter().position(|&n| n == cleaned).map(|i| i as u8)
}

fn std_word(line: &str) -> Option<u32> {
    let cleaned = line.trim().replace('_', "");
    let value = match cleaned.strip_prefix("0x").or_else(|| cleaned.strip_prefix("0X")) {
        Some(hex) => digits(hex, 16)?,
        None => digits(&cleaned, 10)?,
    };
    u32::try_from(value).ok()
}

fn std_mem_operand(token: &str) -> Option<(i32, u8)> {
    let cleaned = token.trim().trim_end_matches(',');
    let open = cleaned.find('(')?;
    let close = cleaned.rfind(')')?;
    if close <= open {
        return None;
    }
    let offset = cleaned[..open].trim();
    let base = cleaned[open + 1..close].trim();
    let offset = if offset.is_empty() { 0 } else { std_i32(offset)? };
    Some((offset, std_reg(base)?))
}

#[test]
fn immediates_over_a_small_alphabet() {
    let alphabet = ['0', '1', '9', 'a', 'f', 'g', 'x', 'X', '-', '+', '_', ' ', ','];
    for_each_text(&alphabet, 5, &|text| {
        assert_eq!(parse_i32(text, 1).ok(), std_i32(text), "{:?}", text);
    });
}

#[test]
fn long_immediates() {
    let alphabet = ['0', '2', '7', '8', '9', 'f'];
    for prefix in ["", "-", "0x", "-0x", "+", "--"] {
        for digits in [7usize, 8, 9, 10, 15, 16, 17, 18, 19, 20] {
            for_each_text(&alphabet, 2, &|head| {
                let text = format!("{}{}{}", prefix, head, "7".repeat(digits));
                assert_eq!(parse_i32(&text, 1).ok(), std_i32(&text), "{:?}", text);
                let text = format!("{}{}{}", prefix, head, "0".repeat(digits));
                assert_eq!(parse_i32(&text, 1).ok(), std_i32(&text), "{:?}", text);
            });
        }
    }
}

#[test]
fn registers_over_a_small_alphabet() {
    let alphabet = ['x', 'X', '0', '1', '2', '3', '9', 'a', 's', 't', 'p', 'f', '+', '-', ' ', ','];
    for_each_text(&alphabet, 4, &|text| {
        assert_eq!(parse_reg(text, 1).ok(), std_reg(text), "{:?}", text);
    });
}

#[test]
fn words_over_a_small_alphabet() {
    let alphabet = ['0', '4', '9', 'a', 'F', 'g', 'x', 'X', '-', '+', '_', ' '];
    for_each_text(&alphabet, 5, &|text| {
        assert_eq!(parse_u32_word(text), std_word(text), "{:?}", text);
    });
    for text in ["4294967295", "4294967296", "0xffffffff", "0x100000000", "00000000000000000001"] {
        assert_eq!(parse_u32_word(text), std_word(text), "{:?}", text);
    }
}

#[test]
fn mem_operands_over_a_small_alphabet() {
    let alphabet = ['(', ')', 'x', '1', '-', ' ', ',', 'a', '0'];
    for_each_text(&alphabet, 6, &|text| {
        assert_eq!(parse_mem_operand(text, 1).ok(), std_mem_operand(text), "{:?}", text);
    });
}

#[test]
fn comments_over_a_small_alphabet() {
    let alphabet = ['#', '/', 'a', ' '];
    for_each_text(&alphabet, 7, &|text| {
        let hash = text.find('#');
        let slashes = text.find("//");
        let cut = match (hash, slashes) {
            (Some(h), Some(s)) => h.min(s),
            (Some(h), None) => h,
            (None, Some(s)) => s,
            (None, None) => text.len(),
        };
        assert_eq!(strip_comment(text), &text[..cut], "{:?}", text);
    });
}

#[test]
fn operands_over_a_small_alphabet() {
    let alphabet = [',', ' ', 'a', 'b', '\t'];
    for_each_text(&alphabet, 7, &|text| {
        let expected: Vec<&str> =
            text.split(',').map(|part| part.trim()).filter(|part| !part.is_empty()).collect();
        assert_eq!(parse_operands(text), expected, "{:?}", text);
    });
}
