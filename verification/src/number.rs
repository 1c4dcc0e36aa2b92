//! Numbers: digits in radix 10 or 16, read and written.

use vstd::prelude::*;

verus! {

/// The radix of a number.
#[derive(Clone, Copy, Debug, PartialEq, Eq, Structural)]
pub enum Radix {
    Decimal,
    Hex,
}

impl Radix {
    /// The number of digits of the radix: 10 or 16.
    pub open spec fn base(self) -> int {
        match self {
            Radix::Decimal => 10,
            Radix::Hex => 16,
        }
    }
}

/// The value of `c` as a digit in `radix`, if it is one.  The letters of
/// hexadecimal digits may be small or capital.
pub open spec fn digit_value(c: char, radix: Radix) -> Option<int> {
    if '0' <= c <= '9' {
        Some(c as int - '0' as int)
    } else if radix == Radix::Hex && 'a' <= c <= 'f' {
        Some(c as int - 'a' as int + 10)
    } else if radix == Radix::Hex && 'A' <= c <= 'F' {
        Some(c as int - 'A' as int + 10)
    } else {
        None
    }
}

/// Whether every character of `s` is a digit in `radix`.
pub open spec fn all_digits(s: Seq<char>, radix: Radix) -> bool {
    forall|i: int| 0 <= i < s.len() ==> (#[trigger] digit_value(s[i], radix)) is Some
}

/// The number that the digits `s` denote in `radix`, most significant digit
/// first; the empty sequence denotes 0.
pub open spec fn digits_value(s: Seq<char>, radix: Radix) -> int
    decreases s.len(),
{
    if s.len() == 0 {
        0
    } else {
        digits_value(s.drop_last(), radix) * radix.base() + digit_value(s.last(), radix).unwrap()
    }
}

/// The number that `s` denotes where it is made of digits of `radix` and
/// of nothing else, at least one, and denotes no more than `max`; `None`
/// for any other text.  A sign is no part of a number.
pub open spec fn number_upto(s: Seq<char>, radix: Radix, max: int) -> Option<int> {
    if s.len() > 0 && all_digits(s, radix) && digits_value(s, radix) <= max {
        Some(digits_value(s, radix))
    } else {
        None
    }
}

/// A prefix of digits denotes no more than the whole.
pub proof fn lemma_digits_value_prefix(s: Seq<char>, radix: Radix, k: int)
    requires
        all_digits(s, radix),
        0 <= k <= s.len(),
    ensures
        0 <= digits_value(s.take(k), radix) <= digits_value(s, radix),
    decreases s.len() - k,
{
    if k == s.len() {
        assert(s.take(k) =~= s);
        lemma_digits_value_nonnegative(s, radix);
    } else {
        let t = s.drop_last();
        assert(all_digits(t, radix)) by {
            assert forall|i: int| 0 <= i < t.len() implies (#[trigger] digit_value(
                t[i],
                radix,
            )) is Some by {
                assert(t[i] == s[i]);
            }
        }
        lemma_digits_value_prefix(t, radix, k);
        assert(t.take(k) =~= s.take(k));
        assert(digit_value(s.last(), radix) is Some);
        assert(digits_value(t, radix) * radix.base() >= digits_value(t, radix))
            by (nonlinear_arith)
            requires
                digits_value(t, radix) >= 0,
                radix.base() >= 1,
        ;
    }
}

/// Digits denote a natural number.
pub proof fn lemma_digits_value_nonnegative(s: Seq<char>, radix: Radix)
    requires
        all_digits(s, radix),
    ensures
        0 <= digits_value(s, radix),
    decreases s.len(),
{
    if s.len() > 0 {
        let t = s.drop_last();
        assert(all_digits(t, radix)) by {
            assert forall|i: int| 0 <= i < t.len() implies (#[trigger] digit_value(
                t[i],
                radix,
            )) is Some by {
                assert(t[i] == s[i]);
            }
        }
        lemma_digits_value_nonnegative(t, radix);
        assert(digit_value(s.last(), radix) is Some);
        assert(digits_value(t, radix) * radix.base() >= 0) by (nonlinear_arith)
            requires
                digits_value(t, radix) >= 0,
                radix.base() >= 1,
        ;
    }
}

/// The value of `c` as a digit in `radix`, if it is one.
pub fn digit_of_char(c: char, radix: Radix) -> (r: Option<u8>)
    ensures
        match r {
            Some(d) => digit_value(c, radix) == Some(d as int) && d < radix.base(),
            None => digit_value(c, radix) is None,
        },
{
    let hex = match radix {
        Radix::Decimal => false,
        Radix::Hex => true,
    };
    if '0' <= c && c <= '9' {
        Some((c as u8) - 48)
    } else if hex && 'a' <= c && c <= 'f' {
        Some((c as u8) - 97 + 10)
    } else if hex && 'A' <= c && c <= 'F' {
        Some((c as u8) - 65 + 10)
    } else {
        None
    }
}

/// Whether `s` is a number in `radix`: digits, at least one, and nothing
/// else.
pub fn is_number(s: &[char], radix: Radix) -> (r: bool)
    ensures
        r == (s@.len() > 0 && all_digits(s@, radix)),
{
    let mut i: usize = 0;
    while i < s.len()
        invariant
            i <= s.len(),
            all_digits(s@.take(i as int), radix),
        decreases s.len() - i,
    {
        if digit_of_char(s[i], radix).is_none() {
            return false;
        }
        proof {
            let next = s@.take(i + 1);
            assert forall|k: int| 0 <= k < next.len() implies (#[trigger] digit_value(
                next[k],
                radix,
            )) is Some by {
                if k < i {
                    assert(next[k] == s@.take(i as int)[k]);
                }
            }
        }
        i += 1;
    }
    proof {
        assert(s@.take(s.len() as int) =~= s@);
    }
    s.len() > 0
}

/// Reads the digits `s` as a number of at most `limit`.
pub fn parse_digits(s: &[char], radix: Radix, limit: u64) -> (r: Option<u64>)
    ensures
        match r {
            Some(v) => number_upto(s@, radix, limit as int) == Some(v as int),
            None => number_upto(s@, radix, limit as int) is None,
        },
{
    if s.len() == 0 {
        return None;
    }
    let base: u128 = match radix {
        Radix::Decimal => 10,
        Radix::Hex => 16,
    };
    let mut acc: u64 = 0;
    let mut i: usize = 0;
    while i < s.len()
        invariant
            base == radix.base(),
            i <= s.len(),
            all_digits(s@.take(i as int), radix),
            acc == digits_value(s@.take(i as int), radix),
            acc <= limit,
        decreases s.len() - i,
    {
        let ghost prefix = s@.take(i as int);
        let ghost next = s@.take(i + 1);
        proof {
            assert(next.drop_last() =~= prefix);
            assert(next.last() == s@[i as int]);
        }
        match digit_of_char(s[i], radix) {
            None => {
                proof {
                    assert(!all_digits(s@, radix));
                }
                return None;
            },
            Some(d) => {
                proof {
                    assert(all_digits(next, radix)) by {
                        assert forall|k: int| 0 <= k < next.len() implies (#[trigger] digit_value(
                            next[k],
                            radix,
                        )) is Some by {
                            if k < i {
                                assert(next[k] == prefix[k]);
                            }
                        }
                    }
                    assert(0 <= (acc as int) * (base as int) <= 0xffff_ffff_ffff_ffff * 16)
                        by (nonlinear_arith)
                        requires
                            0 <= acc <= 0xffff_ffff_ffff_ffff,
                            0 <= base <= 16,
                    ;
                }
                let wide: u128 = (acc as u128) * base + (d as u128);
                if wide > limit as u128 {
                    proof {
                        if all_digits(s@, radix) {
                            lemma_digits_value_prefix(s@, radix, i + 1);
                        }
                    }
                    return None;
                }
                acc = wide as u64;
                i += 1;
            },
        }
    }
    proof {
        assert(s@.take(s.len() as int) =~= s@);
    }
    Some(acc)
}

/// The character that stands for the digit `d`; the letters of the digits
/// from 10 on are capital where `capital` holds.
pub open spec fn digit_char(d: int, capital: bool) -> char {
    if d < 10 {
        ((48 + d) as u8) as char
    } else if capital {
        ((55 + d) as u8) as char
    } else {
        ((87 + d) as u8) as char
    }
}

/// The digits of `n` in `radix`: most significant first, without leading
/// zeros; one zero for 0.  Letters are capital where `capital` holds.
pub open spec fn digits_of(n: nat, radix: Radix, capital: bool) -> Seq<char>
    decreases n,
{
    match radix {
        Radix::Decimal => if n < 10 {
            seq![digit_char(n as int, capital)]
        } else {
            digits_of(n / 10, radix, capital).push(digit_char((n % 10) as int, capital))
        },
        Radix::Hex => if n < 16 {
            seq![digit_char(n as int, capital)]
        } else {
            digits_of(n / 16, radix, capital).push(digit_char((n % 16) as int, capital))
        },
    }
}

/// Whether `c` is a digit or a letter from `a` to `f`, small or capital.
pub open spec fn is_digit_char(c: char) -> bool {
    '0' <= c <= '9' || 'a' <= c <= 'f' || 'A' <= c <= 'F'
}

/// The digits of a number are digits and nothing else, at least one, and
/// denote the number; decimal digits are no letters.
pub proof fn lemma_digits_of(n: nat, radix: Radix, capital: bool)
    ensures
        digits_of(n, radix, capital).len() >= 1,
        all_digits(digits_of(n, radix, capital), radix),
        digits_value(digits_of(n, radix, capital), radix) == n,
        forall|i: int|
            0 <= i < digits_of(n, radix, capital).len() ==> is_digit_char(
                #[trigger] digits_of(n, radix, capital)[i],
            ),
        radix == Radix::Decimal ==> forall|i: int|
            0 <= i < digits_of(n, radix, capital).len() ==> '0' <= (#[trigger] digits_of(
                n,
                radix,
                capital,
            )[i]) <= '9',
    decreases n,
{
    let s = digits_of(n, radix, capital);
    if n < radix.base() {
        assert(s.drop_last() =~= Seq::<char>::empty());
        assert(digits_value(s.drop_last(), radix) == 0);
        assert(digit_value(s.last(), radix) == Some(n as int));
        assert(digit_value(s[0], radix) is Some);
    } else {
        let q = match radix {
            Radix::Decimal => n / 10,
            Radix::Hex => n / 16,
        };
        let r = match radix {
            Radix::Decimal => (n % 10) as int,
            Radix::Hex => (n % 16) as int,
        };
        lemma_digits_of(q, radix, capital);
        let t = digits_of(q, radix, capital);
        assert(s == t.push(digit_char(r, capital)));
        assert(s.drop_last() =~= t);
        assert(digit_value(digit_char(r, capital), radix) == Some(r));
        assert(is_digit_char(digit_char(r, capital)));
        assert forall|i: int| 0 <= i < s.len() implies (#[trigger] digit_value(s[i], radix))
            is Some by {
            if i < t.len() {
                assert(s[i] == t[i]);
            }
        }
        assert forall|i: int| 0 <= i < s.len() implies is_digit_char(#[trigger] s[i]) by {
            if i < t.len() {
                assert(s[i] == t[i]);
            }
        }
        if radix == Radix::Decimal {
            assert forall|i: int| 0 <= i < s.len() implies '0' <= (#[trigger] s[i]) <= '9' by {
                if i < t.len() {
                    assert(s[i] == t[i]);
                }
            }
        }
    }
}

} // verus!
