//! Passing between strings and the characters they hold.

use vstd::prelude::*;

verus! {

/// `String::push` appends one character to the string.
pub assume_specification[ String::push ](s: &mut String, ch: char)
    ensures
        final(s)@ == old(s)@.push(ch),
;

/// The characters of `s`, in order.
pub fn chars_of(s: &str) -> (out: Vec<char>)
    ensures
        out@ == s@,
{
    let mut out: Vec<char> = Vec::new();
    for c in it: s.chars()
        invariant
            out@ == it.seq().take(it.index() as int),
    {
        out.push(c);
    }
    out
}

/// The string that holds the characters `s`, in order.
pub fn string_of(s: &[char]) -> (out: String)
    ensures
        out@ == s@,
{
    let mut out = String::new();
    let mut i: usize = 0;
    while i < s.len()
        invariant
            i <= s.len(),
            out@ == s@.take(i as int),
        decreases s.len() - i,
    {
        out.push(s[i]);
        proof {
            assert(s@.take(i + 1) =~= s@.take(i as int).push(s@[i as int]));
        }
        i += 1;
    }
    proof {
        assert(s@.take(s.len() as int) =~= s@);
    }
    out
}

/// Whether `s` holds exactly the characters of `word`.
pub fn same_text(s: &[char], word: &str) -> (r: bool)
    ensures
        r == (s@ == word@),
{
    let mut same = true;
    let mut i: usize = 0;
    for c in it: word.chars()
        invariant
            it.seq() == word@,
            same ==> i == it.index() && i <= s@.len() && s@.take(i as int) == word@.take(i as int),
            !same ==> s@ != word@,
    {
        if same {
            if i < s.len() && s[i] == c {
                proof {
                    assert(s@.take(i + 1) =~= s@.take(i as int).push(s@[i as int]));
                    assert(word@.take(i + 1) =~= word@.take(i as int).push(word@[i as int]));
                }
                i += 1;
            } else {
                proof {
                    if s@ == word@ {
                        assert(s@[i as int] == c);
                    }
                }
                same = false;
            }
        }
    }
    proof {
        if same {
            assert(word@.take(word@.len() as int) =~= word@);
            if i == s@.len() {
                assert(s@.take(i as int) =~= s@);
            }
        }
    }
    same && i == s.len()
}

} // verus!
