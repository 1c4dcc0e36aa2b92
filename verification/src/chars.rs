//! Character sequences: white space, trimming, searching and splitting.

use vstd::prelude::*;
use vstd::slice::slice_subrange;

verus! {

/// Whether `c` is white space as Unicode defines it (`White_Space`).
pub open spec fn is_space(c: char) -> bool {
    let u = c as u32;
    (0x09 <= u <= 0x0D) || u == 0x20 || u == 0x85 || u == 0xA0 || u == 0x1680 || (0x2000 <= u
        <= 0x200A) || u == 0x2028 || u == 0x2029 || u == 0x202F || u == 0x205F || u == 0x3000
}

/// `s` without its leading white space.
pub open spec fn trim_start(s: Seq<char>) -> Seq<char>
    decreases s.len(),
{
    if s.len() > 0 && is_space(s[0]) {
        trim_start(s.drop_first())
    } else {
        s
    }
}

/// `s` without its trailing white space.
pub open spec fn trim_end(s: Seq<char>) -> Seq<char>
    decreases s.len(),
{
    if s.len() > 0 && is_space(s.last()) {
        trim_end(s.drop_last())
    } else {
        s
    }
}

/// `s` without leading and trailing white space.
pub open spec fn trim(s: Seq<char>) -> Seq<char> {
    trim_end(trim_start(s))
}

/// `s` without its trailing commas.
pub open spec fn strip_commas(s: Seq<char>) -> Seq<char>
    decreases s.len(),
{
    if s.len() > 0 && s.last() == ',' {
        strip_commas(s.drop_last())
    } else {
        s
    }
}

/// The lower-case form of an ASCII capital; any other character unchanged.
pub open spec fn lower_char(c: char) -> char {
    if 'A' <= c <= 'Z' {
        ((c as u8) + 32) as char
    } else {
        c
    }
}

/// `s` with every ASCII capital in lower case.
pub open spec fn lower(s: Seq<char>) -> Seq<char> {
    Seq::new(s.len(), |i: int| lower_char(s[i]))
}

/// `s` without its underscores.
pub open spec fn without_underscores(s: Seq<char>) -> Seq<char>
    decreases s.len(),
{
    if s.len() == 0 {
        s
    } else if s.last() == '_' {
        without_underscores(s.drop_last())
    } else {
        without_underscores(s.drop_last()).push(s.last())
    }
}

/// The position of the first `c` in `s`, or `s.len()` where there is none.
pub open spec fn first_index(s: Seq<char>, c: char) -> int
    decreases s.len(),
{
    if s.len() == 0 || s[0] == c {
        0
    } else {
        1 + first_index(s.drop_first(), c)
    }
}

/// The position just behind the last `c` in `s`, or 0 where there is none.
pub open spec fn end_of_last(s: Seq<char>, c: char) -> int
    decreases s.len(),
{
    if s.len() == 0 || s.last() == c {
        s.len() as int
    } else {
        end_of_last(s.drop_last(), c)
    }
}

/// Leading white space can be dropped before the rest is trimmed at its
/// start.
pub proof fn lemma_trim_start_skip(s: Seq<char>, i: int)
    requires
        0 <= i <= s.len(),
        forall|k: int| 0 <= k < i ==> is_space(#[trigger] s[k]),
    ensures
        trim_start(s) == trim_start(s.skip(i)),
    decreases i,
{
    if i == 0 {
        assert(s.skip(0) =~= s);
    } else {
        assert(is_space(s[0]));
        lemma_trim_start_skip(s.drop_first(), i - 1);
        assert(s.drop_first().skip(i - 1) =~= s.skip(i));
    }
}

/// Trailing white space can be dropped before the rest is trimmed at its
/// end.
proof fn lemma_trim_end_take(s: Seq<char>, j: int)
    requires
        0 <= j <= s.len(),
        forall|k: int| j <= k < s.len() ==> is_space(#[trigger] s[k]),
    ensures
        trim_end(s) == trim_end(s.take(j)),
    decreases s.len() - j,
{
    if j == s.len() {
        assert(s.take(j) =~= s);
    } else {
        assert(is_space(s.last()));
        lemma_trim_end_take(s.drop_last(), j);
        assert(s.drop_last().take(j) =~= s.take(j));
    }
}

/// Whether `c` is white space.
pub fn is_space_char(c: char) -> (r: bool)
    ensures
        r == is_space(c),
{
    let u: u32 = c as u32;
    (0x09 <= u && u <= 0x0D) || u == 0x20 || u == 0x85 || u == 0xA0 || u == 0x1680 || (0x2000 <= u
        && u <= 0x200A) || u == 0x2028 || u == 0x2029 || u == 0x202F || u == 0x205F || u == 0x3000
}

/// The number of white-space characters that `s` begins with.
pub fn leading_space(s: &[char]) -> (i: usize)
    ensures
        i <= s@.len(),
        s@.skip(i as int) == trim_start(s@),
{
    let mut i: usize = 0;
    while i < s.len() && is_space_char(s[i])
        invariant
            i <= s.len(),
            forall|k: int| 0 <= k < i ==> is_space(#[trigger] s@[k]),
        decreases s.len() - i,
    {
        i += 1;
    }
    proof {
        lemma_trim_start_skip(s@, i as int);
    }
    i
}

/// Where the trimmed part of `s` begins and ends.
pub fn trim_bounds(s: &[char]) -> (r: (usize, usize))
    ensures
        r.0 <= r.1 <= s@.len(),
        s@.subrange(r.0 as int, r.1 as int) == trim(s@),
{
    let i = leading_space(s);
    let mut j: usize = s.len();
    while j > i && is_space_char(s[j - 1])
        invariant
            i <= j <= s.len(),
            forall|k: int| j <= k < s.len() ==> is_space(#[trigger] s@[k]),
        decreases j,
    {
        j -= 1;
    }
    proof {
        let t = s@.skip(i as int);
        lemma_trim_end_take(t, j - i);
        assert(t.take(j - i) =~= s@.subrange(i as int, j as int));
        assert(trim_end(t.take(j - i)) == t.take(j - i));
    }
    (i, j)
}

/// The part of `s` between its leading and its trailing white space.
pub fn trim_chars(s: &[char]) -> (r: &[char])
    ensures
        r@ == trim(s@),
{
    let (i, j) = trim_bounds(s);
    slice_subrange(s, i, j)
}

/// Trailing commas can be dropped before the rest is stripped of its own.
proof fn lemma_strip_commas_take(s: Seq<char>, j: int)
    requires
        0 <= j <= s.len(),
        forall|k: int| j <= k < s.len() ==> #[trigger] s[k] == ',',
    ensures
        strip_commas(s) == strip_commas(s.take(j)),
    decreases s.len() - j,
{
    if j == s.len() {
        assert(s.take(j) =~= s);
    } else {
        assert(s.last() == ',');
        lemma_strip_commas_take(s.drop_last(), j);
        assert(s.drop_last().take(j) =~= s.take(j));
    }
}

/// `s` up to its trailing commas.
pub fn strip_commas_chars(s: &[char]) -> (r: &[char])
    ensures
        r@ == strip_commas(s@),
{
    let mut j: usize = s.len();
    while j > 0 && s[j - 1] == ','
        invariant
            j <= s.len(),
            forall|k: int| j <= k < s.len() ==> #[trigger] s@[k] == ',',
        decreases j,
    {
        j -= 1;
    }
    proof {
        lemma_strip_commas_take(s@, j as int);
        assert(s@.take(j as int) =~= s@.subrange(0, j as int));
    }
    slice_subrange(s, 0, j)
}

/// The lower-case form of `c` where it is an ASCII capital, else `c`.
pub fn lower_of_char(c: char) -> (r: char)
    ensures
        r == lower_char(c),
{
    if 'A' <= c && c <= 'Z' {
        ((c as u8) + 32) as char
    } else {
        c
    }
}

/// A copy of `s` with every ASCII capital in lower case.
pub fn lower_chars(s: &[char]) -> (r: Vec<char>)
    ensures
        r@ == lower(s@),
{
    let mut r: Vec<char> = Vec::new();
    let mut i: usize = 0;
    while i < s.len()
        invariant
            i <= s.len(),
            r@ == lower(s@.take(i as int)),
        decreases s.len() - i,
    {
        r.push(lower_of_char(s[i]));
        proof {
            assert(r@ =~= lower(s@.take(i + 1)));
        }
        i += 1;
    }
    proof {
        assert(s@.take(s.len() as int) =~= s@);
    }
    r
}

/// A copy of `s` without its underscores.
pub fn without_underscores_chars(s: &[char]) -> (r: Vec<char>)
    ensures
        r@ == without_underscores(s@),
{
    let mut r: Vec<char> = Vec::new();
    let mut i: usize = 0;
    while i < s.len()
        invariant
            i <= s.len(),
            r@ == without_underscores(s@.take(i as int)),
        decreases s.len() - i,
    {
        proof {
            assert(s@.take(i + 1).drop_last() =~= s@.take(i as int));
        }
        if s[i] != '_' {
            r.push(s[i]);
        }
        i += 1;
    }
    proof {
        assert(s@.take(s.len() as int) =~= s@);
    }
    r
}

/// The first `c` of `s` stands at `i` where `i` holds the first `c`, or is
/// the length of `s` and `s` holds none.
pub proof fn lemma_first_index(s: Seq<char>, c: char, i: int)
    requires
        0 <= i <= s.len(),
        forall|k: int| 0 <= k < i ==> #[trigger] s[k] != c,
        i == s.len() || s[i] == c,
    ensures
        first_index(s, c) == i,
    decreases i,
{
    if i > 0 {
        lemma_first_index(s.drop_first(), c, i - 1);
    }
}

/// The last `c` of `s` ends at `j` where `j - 1` holds the last `c`, or `j`
/// is 0 and `s` holds none.
proof fn lemma_end_of_last(s: Seq<char>, c: char, j: int)
    requires
        0 <= j <= s.len(),
        forall|k: int| j <= k < s.len() ==> #[trigger] s[k] != c,
        j == 0 || s[j - 1] == c,
    ensures
        end_of_last(s, c) == j,
    decreases s.len() - j,
{
    if j < s.len() {
        lemma_end_of_last(s.drop_last(), c, j);
    }
}

/// The position of the first `c` in `s`, or the length of `s` where there
/// is none.
pub fn find_first(s: &[char], c: char) -> (i: usize)
    ensures
        i == first_index(s@, c),
        i <= s@.len(),
        i < s@.len() ==> s@[i as int] == c,
        forall|k: int| 0 <= k < i ==> #[trigger] s@[k] != c,
{
    let mut i: usize = 0;
    while i < s.len() && s[i] != c
        invariant
            i <= s.len(),
            forall|k: int| 0 <= k < i ==> #[trigger] s@[k] != c,
        decreases s.len() - i,
    {
        i += 1;
    }
    proof {
        lemma_first_index(s@, c, i as int);
    }
    i
}

/// The position just behind the last `c` in `s`, or 0 where there is none.
pub fn find_end_of_last(s: &[char], c: char) -> (j: usize)
    ensures
        j == end_of_last(s@, c),
        j <= s@.len(),
        j > 0 ==> s@[j - 1] == c,
        forall|k: int| j <= k < s@.len() ==> #[trigger] s@[k] != c,
{
    let mut j: usize = s.len();
    while j > 0 && s[j - 1] != c
        invariant
            j <= s.len(),
            forall|k: int| j <= k < s.len() ==> #[trigger] s@[k] != c,
        decreases j,
    {
        j -= 1;
    }
    proof {
        lemma_end_of_last(s@, c, j as int);
    }
    j
}

/// The length of the run of characters other than white space that `s`
/// begins with.
pub open spec fn word_len(s: Seq<char>) -> int
    decreases s.len(),
{
    if s.len() == 0 || is_space(s[0]) {
        0
    } else {
        1 + word_len(s.drop_first())
    }
}

/// `a` and `b` with one blank between them; where either is empty, the
/// other.
pub open spec fn join_blank(a: Seq<char>, b: Seq<char>) -> Seq<char> {
    if a.len() == 0 {
        b
    } else if b.len() == 0 {
        a
    } else {
        a + seq![' '] + b
    }
}

/// The words of `s` with one blank between each two: `s` with every run of
/// white space turned into one blank, and none at either end.
pub open spec fn squeeze(s: Seq<char>) -> Seq<char>
    decreases s.len(),
{
    let t = trim_start(s);
    let n = word_len(t);
    if 0 < n <= t.len() <= s.len() {
        join_blank(t.take(n), squeeze(t.skip(n)))
    } else {
        Seq::empty()
    }
}

/// The first word of `s` is `n` long where the first `n` characters are no
/// white space and the next one, if there is one, is.
pub proof fn lemma_word_len(s: Seq<char>, n: int)
    requires
        0 <= n <= s.len(),
        forall|k: int| 0 <= k < n ==> !is_space(#[trigger] s[k]),
        n == s.len() || is_space(s[n]),
    ensures
        word_len(s) == n,
    decreases n,
{
    if n > 0 {
        lemma_word_len(s.drop_first(), n - 1);
    }
}

/// The length of the run of characters other than white space that `s`
/// begins with.
pub fn find_word_end(s: &[char]) -> (n: usize)
    ensures
        n == word_len(s@),
        n <= s@.len(),
{
    let mut n: usize = 0;
    while n < s.len() && !is_space_char(s[n])
        invariant
            n <= s.len(),
            forall|k: int| 0 <= k < n ==> !is_space(#[trigger] s@[k]),
        decreases s.len() - n,
    {
        n += 1;
    }
    proof {
        lemma_word_len(s@, n as int);
    }
    n
}

/// The words of `s` with one blank between each two.
pub fn squeeze_chars(s: &[char]) -> (out: Vec<char>)
    ensures
        out@ == squeeze(s@),
{
    let mut out: Vec<char> = Vec::new();
    let mut pos: usize = 0;
    proof {
        assert(s@.skip(0) =~= s@);
    }
    loop
        invariant
            pos <= s.len(),
            join_blank(out@, squeeze(s@.skip(pos as int))) == squeeze(s@),
        ensures
            out@ == squeeze(s@),
        decreases s.len() - pos,
    {
        let rest = slice_subrange(s, pos, s.len());
        let i = leading_space(rest);
        let tail = slice_subrange(rest, i, rest.len());
        let n = find_word_end(tail);
        proof {
            assert(rest@ =~= s@.skip(pos as int));
            assert(tail@ =~= rest@.skip(i as int));
            assert(tail@ == trim_start(rest@));
        }
        if n == 0 {
            proof {
                assert(squeeze(rest@) =~= Seq::<char>::empty());
                assert(join_blank(out@, Seq::<char>::empty()) =~= out@);
            }
            break ;
        }
        let ghost before = out@;
        let ghost word = tail@.take(n as int);
        let ghost after = squeeze(tail@.skip(n as int));
        if out.len() > 0 {
            out.push(' ');
        }
        let ghost base = out@;
        let mut k: usize = 0;
        while k < n
            invariant
                k <= n <= tail@.len(),
                out@ == base + tail@.take(k as int),
            decreases n - k,
        {
            out.push(tail[k]);
            proof {
                assert(tail@.take(k + 1) =~= tail@.take(k as int).push(tail@[k as int]));
                assert(out@ =~= base + tail@.take(k + 1));
            }
            k += 1;
        }
        proof {
            assert(squeeze(rest@) == join_blank(word, after));
            assert(out@ =~= join_blank(before, word));
            assert(join_blank(join_blank(before, word), after) =~= join_blank(
                before,
                join_blank(word, after),
            ));
            assert(tail@.skip(n as int) =~= s@.skip(pos + i + n));
        }
        pos = pos + i + n;
    }
    out
}

/// Whether each of `ranges` begins no later than it ends and ends within
/// `len`.
pub open spec fn ranges_within(ranges: Seq<(usize, usize)>, len: nat) -> bool {
    forall|k: int| 0 <= k < ranges.len() ==> (#[trigger] ranges[k]).0 <= ranges[k].1 <= len
}

/// The parts of `s` that `ranges` mark.
pub open spec fn texts_at(ranges: Seq<(usize, usize)>, s: Seq<char>) -> Seq<Seq<char>> {
    Seq::new(ranges.len(), |k: int| s.subrange(ranges[k].0 as int, ranges[k].1 as int))
}

/// `s` without the carriage return that it may end with.
pub open spec fn without_cr(s: Seq<char>) -> Seq<char> {
    if s.len() > 0 && s.last() == '\r' {
        s.drop_last()
    } else {
        s
    }
}

/// The lines of `text`.  A line ends at a line feed, which is no part of
/// it, nor is a carriage return just before the line feed; what follows
/// the last line feed is a line of its own unless it is empty.
pub open spec fn lines_of(text: Seq<char>) -> Seq<Seq<char>>
    decreases text.len(),
{
    let i = first_index(text, '\n');
    if text.len() == 0 {
        Seq::empty()
    } else if 0 <= i < text.len() {
        seq![without_cr(text.take(i))] + lines_of(text.skip(i + 1))
    } else {
        seq![text]
    }
}

/// Where in `s` each of its lines begins and ends.
pub fn line_ranges(s: &[char]) -> (out: Vec<(usize, usize)>)
    ensures
        ranges_within(out@, s@.len()),
        texts_at(out@, s@) == lines_of(s@),
        out@.len() <= s@.len(),
{
    let mut out: Vec<(usize, usize)> = Vec::new();
    let mut start: usize = 0;
    proof {
        assert(s@.skip(0) =~= s@);
        assert(texts_at(out@, s@) + lines_of(s@) =~= lines_of(s@));
    }
    while start < s.len()
        invariant
            start <= s.len(),
            ranges_within(out@, s@.len()),
            out@.len() <= start,
            texts_at(out@, s@) + lines_of(s@.skip(start as int)) == lines_of(s@),
        decreases s.len() - start,
    {
        let rest = slice_subrange(s, start, s.len());
        let i = find_first(rest, '\n');
        let ghost before = out@;
        proof {
            assert(rest@ =~= s@.skip(start as int));
        }
        if i < rest.len() {
            let end = if i > 0 && rest[i - 1] == '\r' {
                start + i - 1
            } else {
                start + i
            };
            out.push((start, end));
            proof {
                let line = without_cr(rest@.take(i as int));
                assert(s@.subrange(start as int, end as int) =~= line);
                assert(texts_at(out@, s@) =~= texts_at(before, s@) + seq![line]);
                assert(rest@.skip(i + 1) =~= s@.skip(start + i + 1));
                assert(texts_at(out@, s@) + lines_of(s@.skip(start + i + 1)) =~= texts_at(
                    before,
                    s@,
                ) + (seq![line] + lines_of(rest@.skip(i + 1))));
            }
            start = start + i + 1;
        } else {
            out.push((start, s.len()));
            proof {
                assert(s@.subrange(start as int, s@.len() as int) =~= rest@);
                assert(texts_at(out@, s@) =~= texts_at(before, s@) + seq![rest@]);
                assert(lines_of(s@.skip(s@.len() as int)) =~= Seq::<Seq<char>>::empty());
                assert(texts_at(out@, s@) + lines_of(s@.skip(s@.len() as int)) =~= texts_at(
                    before,
                    s@,
                ) + seq![rest@]);
            }
            start = s.len();
        }
    }
    proof {
        assert(lines_of(s@.skip(start as int)) =~= Seq::<Seq<char>>::empty());
        assert(texts_at(out@, s@) + Seq::<Seq<char>>::empty() =~= texts_at(out@, s@));
    }
    out
}

} // verus!
