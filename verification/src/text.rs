//! Character-level helpers shared by the parsers.

use vstd::prelude::*;

verus! {

/// Wraps `String::push`: appends one character.
#[verifier::external_body]
pub(crate) fn push_char(s: &mut String, c: char)
    ensures
        final(s)@ == old(s)@.push(c),
{
    s.push(c);
}

/// The characters of `s`, in order.
pub fn chars_of(s: &str) -> (v: Vec<char>)
    ensures
        v@ == s@,
{
    let mut v: Vec<char> = Vec::new();
    for c in iter: s.chars()
        invariant
            iter.seq() == s@,
            v@ == iter.seq().take(iter.index() as int),
    {
        v.push(c);
    }
    v
}

/// A `String` holding exactly `v`.
pub fn string_of(v: &[char]) -> (s: String)
    ensures
        s@ == v@,
{
    let mut s = String::new();
    let mut i: usize = 0;
    while i < v.len()
        invariant
            i <= v.len(),
            s@ == v@.take(i as int),
        decreases v.len() - i,
    {
        push_char(&mut s, v[i]);
        assert(v@.take(i as int).push(v@[i as int]) == v@.take(i + 1));
        i += 1;
    }
    assert(v@.take(v.len() as int) == v@);
    s
}


/// Unicode `White_Space` property, the set `char::is_whitespace` tests.
pub open spec fn is_ws(c: char) -> bool {
    ||| ('\u{9}' <= c && c <= '\u{d}')
    ||| c == ' '
    ||| c == '\u{85}'
    ||| c == '\u{a0}'
    ||| c == '\u{1680}'
    ||| ('\u{2000}' <= c && c <= '\u{200a}')
    ||| c == '\u{2028}'
    ||| c == '\u{2029}'
    ||| c == '\u{202f}'
    ||| c == '\u{205f}'
    ||| c == '\u{3000}'
}

/// Whether `c` has the Unicode `White_Space` property.
pub fn is_whitespace(c: char) -> (b: bool)
    ensures
        b == is_ws(c),
{
    ('\u{9}' <= c && c <= '\u{d}') || c == ' ' || c == '\u{85}' || c == '\u{a0}'
        || c == '\u{1680}' || ('\u{2000}' <= c && c <= '\u{200a}') || c == '\u{2028}'
        || c == '\u{2029}' || c == '\u{202f}' || c == '\u{205f}' || c == '\u{3000}'
}

/// ASCII letter.
pub open spec fn is_ascii_alpha(c: char) -> bool {
    ('a' <= c && c <= 'z') || ('A' <= c && c <= 'Z')
}

/// ASCII decimal digit.
pub open spec fn is_ascii_digit(c: char) -> bool {
    '0' <= c && c <= '9'
}

/// Whether `c` is an ASCII letter.
pub fn ascii_alpha(c: char) -> (b: bool)
    ensures
        b == is_ascii_alpha(c),
{
    ('a' <= c && c <= 'z') || ('A' <= c && c <= 'Z')
}

/// Whether `c` is an ASCII digit.
pub fn ascii_digit(c: char) -> (b: bool)
    ensures
        b == is_ascii_digit(c),
{
    '0' <= c && c <= '9'
}

/// What `char::is_alphanumeric` answers for `c` (Unicode `Alphabetic` or
/// `Numeric`).
pub uninterp spec fn alphanumeric(c: char) -> bool;

/// Wraps `char::is_alphanumeric`. Its documentation gives the Unicode
/// `Alphabetic`/`Numeric` properties; the contract names that answer and
/// states only the ASCII part of it, which those properties fix.
#[verifier::external_body]
pub(crate) fn is_alphanumeric(c: char) -> (b: bool)
    ensures
        b == alphanumeric(c),
        (c as u32) < 128 ==> (b <==> (is_ascii_alpha(c) || is_ascii_digit(c))),
{
    c.is_alphanumeric()
}

/// First index at or after `i` that is not white space (or `s.len()`).
pub open spec fn skip_ws(s: Seq<char>, i: int) -> int
    decreases s.len() - i,
{
    if 0 <= i < s.len() && is_ws(s[i]) {
        skip_ws(s, i + 1)
    } else {
        i
    }
}

pub proof fn lemma_skip_ws(s: Seq<char>, i: int)
    requires
        0 <= i <= s.len(),
    ensures
        i <= skip_ws(s, i) <= s.len(),
        skip_ws(s, i) < s.len() ==> !is_ws(s[skip_ws(s, i)]),
    decreases s.len() - i,
{
    if i < s.len() && is_ws(s[i]) {
        lemma_skip_ws(s, i + 1);
    }
}

/// Index of the first non-space character at or after `i`.
pub fn skip_spaces(s: &Vec<char>, i: usize) -> (j: usize)
    requires
        i <= s.len(),
    ensures
        j == skip_ws(s@, i as int),
        i <= j <= s.len(),
{
    let mut j = i;
    while j < s.len() && is_whitespace(s[j])
        invariant
            i <= j <= s.len(),
            skip_ws(s@, i as int) == skip_ws(s@, j as int),
        decreases s.len() - j,
    {
        j += 1;
    }
    j
}

/// `s` with leading and trailing white space removed.
pub open spec fn trim(s: Seq<char>) -> Seq<char> {
    trim_end(trim_start(s))
}

pub open spec fn trim_start(s: Seq<char>) -> Seq<char> {
    s.skip(skip_ws(s, 0))
}

pub open spec fn trim_end(s: Seq<char>) -> Seq<char>
    decreases s.len(),
{
    if s.len() > 0 && is_ws(s.last()) {
        trim_end(s.drop_last())
    } else {
        s
    }
}


/// A `String` holding `v[from..to]`.
pub fn string_of_range(v: &Vec<char>, from: usize, to: usize) -> (s: String)
    requires
        from <= to <= v.len(),
    ensures
        s@ == v@.subrange(from as int, to as int),
{
    let mut s = String::new();
    let mut i: usize = from;
    while i < to
        invariant
            from <= i <= to <= v.len(),
            s@ == v@.subrange(from as int, i as int),
        decreases to - i,
    {
        push_char(&mut s, v[i]);
        assert(v@.subrange(from as int, i as int).push(v@[i as int]) == v@.subrange(from as int, i + 1));
        i += 1;
    }
    s
}

/// Whether `v[from..to]` is exactly `word`.
pub fn range_is(v: &Vec<char>, from: usize, to: usize, word: &[char]) -> (b: bool)
    requires
        from <= to <= v.len(),
    ensures
        b == (v@.subrange(from as int, to as int) == word@),
{
    if to - from != word.len() {
        assert(v@.subrange(from as int, to as int).len() != word@.len());
        return false;
    }
    let mut i: usize = 0;
    while i < word.len()
        invariant
            to - from == word.len(),
            from <= to <= v.len(),
            i <= word.len(),
            forall|k: int| 0 <= k < i ==> v@[from + k] == word@[k],
        decreases word.len() - i,
    {
        if v[from + i] != word[i] {
            assert(v@.subrange(from as int, to as int)[i as int] != word@[i as int]);
            return false;
        }
        i += 1;
    }
    assert(v@.subrange(from as int, to as int) =~= word@);
    true
}


/// Index of the first `c` at or after `i` in `s`, or `s.len()`.
pub open spec fn find_char(s: Seq<char>, i: int, c: char) -> int
    decreases s.len() - i,
{
    if 0 <= i < s.len() && s[i] != c {
        find_char(s, i + 1, c)
    } else if i < 0 {
        s.len() as int
    } else {
        i
    }
}

pub proof fn lemma_find_char(s: Seq<char>, i: int, c: char)
    requires
        0 <= i <= s.len(),
    ensures
        i <= find_char(s, i, c) <= s.len(),
        find_char(s, i, c) < s.len() ==> s[find_char(s, i, c)] == c,
        forall|k: int| i <= k < find_char(s, i, c) ==> s[k] != c,
    decreases s.len() - i,
{
    if i < s.len() && s[i] != c {
        lemma_find_char(s, i + 1, c);
    }
}

/// Position of the first `c` at or after `i`, or `s.len()`.
pub fn find_char_from(s: &Vec<char>, i: usize, c: char) -> (k: usize)
    requires
        i <= s.len(),
    ensures
        k == find_char(s@, i as int, c),
{
    let mut k = i;
    while k < s.len() && s[k] != c
        invariant
            i <= k <= s.len(),
            find_char(s@, i as int, c) == find_char(s@, k as int, c),
        decreases s.len() - k,
    {
        k += 1;
    }
    k
}

/// A line as `str::lines` yields it: a `\r` before the `\n` is dropped.
pub open spec fn strip_cr(line: Seq<char>, had_newline: bool) -> Seq<char> {
    if had_newline && line.len() > 0 && line.last() == '\r' {
        line.drop_last()
    } else {
        line
    }
}

/// The lines `str::lines` yields for `s[i..]`.
pub open spec fn lines_from(s: Seq<char>, i: int) -> Seq<Seq<char>>
    decreases s.len() - i,
{
    if 0 <= i < s.len() {
        let k = find_char(s, i, '\n');
        proof {
            lemma_find_char(s, i, '\n');
        }
        if k < s.len() {
            seq![strip_cr(s.subrange(i, k), true)] + lines_from(s, k + 1)
        } else {
            seq![s.subrange(i, k)]
        }
    } else {
        Seq::empty()
    }
}

/// The lines of `s`, split at `\n` (dropping a `\r` before it); a final
/// line ending yields no empty line.
pub open spec fn lines(s: Seq<char>) -> Seq<Seq<char>> {
    lines_from(s, 0)
}

/// The lines of `s`, as `str::lines` yields them, each as characters.
pub fn split_lines(s: &Vec<char>) -> (out: Vec<Vec<char>>)
    ensures
        out@.len() == lines(s@).len(),
        forall|k: int| 0 <= k < out@.len() ==> #[trigger] out@[k]@ == lines(s@)[k],
{
    let mut out: Vec<Vec<char>> = Vec::new();
    let mut i: usize = 0;
    let ghost mut done: Seq<Seq<char>> = Seq::empty();
    while i < s.len()
        invariant
            i <= s.len(),
            lines(s@) == done + lines_from(s@, i as int),
            out@.len() == done.len(),
            forall|k: int| 0 <= k < out@.len() ==> #[trigger] out@[k]@ == done[k],
        decreases s.len() - i,
    {
        let k = find_char_from(s, i, '\n');
        proof {
            lemma_find_char(s@, i as int, '\n');
        }
        let mut line: Vec<char> = Vec::new();
        let mut j = i;
        while j < k
            invariant
                i <= j <= k <= s.len(),
                line@ == s@.subrange(i as int, j as int),
            decreases k - j,
        {
            line.push(s[j]);
            assert(s@.subrange(i as int, j as int).push(s@[j as int]) == s@.subrange(i as int, j + 1));
            j += 1;
        }
        if k < s.len() {
            if line.len() > 0 && line[line.len() - 1] == '\r' {
                line.pop();
            }
            proof {
                done = done.push(strip_cr(s@.subrange(i as int, k as int), true));
            }
            out.push(line);
            i = k + 1;
        } else {
            proof {
                done = done.push(s@.subrange(i as int, k as int));
            }
            out.push(line);
            i = k;
        }
    }
    out
}

/// Decimal digits of `n`.
pub open spec fn decimal(n: nat) -> Seq<char>
    decreases n,
{
    if n < 10 {
        seq![digit_char(n)]
    } else {
        decimal(n / 10) + seq![digit_char(n % 10)]
    }
}

pub open spec fn digit_char(d: nat) -> char {
    if d == 0 { '0' }
    else if d == 1 { '1' }
    else if d == 2 { '2' }
    else if d == 3 { '3' }
    else if d == 4 { '4' }
    else if d == 5 { '5' }
    else if d == 6 { '6' }
    else if d == 7 { '7' }
    else if d == 8 { '8' }
    else { '9' }
}

fn digit(d: usize) -> (c: char)
    requires
        d < 10,
    ensures
        c == digit_char(d as nat),
{
    if d == 0 { '0' }
    else if d == 1 { '1' }
    else if d == 2 { '2' }
    else if d == 3 { '3' }
    else if d == 4 { '4' }
    else if d == 5 { '5' }
    else if d == 6 { '6' }
    else if d == 7 { '7' }
    else if d == 8 { '8' }
    else { '9' }
}

/// Appends the decimal form of `n`.
pub fn push_decimal(out: &mut String, n: usize)
    ensures
        final(out)@ == old(out)@ + decimal(n as nat),
    decreases n,
{
    if n < 10 {
        push_char(out, digit(n));
        assert(old(out)@.push(digit_char(n as nat)) =~= old(out)@ + decimal(n as nat));
    } else {
        push_decimal(out, n / 10);
        push_char(out, digit(n % 10));
        assert(final(out)@ =~= old(out)@ + decimal(n as nat));
    }
}

/// Appends `s`.
pub fn push_str(out: &mut String, s: &str)
    ensures
        final(out)@ == old(out)@ + s@,
{
    out.append(s);
}

/// Appends the characters of `s`.
pub fn push_chars(out: &mut String, s: &[char])
    ensures
        final(out)@ == old(out)@ + s@,
{
    let ghost start = out@;
    let mut i: usize = 0;
    while i < s.len()
        invariant
            i <= s.len(),
            out@ == start + s@.take(i as int),
        decreases s.len() - i,
    {
        push_char(out, s[i]);
        assert(start + s@.take(i as int).push(s@[i as int]) =~= start + s@.take(i + 1));
        i += 1;
    }
    assert(s@.take(s@.len() as int) =~= s@);
}


/// `s` with every leading `c` removed.
pub open spec fn trim_start_char(s: Seq<char>, c: char) -> Seq<char>
    decreases s.len(),
{
    if s.len() > 0 && s[0] == c {
        trim_start_char(s.drop_first(), c)
    } else {
        s
    }
}

/// `s` with every trailing `c` removed.
pub open spec fn trim_end_char(s: Seq<char>, c: char) -> Seq<char>
    decreases s.len(),
{
    if s.len() > 0 && s.last() == c {
        trim_end_char(s.drop_last(), c)
    } else {
        s
    }
}

/// `str::trim_matches` with one character: strip it from both ends.
pub open spec fn trim_char(s: Seq<char>, c: char) -> Seq<char> {
    trim_end_char(trim_start_char(s, c), c)
}

/// Bounds of `v[from..to]` with white space trimmed from both ends.
pub fn trim_bounds(v: &Vec<char>, from: usize, to: usize) -> (r: (usize, usize))
    requires
        from <= to <= v.len(),
    ensures
        from <= r.0 <= r.1 <= to,
        v@.subrange(r.0 as int, r.1 as int) == trim(v@.subrange(from as int, to as int)),
{
    let ghost s = v@.subrange(from as int, to as int);
    let mut a = from;
    while a < to && is_whitespace(v[a])
        invariant
            from <= a <= to <= v.len(),
            s == v@.subrange(from as int, to as int),
            trim_start(s) == trim_start(v@.subrange(a as int, to as int)),
        decreases to - a,
    {
        proof {
            lemma_skip_shift(v@.subrange(a as int, to as int));
            assert(v@.subrange(a as int, to as int).drop_first() == v@.subrange(a + 1, to as int));
        }
        a += 1;
    }
    proof {
        let t = v@.subrange(a as int, to as int);
        assert(skip_ws(t, 0) == 0);
        assert(trim_start(t) == t.skip(0));
        assert(t.skip(0) =~= t);
    }
    let mut b = to;
    while b > a && is_whitespace(v[b - 1])
        invariant
            from <= a <= b <= to <= v.len(),
            trim(s) == trim_end(v@.subrange(a as int, b as int)),
        decreases b - a,
    {
        assert(v@.subrange(a as int, b as int).drop_last() == v@.subrange(a as int, b - 1));
        b -= 1;
    }
    (a, b)
}

/// Skipping one leading space of `s` does not change where the spaces end.
pub proof fn lemma_skip_shift(s: Seq<char>)
    requires
        s.len() > 0,
        is_ws(s[0]),
    ensures
        trim_start(s) == trim_start(s.drop_first()),
{
    let d = s.drop_first();
    lemma_skip_tail(s, 1);
    assert(d =~= s.skip(1));
    assert(skip_ws(s, 0) == skip_ws(s, 1));
    lemma_skip_ws(d, 0);
    let x = skip_ws(d, 0);
    assert(s.skip(1 + x) =~= d.skip(x));
}

/// `skip_ws(s, k)` equals `k + skip_ws(s.skip(k), 0)`.
pub proof fn lemma_skip_tail(s: Seq<char>, k: int)
    requires
        0 <= k <= s.len(),
    ensures
        skip_ws(s, k) == k + skip_ws(s.skip(k), 0),
    decreases s.len() - k,
{
    let t = s.skip(k);
    if k < s.len() && is_ws(s[k]) {
        lemma_skip_tail(s, k + 1);
        lemma_skip_tail(t, 1);
        assert(t.skip(1) =~= s.skip(k + 1));
        assert(t[0] == s[k]);
    } else if k < s.len() {
        assert(t[0] == s[k]);
    }
}

/// Bounds of `v[from..to]` with every leading and trailing `c` removed.
pub fn trim_char_bounds(v: &Vec<char>, from: usize, to: usize, c: char) -> (r: (usize, usize))
    requires
        from <= to <= v.len(),
    ensures
        from <= r.0 <= r.1 <= to,
        v@.subrange(r.0 as int, r.1 as int) == trim_char(v@.subrange(from as int, to as int), c),
{
    let mut a = from;
    while a < to && v[a] == c
        invariant
            from <= a <= to <= v.len(),
            trim_start_char(v@.subrange(from as int, to as int), c) == trim_start_char(
                v@.subrange(a as int, to as int),
                c,
            ),
        decreases to - a,
    {
        assert(v@.subrange(a as int, to as int).drop_first() == v@.subrange(a + 1, to as int));
        a += 1;
    }
    let mut b = to;
    while b > a && v[b - 1] == c
        invariant
            from <= a <= b <= to <= v.len(),
            trim_char(v@.subrange(from as int, to as int), c) == trim_end_char(
                v@.subrange(a as int, b as int),
                c,
            ),
        decreases b - a,
    {
        assert(v@.subrange(a as int, b as int).drop_last() == v@.subrange(a as int, b - 1));
        b -= 1;
    }
    (a, b)
}


/// Pieces of `s[i..]` between occurrences of `c` (`str::split`).
pub open spec fn split_from(s: Seq<char>, i: int, c: char) -> Seq<Seq<char>>
    decreases s.len() + 1 - i,
{
    if 0 <= i <= s.len() {
        let k = find_char(s, i, c);
        proof {
            lemma_find_char(s, i, c);
        }
        if k < s.len() {
            seq![s.subrange(i, k)] + split_from(s, k + 1, c)
        } else {
            seq![s.subrange(i, s.len() as int)]
        }
    } else {
        Seq::empty()
    }
}

/// Bytes `c` takes in UTF-8.
pub open spec fn utf8_width(c: char) -> nat {
    if (c as u32) < 0x80 {
        1
    } else if (c as u32) < 0x800 {
        2
    } else if (c as u32) < 0x10000 {
        3
    } else {
        4
    }
}

/// Number of leading characters of `s[i..]` that fit in `budget` bytes.
pub open spec fn fit_end(s: Seq<char>, i: int, budget: int) -> int
    decreases s.len() - i,
{
    if 0 <= i < s.len() && utf8_width(s[i]) <= budget {
        fit_end(s, i + 1, budget - utf8_width(s[i]))
    } else {
        i
    }
}

pub proof fn lemma_fit_end(s: Seq<char>, i: int, budget: int)
    requires
        0 <= i <= s.len(),
    ensures
        i <= fit_end(s, i, budget) <= s.len(),
    decreases s.len() - i,
{
    if i < s.len() && utf8_width(s[i]) <= budget {
        lemma_fit_end(s, i + 1, budget - utf8_width(s[i]));
    }
}

/// Bytes `c` takes in UTF-8.
pub fn char_width(c: char) -> (w: usize)
    ensures
        w == utf8_width(c),
{
    let v = c as u32;
    if v < 0x80 {
        1
    } else if v < 0x800 {
        2
    } else if v < 0x10000 {
        3
    } else {
        4
    }
}

/// First index at or after `i` holding white space (or `s.len()`).
pub open spec fn word_end(s: Seq<char>, i: int) -> int
    decreases s.len() - i,
{
    if 0 <= i < s.len() && !is_ws(s[i]) {
        word_end(s, i + 1)
    } else {
        i
    }
}

/// The first white-space separated word of `s` (empty when none).
pub open spec fn first_word(s: Seq<char>) -> Seq<char> {
    let a = skip_ws(s, 0);
    s.subrange(a, word_end(s, a))
}

pub proof fn lemma_word_end(s: Seq<char>, i: int)
    requires
        0 <= i <= s.len(),
    ensures
        i <= word_end(s, i) <= s.len(),
    decreases s.len() - i,
{
    if i < s.len() && !is_ws(s[i]) {
        lemma_word_end(s, i + 1);
    }
}

/// The first white-space separated word of `s`.
pub fn first_word_of(s: &str) -> (w: String)
    ensures
        w@ == first_word(s@),
{
    let v = chars_of(s);
    let a = skip_spaces(&v, 0);
    let mut b = a;
    while b < v.len() && !is_whitespace(v[b])
        invariant
            a <= b <= v.len(),
            word_end(v@, a as int) == word_end(v@, b as int),
        decreases v.len() - b,
    {
        b += 1;
    }
    string_of_range(&v, a, b)
}

/// What `str::to_lowercase` gives for `s` (the Unicode `Lowercase`
/// mapping of each character).
pub uninterp spec fn lowercase(s: Seq<char>) -> Seq<char>;

/// Wraps `str::to_lowercase`; the contract names its result.
#[verifier::external_body]
pub(crate) fn to_lowercase(s: &str) -> (r: String)
    ensures
        r@ == lowercase(s@),
{
    s.to_lowercase()
}

/// `v[a..b]` as a new vector.
pub fn slice_of(v: &Vec<char>, a: usize, b: usize) -> (r: Vec<char>)
    requires
        a <= b <= v.len(),
    ensures
        r@ == v@.subrange(a as int, b as int),
{
    let mut r: Vec<char> = Vec::new();
    let mut i = a;
    while i < b
        invariant
            a <= i <= b <= v.len(),
            r@ == v@.subrange(a as int, i as int),
        decreases b - i,
    {
        r.push(v[i]);
        assert(v@.subrange(a as int, i + 1) =~= v@.subrange(a as int, i as int).push(v@[i as int]));
        i += 1;
    }
    r
}

/// `v` with white space trimmed from both ends.
pub fn trimmed(v: &Vec<char>) -> (r: Vec<char>)
    ensures
        r@ == trim(v@),
{
    let (a, b) = trim_bounds(v, 0, v.len());
    assert(v@.subrange(0, v@.len() as int) =~= v@);
    slice_of(v, a, b)
}

/// `v` with leading white space removed.
pub fn trimmed_start(v: &Vec<char>) -> (r: Vec<char>)
    ensures
        r@ == trim_start(v@),
{
    let a = skip_spaces(v, 0);
    let r = slice_of(v, a, v.len());
    assert(r@ =~= v@.skip(a as int));
    r
}

/// `v` with trailing white space removed.
pub fn trimmed_end(v: &Vec<char>) -> (r: Vec<char>)
    ensures
        r@ == trim_end(v@),
{
    let mut b = v.len();
    assert(v@.subrange(0, v@.len() as int) =~= v@);
    while b > 0 && is_whitespace(v[b - 1])
        invariant
            b <= v.len(),
            trim_end(v@) == trim_end(v@.subrange(0, b as int)),
        decreases b,
    {
        assert(v@.subrange(0, b as int).drop_last() =~= v@.subrange(0, b - 1));
        b -= 1;
    }
    assert(v@.subrange(0, v@.len() as int) =~= v@);
    slice_of(v, 0, b)
}

/// Whether `v` is exactly `word`.
pub fn eq_str(v: &Vec<char>, word: &str) -> (b: bool)
    ensures
        b == (v@ == word@),
{
    let w = chars_of(word);
    let b = range_is(v, 0, v.len(), w.as_slice());
    assert(v@.subrange(0, v@.len() as int) =~= v@);
    b
}

/// Whether `word` occurs in `v` at `i`.
pub fn occurs_at_str(v: &Vec<char>, i: usize, word: &str) -> (b: bool)
    ensures
        b == (i + word@.len() <= v@.len() && v@.subrange(i as int, i + word@.len()) == word@),
{
    let w = chars_of(word);
    if i > v.len() || w.len() > v.len() - i {
        return false;
    }
    range_is(v, i, i + w.len(), w.as_slice())
}

/// The pieces of `v` between occurrences of `c` (as `str::split`).
pub fn split_on(v: &Vec<char>, c: char) -> (out: Vec<Vec<char>>)
    ensures
        out@.len() == split_from(v@, 0, c).len(),
        forall|k: int| 0 <= k < out@.len() ==> #[trigger] out@[k]@ == split_from(v@, 0, c)[k],
{
    let ghost pieces = split_from(v@, 0, c);
    let mut out: Vec<Vec<char>> = Vec::new();
    let mut i: usize = 0;
    loop
        invariant_except_break
            i <= v.len(),
            pieces == split_from(v@, 0, c),
            pieces == out@.map_values(|p: Vec<char>| p@) + split_from(v@, i as int, c),
        ensures
            pieces == out@.map_values(|p: Vec<char>| p@),
        decreases v.len() - i + 1,
    {
        proof {
            lemma_find_char(v@, i as int, c);
        }
        let k = find_char_from(v, i, c);
        let piece = slice_of(v, i, k);
        let ghost before = out@.map_values(|p: Vec<char>| p@);
        out.push(piece);
        assert(out@.map_values(|p: Vec<char>| p@) =~= before.push(piece@));
        if k < v.len() {
            assert(split_from(v@, i as int, c) == seq![piece@] + split_from(v@, k + 1, c));
            assert(before + split_from(v@, i as int, c) =~= before.push(piece@) + split_from(v@, k + 1, c));
            i = k + 1;
        } else {
            assert(split_from(v@, i as int, c) == seq![piece@]);
            assert(before + split_from(v@, i as int, c) =~= before.push(piece@));
            break;
        }
    }
    assert forall|k: int| 0 <= k < out@.len() implies #[trigger] out@[k]@ == split_from(v@, 0, c)[k] by {
        assert(out@.map_values(|p: Vec<char>| p@)[k] == out@[k]@);
    }
    out
}

} // verus!
