//! Character-level helpers shared by the document lexer and the bibliography sanitizer:
//! line splitting, whitespace trimming, and conversion between strings and characters.

use vstd::prelude::*;
use vstd::std_specs::iter::IteratorSpec;

verus! {

broadcast use vstd::string::group_string_axioms;

/// An ASCII letter.
pub open spec fn is_letter(c: char) -> bool {
    ('a' <= c <= 'z') || ('A' <= c <= 'Z')
}

/// Executable form of [`is_letter`].
pub fn is_letter_char(c: char) -> (r: bool)
    ensures
        r == is_letter(c),
{
    ('a' <= c && c <= 'z') || ('A' <= c && c <= 'Z')
}

/// Unicode `White_Space`, the set `char::is_whitespace` tests for.
pub open spec fn is_white(c: char) -> bool {
    let u = c as u32;
    ||| 9 <= u <= 13
    ||| u == 32
    ||| u == 0x85
    ||| u == 0xA0
    ||| u == 0x1680
    ||| 0x2000 <= u <= 0x200A
    ||| u == 0x2028
    ||| u == 0x2029
    ||| u == 0x202F
    ||| u == 0x205F
    ||| u == 0x3000
}

/// Executable form of [`is_white`].
pub fn is_white_char(c: char) -> (r: bool)
    ensures
        r == is_white(c),
{
    let u = c as u32;
    (9 <= u && u <= 13) || u == 32 || u == 0x85 || u == 0xA0 || u == 0x1680 || (0x2000 <= u && u
        <= 0x200A) || u == 0x2028 || u == 0x2029 || u == 0x202F || u == 0x205F || u == 0x3000
}

/// `s` without its trailing whitespace.
pub open spec fn trim_end(s: Seq<char>) -> Seq<char>
    decreases s.len(),
{
    if s.len() > 0 && is_white(s.last()) {
        trim_end(s.drop_last())
    } else {
        s
    }
}

/// `s` without its leading whitespace.
pub open spec fn trim_start(s: Seq<char>) -> Seq<char>
    decreases s.len(),
{
    if s.len() > 0 && is_white(s[0]) {
        trim_start(s.drop_first())
    } else {
        s
    }
}

/// `s` without whitespace at either end.
pub open spec fn trim(s: Seq<char>) -> Seq<char> {
    trim_end(trim_start(s))
}

/// The index of the first line feed at or after `i`, or the length of `s` if there is none.
pub open spec fn line_end(s: Seq<char>, i: int) -> int
    decreases s.len() - i,
{
    if i < 0 || i >= s.len() {
        s.len() as int
    } else if s[i] == '\n' {
        i
    } else {
        line_end(s, i + 1)
    }
}

/// The index of the first `c` in `s` at or after `i`, or the length of `s` if there is none.
pub open spec fn index_of(s: Seq<char>, c: char, i: int) -> int
    decreases s.len() - i,
{
    if i < 0 || i >= s.len() {
        s.len() as int
    } else if s[i] == c {
        i
    } else {
        index_of(s, c, i + 1)
    }
}

pub proof fn lemma_index_of_bounds(s: Seq<char>, c: char, i: int)
    requires
        0 <= i <= s.len(),
    ensures
        i <= index_of(s, c, i) <= s.len(),
        index_of(s, c, i) < s.len() ==> s[index_of(s, c, i)] == c,
    decreases s.len() - i,
{
    if i < s.len() && s[i] != c {
        lemma_index_of_bounds(s, c, i + 1);
    }
}

/// The index of the first `c` in `s` at or after `i`, or the length of `s`.
pub fn find_char(s: &Vec<char>, c: char, i: usize) -> (e: usize)
    requires
        i <= s@.len(),
    ensures
        e == index_of(s@, c, i as int),
        i <= e <= s@.len(),
{
    let mut e = i;
    while e < s.len() && s[e] != c
        invariant
            i <= e <= s@.len(),
            index_of(s@, c, e as int) == index_of(s@, c, i as int),
        decreases s@.len() - e,
    {
        e = e + 1;
    }
    e
}

/// A line that a line feed ends loses one carriage return before it.
pub open spec fn chomp_cr(l: Seq<char>) -> Seq<char> {
    if l.len() > 0 && l.last() == '\r' {
        l.drop_last()
    } else {
        l
    }
}

/// The line that starts at `i`, without its line ending.
pub open spec fn line_at(s: Seq<char>, i: int) -> Seq<char> {
    let e = line_end(s, i);
    if e < s.len() {
        chomp_cr(s.subrange(i, e))
    } else {
        s.subrange(i, e)
    }
}

/// The lines of `s` from position `i` on: split at line feeds, a final line feed ends the
/// last line rather than starting an empty one, and `\r\n` counts as one line ending.
pub open spec fn lines_from(s: Seq<char>, i: int) -> Seq<Seq<char>>
    decreases s.len() - i,
{
    if i < 0 || i >= s.len() {
        Seq::empty()
    } else {
        let e = line_end(s, i);
        if e < s.len() {
            proof {
                lemma_line_end_bounds(s, i);
            }
            seq![line_at(s, i)] + lines_from(s, e + 1)
        } else {
            seq![line_at(s, i)]
        }
    }
}

/// The lines of `s`, as `str::lines` gives them.
pub open spec fn lines_of(s: Seq<char>) -> Seq<Seq<char>> {
    lines_from(s, 0)
}

pub proof fn lemma_line_end_bounds(s: Seq<char>, i: int)
    requires
        0 <= i <= s.len(),
    ensures
        i <= line_end(s, i) <= s.len(),
        line_end(s, i) < s.len() ==> s[line_end(s, i)] == '\n',
        forall|k: int| i <= k < line_end(s, i) ==> s[k] != '\n',
    decreases s.len() - i,
{
    if i < s.len() && s[i] != '\n' {
        lemma_line_end_bounds(s, i + 1);
    }
}

/// Unfolds [`lines_from`] by one line.
pub proof fn lemma_lines_from_step(s: Seq<char>, i: int)
    requires
        0 <= i < s.len(),
    ensures
        lines_from(s, i) == seq![line_at(s, i)] + (if line_end(s, i) < s.len() {
            lines_from(s, line_end(s, i) + 1)
        } else {
            Seq::empty()
        }),
{
}

/// Text that holds no line feed.
pub open spec fn no_lf(t: Seq<char>) -> bool {
    forall|q: int| 0 <= q < t.len() ==> t[q] != '\n'
}

/// No line of `s` holds a line feed.
pub proof fn lemma_lines_no_lf(s: Seq<char>, i: int)
    requires
        0 <= i,
    ensures
        forall|k: int| 0 <= k < lines_from(s, i).len() ==> no_lf(#[trigger] lines_from(s, i)[k]),
    decreases s.len() - i,
{
    if i < s.len() {
        lemma_line_end_bounds(s, i);
        let e = line_end(s, i);
        let l = line_at(s, i);
        assert(no_lf(l)) by {
            assert forall|q: int| 0 <= q < l.len() implies l[q] != '\n' by {
                assert(l[q] == s[i + q]);
            }
        }
        if e < s.len() {
            lemma_lines_no_lf(s, e + 1);
            let r = lines_from(s, e + 1);
            assert forall|k: int| 0 <= k < lines_from(s, i).len() implies no_lf(
                #[trigger] lines_from(s, i)[k],
            ) by {
                if k > 0 {
                    assert(lines_from(s, i)[k] == r[k - 1]);
                }
            }
        }
    }
}

proof fn lemma_line_end_shift(x: Seq<char>, y: Seq<char>, i: int)
    requires
        0 <= i <= y.len(),
    ensures
        line_end(x + y, x.len() + i) == x.len() + line_end(y, i),
    decreases y.len() - i,
{
    if i < y.len() {
        assert((x + y)[x.len() + i] == y[i]);
        if y[i] != '\n' {
            lemma_line_end_shift(x, y, i + 1);
        }
    }
}

/// The lines of `x + y` from inside `y` are those of `y`.
pub proof fn lemma_lines_shift(x: Seq<char>, y: Seq<char>, i: int)
    requires
        0 <= i <= y.len(),
    ensures
        lines_from(x + y, x.len() + i) == lines_from(y, i),
    decreases y.len() - i,
{
    if i < y.len() {
        let s = x + y;
        lemma_line_end_shift(x, y, i);
        lemma_line_end_bounds(y, i);
        let e = line_end(y, i);
        assert(s.subrange(x.len() + i, x.len() + e) =~= y.subrange(i, e));
        assert(line_at(s, x.len() + i) == line_at(y, i));
        if e < y.len() {
            lemma_lines_shift(x, y, e + 1);
        }
    }
}

/// A line with no line feed and no final carriage return, then a line feed, then `rest`:
/// its lines are that line and the lines of `rest`.
pub proof fn lemma_lines_head(t: Seq<char>, rest: Seq<char>)
    requires
        no_lf(t),
        t.len() == 0 || t.last() != '\r',
    ensures
        lines_of(t + seq!['\n'] + rest) == seq![t] + lines_of(rest),
{
    let h = t + seq!['\n'];
    let s = h + rest;
    assert forall|j: int| 0 <= j <= t.len() implies line_end(s, j) == t.len() by {
        lemma_line_end_at(s, j, t.len() as int);
    }
    assert(s.subrange(0, t.len() as int) =~= t);
    assert(line_at(s, 0) == t);
    lemma_lines_shift(h, rest, 0);
    assert(h.len() == t.len() + 1);
}

proof fn lemma_line_end_at(s: Seq<char>, j: int, k: int)
    requires
        0 <= j <= k < s.len(),
        s[k] == '\n',
        forall|q: int| j <= q < k ==> s[q] != '\n',
    ensures
        line_end(s, j) == k,
    decreases k - j,
{
    if j < k {
        lemma_line_end_at(s, j + 1, k);
    }
}

/// The characters of `s`, in order.
pub fn chars_of(s: &str) -> (r: Vec<char>)
    ensures
        r@ == s@,
{
    let mut r: Vec<char> = Vec::new();
    for c in it: s.chars()
        invariant
            r@ == it.seq().take(it.index() as int),
    {
        r.push(c);
    }
    r
}

/// Relies on `String`'s `FromIterator<char>`: the string holds the characters of
/// `chars[from..to]`, in order.
#[verifier::external_body]
pub(crate) fn string_of_range(chars: &Vec<char>, from: usize, to: usize) -> (r: String)
    requires
        from <= to <= chars@.len(),
    ensures
        r@ == chars@.subrange(from as int, to as int),
{
    chars[from..to].iter().collect()
}

/// The index of the first line feed at or after `i`, or the length of `s`.
pub fn find_line_end(s: &Vec<char>, i: usize) -> (e: usize)
    requires
        i <= s@.len(),
    ensures
        e == line_end(s@, i as int),
        i <= e <= s@.len(),
{
    let mut e = i;
    while e < s.len() && s[e] != '\n'
        invariant
            i <= e <= s@.len(),
            line_end(s@, e as int) == line_end(s@, i as int),
        decreases s@.len() - e,
    {
        e = e + 1;
    }
    e
}

/// The end of the line that starts at `i` and ends at `e`, less a carriage return before a
/// line feed.
pub fn line_content_end(s: &Vec<char>, i: usize, e: usize) -> (k: usize)
    requires
        i <= e <= s@.len(),
        e == line_end(s@, i as int),
    ensures
        i <= k <= e,
        s@.subrange(i as int, k as int) == line_at(s@, i as int),
{
    if e < s.len() && e > i && s[e - 1] == '\r' {
        e - 1
    } else {
        e
    }
}

/// The characters of `s` from `from` up to `to`.
pub fn copy_range(s: &Vec<char>, from: usize, to: usize) -> (r: Vec<char>)
    requires
        from <= to <= s@.len(),
    ensures
        r@ == s@.subrange(from as int, to as int),
{
    let mut r: Vec<char> = Vec::new();
    let mut j = from;
    while j < to
        invariant
            from <= j <= to <= s@.len(),
            r@ == s@.subrange(from as int, j as int),
        decreases to - j,
    {
        r.push(s[j]);
        j = j + 1;
    }
    r
}

/// Appends the first `n` characters of `l` to `out`.
pub fn append_prefix(out: &mut Vec<char>, l: &Vec<char>, n: usize)
    requires
        n <= l@.len(),
    ensures
        final(out)@ == old(out)@ + l@.take(n as int),
{
    let mut j: usize = 0;
    while j < n
        invariant
            j <= n <= l@.len(),
            out@ == old(out)@ + l@.take(j as int),
        decreases n - j,
    {
        out.push(l[j]);
        j = j + 1;
        assert(l@.take(j as int) == l@.take(j - 1).push(l@[j - 1]));
    }
}

/// The length of the first `n` characters of `l` once their trailing whitespace is trimmed.
pub fn trimmed_end_len(l: &Vec<char>, n: usize) -> (t: usize)
    requires
        n <= l@.len(),
    ensures
        t <= n,
        l@.take(t as int) == trim_end(l@.take(n as int)),
{
    let mut t = n;
    while t > 0 && is_white_char(l[t - 1])
        invariant
            t <= n <= l@.len(),
            trim_end(l@.take(t as int)) == trim_end(l@.take(n as int)),
        decreases t,
    {
        assert(l@.take(t as int).drop_last() == l@.take(t - 1));
        t = t - 1;
    }
    t
}

/// The position of the first character of `l` in `from..to` that is not whitespace, or `to`.
pub fn trimmed_start(l: &Vec<char>, from: usize, to: usize) -> (t: usize)
    requires
        from <= to <= l@.len(),
    ensures
        from <= t <= to,
        l@.subrange(t as int, to as int) == trim_start(l@.subrange(from as int, to as int)),
{
    let mut t = from;
    while t < to && is_white_char(l[t as usize])
        invariant
            from <= t <= to <= l@.len(),
            trim_start(l@.subrange(t as int, to as int)) == trim_start(
                l@.subrange(from as int, to as int),
            ),
        decreases to - t,
    {
        assert(l@.subrange(t as int, to as int).drop_first() == l@.subrange(t + 1, to as int));
        t = t + 1;
    }
    t
}

/// The end of `l[from..to]` once its trailing whitespace is trimmed.
pub fn trimmed_end_in(l: &Vec<char>, from: usize, to: usize) -> (t: usize)
    requires
        from <= to <= l@.len(),
    ensures
        from <= t <= to,
        l@.subrange(from as int, t as int) == trim_end(l@.subrange(from as int, to as int)),
{
    let mut t = to;
    while t > from && is_white_char(l[t - 1])
        invariant
            from <= t <= to <= l@.len(),
            trim_end(l@.subrange(from as int, t as int)) == trim_end(
                l@.subrange(from as int, to as int),
            ),
        decreases t,
    {
        assert(l@.subrange(from as int, t as int).drop_last() == l@.subrange(from as int, t - 1));
        t = t - 1;
    }
    t
}

} // verus!
