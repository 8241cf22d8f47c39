//! Backslash escaping: whether the character that follows a piece of text is escaped.

use vstd::prelude::*;

verus! {

/// The number of backslashes that `s` ends with.
pub open spec fn trailing_backslashes(s: Seq<char>) -> nat
    decreases s.len(),
{
    if s.len() > 0 && s.last() == '\\' {
        1 + trailing_backslashes(s.drop_last())
    } else {
        0
    }
}

/// A character that follows `s` is escaped when `s` ends in an odd number of backslashes:
/// an even run is made of escaped backslashes that stand for themselves.
pub open spec fn escaped(s: Seq<char>) -> bool {
    trailing_backslashes(s) % 2 == 1
}

/// Position `j` of `l` holds a comment marker that no backslash escapes.
pub open spec fn unescaped_marker_at(l: Seq<char>, j: int) -> bool {
    l[j] == '%' && !escaped(l.take(j))
}

/// The position of the first unescaped comment marker of `l` at or after `j`, or the length
/// of `l` when there is none.
pub open spec fn comment_start(l: Seq<char>, j: int) -> int
    decreases l.len() - j,
{
    if j < 0 || j >= l.len() {
        l.len() as int
    } else if unescaped_marker_at(l, j) {
        j
    } else {
        comment_start(l, j + 1)
    }
}

/// Whether the character that would follow `text` is escaped by the backslashes that end it.
pub fn is_escaped(text: &str) -> (r: bool)
    ensures
        r == escaped(text@),
{
    let chars = crate::text::chars_of(text);
    assert(chars@.take(chars@.len() as int) == text@);
    escaped_before(&chars, chars.len())
}

/// Whether the character at `end` of `s` is escaped by the backslashes just before it.
pub fn escaped_before(s: &Vec<char>, end: usize) -> (r: bool)
    requires
        end <= s@.len(),
    ensures
        r == escaped(s@.take(end as int)),
{
    let mut j = end;
    let mut n: usize = 0;
    while j > 0 && s[j - 1] == '\\'
        invariant
            j <= end <= s@.len(),
            n == end - j,
            trailing_backslashes(s@.take(end as int)) == n + trailing_backslashes(s@.take(j as int)),
        decreases j,
    {
        assert(s@.take(j as int).drop_last() == s@.take(j - 1));
        j = j - 1;
        n = n + 1;
    }
    assert(j > 0 ==> s@.take(j as int).last() == s@[j - 1]);
    n % 2 == 1
}

pub proof fn lemma_trailing_push(s: Seq<char>, c: char)
    ensures
        trailing_backslashes(s.push(c)) == if c == '\\' {
            trailing_backslashes(s) + 1
        } else {
            0
        },
{
    assert(s.push(c).drop_last() == s);
}

/// The position of the first unescaped comment marker of `l`, or its length.
pub fn find_comment(l: &Vec<char>) -> (c: usize)
    ensures
        c == comment_start(l@, 0),
        c <= l@.len(),
{
    let mut j: usize = 0;
    let mut run: usize = 0;
    while j < l.len()
        invariant
            j <= l@.len(),
            run <= j,
            run == trailing_backslashes(l@.take(j as int)),
            comment_start(l@, 0) == comment_start(l@, j as int),
        decreases l@.len() - j,
    {
        let c = l[j];
        if c == '%' && run % 2 == 0 {
            return j;
        }
        proof {
            assert(l@.take(j + 1) == l@.take(j as int).push(c));
            lemma_trailing_push(l@.take(j as int), c);
        }
        if c == '\\' {
            run = run + 1;
        } else {
            run = 0;
        }
        j = j + 1;
    }
    j
}

/// Appending exactly `n` backslashes to text that does not end in one yields a run of `n`.
pub proof fn lemma_backslash_run(prefix: Seq<char>, n: nat)
    requires
        prefix.len() == 0 || prefix.last() != '\\',
    ensures
        trailing_backslashes(prefix + Seq::new(n, |_k: int| '\\')) == n,
    decreases n,
{
    if n > 0 {
        let t = prefix + Seq::new(n, |_k: int| '\\');
        assert(t.drop_last() == prefix + Seq::new((n - 1) as nat, |_k: int| '\\'));
        lemma_backslash_run(prefix, (n - 1) as nat);
    } else {
        assert(prefix + Seq::new(0, |_k: int| '\\') == prefix);
    }
}

/// A character preceded by exactly `n` backslashes is escaped if and only if `n` is odd.
pub proof fn lemma_escape_parity(prefix: Seq<char>, n: nat)
    requires
        prefix.len() == 0 || prefix.last() != '\\',
    ensures
        escaped(prefix + Seq::new(n, |_k: int| '\\')) <==> n % 2 == 1,
{
    lemma_backslash_run(prefix, n);
}

} // verus!
