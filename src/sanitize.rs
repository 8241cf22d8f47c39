//! The bibliography sanitizer: finds comment markers inside entries and strips comments
//! from bibliography source before it is parsed.

use vstd::prelude::*;
use crate::escape::{
    comment_start, find_comment, lemma_backslash_run, unescaped_marker_at,
};
use crate::text::{
    append_prefix, chars_of, copy_range, find_char, find_line_end, index_of, is_white_char, is_letter, is_white, lemma_lines_head,
    lemma_lines_from_step, lemma_lines_no_lf, line_at, line_content_end, line_end, lines_from, lines_of, no_lf,
    string_of_range, trim_end, trimmed_end_len,
};

verus! {

/// A line cut at its first unescaped comment marker, with the whitespace before the marker
/// trimmed; a line without a marker is kept as it is.
pub open spec fn strip_line(l: Seq<char>) -> Seq<char> {
    let c = comment_start(l, 0);
    if c < l.len() {
        trim_end(l.take(c))
    } else {
        l
    }
}

/// What a line contributes to the sanitized source: its stripped form and a line feed, or
/// nothing when stripping leaves it empty.
pub open spec fn kept_line(l: Seq<char>) -> Seq<char> {
    let t = strip_line(l);
    if t.len() == 0 {
        Seq::empty()
    } else {
        t.push('\n')
    }
}

/// The sanitized form of a sequence of lines.
pub open spec fn join_kept(ls: Seq<Seq<char>>) -> Seq<char>
    decreases ls.len(),
{
    if ls.len() == 0 {
        Seq::empty()
    } else {
        join_kept(ls.drop_last()) + kept_line(ls.last())
    }
}

/// The sanitized form of bibliography source `s`.
pub open spec fn stripped(s: Seq<char>) -> Seq<char> {
    join_kept(lines_of(s))
}

/// Removes comments from bibliography source, line by line: each line is cut at its first
/// unescaped `%` and trimmed at its end, lines left empty are dropped, and every line kept
/// ends in a line feed.
pub fn strip_comments(src: &str) -> (r: String)
    ensures
        r@ == stripped(src@),
{
    let s = chars_of(src);
    let mut out: Vec<char> = Vec::new();
    let mut i: usize = 0;
    let ghost mut done: Seq<Seq<char>> = Seq::empty();
    while i < s.len()
        invariant
            i <= s@.len(),
            lines_of(s@) == done + lines_from(s@, i as int),
            out@ == join_kept(done),
        decreases s@.len() - i,
    {
        let e = find_line_end(&s, i);
        let k = line_content_end(&s, i, e);
        let line = copy_range(&s, i, k);
        let c = find_comment(&line);
        let t = if c < line.len() {
            trimmed_end_len(&line, c)
        } else {
            line.len()
        };
        assert(line@.take(t as int) == strip_line(line@));
        if t > 0 {
            append_prefix(&mut out, &line, t);
            out.push('\n');
        }
        proof {
            lemma_line_end_facts(s@, i as int);
            lemma_lines_from_step(s@, i as int);
            assert(done.push(line@).drop_last() == done);
            done = done.push(line@);
        }
        if e < s.len() {
            i = e + 1;
        } else {
            i = s.len();
        }
    }
    string_of_range(&out, 0, out.len())
}

/// A character that can stand in a citation key.
pub open spec fn is_key_char(c: char) -> bool {
    !is_white(c) && c != ',' && c != '{' && c != '}'
}

/// After the brace at `j` comes a citation key, one or more key characters, and a comma.
pub open spec fn key_follows(l: Seq<char>, j: int) -> bool {
    let m = index_of(l, ',', j + 1);
    &&& j + 1 < m < l.len()
    &&& forall|q: int| j + 1 <= q < m ==> is_key_char(#[trigger] l[q])
}

/// `l[j]` is the brace that opens an entry: the line starts with `@`, then one or more letters
/// name the entry type, then comes this brace, then the key and a comma.
pub open spec fn opens_entry(l: Seq<char>, j: int) -> bool {
    &&& 2 <= j < l.len()
    &&& l[0] == '@'
    &&& l[j] == '{'
    &&& forall|k: int| 1 <= k < j ==> is_letter(#[trigger] l[k])
    &&& key_follows(l, j)
}

/// Whether a citation key and a comma follow the brace at `j`.
fn has_key_after(l: &Vec<char>, j: usize) -> (r: bool)
    requires
        j < l@.len(),
    ensures
        r == key_follows(l@, j as int),
{
    let n = l.len();
    let m = find_char(l, ',', j + 1);
    if m >= l.len() || m == j + 1 {
        return false;
    }
    let mut q = j + 1;
    while q < m
        invariant
            j + 1 <= q <= m < l@.len(),
            m == index_of(l@, ',', j + 1),
            forall|p: int| j + 1 <= p < q ==> is_key_char(#[trigger] l@[p]),
        decreases m - q,
    {
        let c = l[q];
        if is_white_char(c) || c == ',' || c == '{' || c == '}' {
            return false;
        }
        q = q + 1;
    }
    true
}

/// The brace depth after the first `j` characters of line `l`, for a line that starts at
/// depth `d`. Depth 0 is outside any entry; an entry ends at the brace that closes its
/// opening brace, whatever braces it nests.
pub open spec fn brace_depth(l: Seq<char>, j: int, d: nat) -> nat
    decreases j,
{
    if j <= 0 {
        d
    } else {
        let p = brace_depth(l, j - 1, d);
        let c = l[j - 1];
        if p == 0 {
            if opens_entry(l, j - 1) {
                1
            } else {
                0
            }
        } else if c == '{' {
            p + 1
        } else if c == '}' {
            (p - 1) as nat
        } else {
            p
        }
    }
}

/// The brace depth at the end of line `l`; what follows a comment marker does not count.
pub open spec fn line_depth(l: Seq<char>, d: nat) -> nat {
    brace_depth(l, comment_start(l, 0), d)
}

/// Line `l`, started at depth `d`, holds an unescaped comment marker inside an entry.
pub open spec fn line_flagged(l: Seq<char>, d: nat) -> bool {
    comment_start(l, 0) < l.len() && line_depth(l, d) > 0
}

/// The brace depth at the start of line `n` (counted from 0) of `ls`.
pub open spec fn depth_before(ls: Seq<Seq<char>>, n: int) -> nat
    decreases n,
{
    if n <= 0 {
        0
    } else {
        line_depth(ls[n - 1], depth_before(ls, n - 1))
    }
}

/// The numbers, counted from 1 and in increasing order, of those among the first `n` lines
/// of `ls` that hold an unescaped comment marker inside an entry.
pub open spec fn flagged_lines(ls: Seq<Seq<char>>, n: int) -> Seq<int>
    decreases n,
{
    if n <= 0 {
        Seq::empty()
    } else {
        flagged_lines(ls, n - 1) + if line_flagged(ls[n - 1], depth_before(ls, n - 1)) {
            seq![n]
        } else {
            Seq::empty()
        }
    }
}

/// The depth at the end of line `l` started at depth `d`, and whether the line holds an
/// unescaped comment marker inside an entry.
fn scan_entry_line(l: &Vec<char>, d: usize) -> (r: (usize, bool))
    requires
        d + l@.len() <= usize::MAX,
    ensures
        r.0 == line_depth(l@, d as nat),
        r.1 == line_flagged(l@, d as nat),
        r.0 <= d + l@.len(),
{
    let c = find_comment(l);
    let mut p = d;
    let mut header = l.len() > 0 && l[0] == '@';
    let mut j: usize = 0;
    while j < c
        invariant
            c == comment_start(l@, 0),
            c <= l@.len(),
            j <= c,
            d + l@.len() <= usize::MAX,
            p == brace_depth(l@, j as int, d as nat),
            p <= d + j,
            j >= 1 ==> (header <==> (l@[0] == '@' && forall|k: int|
                1 <= k < j ==> is_letter(#[trigger] l@[k]))),
            j == 0 ==> (header <==> (l@.len() > 0 && l@[0] == '@')),
        decreases c - j,
    {
        let ch = l[j];
        let opens = header && j >= 2 && ch == '{' && has_key_after(l, j);
        assert(opens <==> opens_entry(l@, j as int));
        if p == 0 {
            if opens {
                p = 1;
            }
        } else if ch == '{' {
            p = p + 1;
        } else if ch == '}' {
            p = p - 1;
        }
        if j >= 1 {
            header = header && (('a' <= ch && ch <= 'z') || ('A' <= ch && ch <= 'Z'));
        }
        j = j + 1;
    }
    (p, c < l.len() && p > 0)
}

/// The line numbers, counted from 1 and in increasing order, of the lines of bibliography
/// source that hold an unescaped `%` inside an entry. An entry starts with a line that opens
/// with `@`, the entry type and a brace, and ends at the brace that closes that one.
pub fn comments_in_citation_blocks(src: &str) -> (r: Vec<usize>)
    ensures
        r@.map_values(|n: usize| n as int) == flagged_lines(lines_of(src@), lines_of(src@).len() as int),
{
    let s = chars_of(src);
    let mut out: Vec<usize> = Vec::new();
    let mut depth: usize = 0;
    let mut n: usize = 0;
    let mut i: usize = 0;
    let ghost mut done: Seq<Seq<char>> = Seq::empty();
    while i < s.len()
        invariant
            i <= s@.len(),
            lines_of(s@) == done + lines_from(s@, i as int),
            n == done.len(),
            n <= i,
            depth <= i,
            depth == depth_before(done, n as int),
            out@.map_values(|k: usize| k as int) == flagged_lines(done, n as int),
        decreases s@.len() - i,
    {
        let e = find_line_end(&s, i);
        let k = line_content_end(&s, i, e);
        let line = copy_range(&s, i, k);
        let (d2, flagged) = scan_entry_line(&line, depth);
        proof {
            lemma_line_end_facts(s@, i as int);
            lemma_lines_from_step(s@, i as int);
            let nd = done.push(line@);
            assert forall|m: int| 0 <= m <= n implies depth_before(nd, m) == depth_before(done, m) by {
                lemma_depth_prefix(done, nd, m);
            }
            lemma_flagged_prefix(done, nd, n as int);
            done = nd;
        }
        n = n + 1;
        if flagged {
            out.push(n);
        }
        assert(out@.map_values(|k: usize| k as int) == flagged_lines(done, n as int));
        depth = d2;
        if e < s.len() {
            i = e + 1;
        } else {
            i = s.len();
        }
    }
    out
}

proof fn lemma_depth_prefix(a: Seq<Seq<char>>, b: Seq<Seq<char>>, m: int)
    requires
        0 <= m <= a.len() <= b.len(),
        forall|j: int| 0 <= j < a.len() ==> a[j] == b[j],
    ensures
        depth_before(a, m) == depth_before(b, m),
    decreases m,
{
    if m > 0 {
        lemma_depth_prefix(a, b, m - 1);
    }
}

proof fn lemma_flagged_prefix(a: Seq<Seq<char>>, b: Seq<Seq<char>>, m: int)
    requires
        0 <= m <= a.len() <= b.len(),
        forall|j: int| 0 <= j < a.len() ==> a[j] == b[j],
    ensures
        flagged_lines(a, m) == flagged_lines(b, m),
    decreases m,
{
    if m > 0 {
        lemma_flagged_prefix(a, b, m - 1);
        lemma_depth_prefix(a, b, m - 1);
    }
}

proof fn lemma_line_end_facts(s: Seq<char>, i: int)
    requires
        0 <= i < s.len(),
    ensures
        i <= line_end(s, i) <= s.len(),
        line_end(s, i) >= s.len() ==> lines_from(s, s.len() as int) == Seq::<Seq<char>>::empty(),
{
    crate::text::lemma_line_end_bounds(s, i);
}

/// Markers before `b` that no backslash escapes are none, so the first one is at or after `b`.
proof fn lemma_comment_start_skip(l: Seq<char>, a: int, b: int)
    requires
        0 <= a <= b <= l.len(),
        forall|j: int| a <= j < b ==> !unescaped_marker_at(l, j),
    ensures
        comment_start(l, a) == comment_start(l, b),
    decreases b - a,
{
    if a < b {
        lemma_comment_start_skip(l, a + 1, b);
    }
}

proof fn lemma_comment_start_bounds(l: Seq<char>, j: int)
    requires
        0 <= j <= l.len(),
    ensures
        j <= comment_start(l, j) <= l.len(),
    decreases l.len() - j,
{
    if j < l.len() && !unescaped_marker_at(l, j) {
        lemma_comment_start_bounds(l, j + 1);
    }
}

proof fn lemma_no_marker_before(l: Seq<char>, a: int)
    requires
        0 <= a <= l.len(),
    ensures
        forall|j: int| a <= j < comment_start(l, a) ==> !unescaped_marker_at(l, j),
    decreases l.len() - a,
{
    if a < l.len() && !unescaped_marker_at(l, a) {
        lemma_no_marker_before(l, a + 1);
    }
}

/// Trimming the end keeps a prefix, and keeps every position up to a character that is not
/// whitespace.
proof fn lemma_trim_end_keeps(s: Seq<char>, p: int)
    requires
        0 <= p < s.len(),
        !is_white(s[p]),
    ensures
        p < trim_end(s).len() <= s.len(),
        trim_end(s) == s.take(trim_end(s).len() as int),
    decreases s.len(),
{
    if s.len() > 0 && is_white(s.last()) {
        let d = s.drop_last();
        assert(p < d.len());
        assert(d[p] == s[p]);
        lemma_trim_end_keeps(d, p);
        let m = trim_end(s).len() as int;
        assert(trim_end(s) == trim_end(d));
        assert(d.take(m) =~= s.take(m));
    } else {
        assert(s.take(s.len() as int) == s);
    }
}

/// A comment marker that follows exactly `n` backslashes, on a line whose text before them
/// holds no unescaped marker: if `n` is odd the marker is escaped and the stripped line keeps
/// it, with everything before it; if `n` is even the line is cut at the marker and trimmed.
pub proof fn lemma_marker_parity(pre: Seq<char>, n: nat, post: Seq<char>)
    requires
        pre.len() == 0 || pre.last() != '\\',
        comment_start(pre, 0) == pre.len(),
    ensures
        ({
            let l = pre + Seq::new(n, |_k: int| '\\') + seq!['%'] + post;
            let p = (pre.len() + n) as int;
            &&& n % 2 == 1 ==> strip_line(l).len() > p && strip_line(l).take(p + 1) == l.take(p + 1)
            &&& n % 2 == 0 ==> strip_line(l) == trim_end(pre + Seq::new(n, |_k: int| '\\'))
        }),
{
    let bs = Seq::new(n, |_k: int| '\\');
    let l = pre + bs + seq!['%'] + post;
    let p = (pre.len() + n) as int;
    assert(l.take(p) =~= pre + bs);
    lemma_backslash_run(pre, n);
    assert forall|j: int| 0 <= j < pre.len() implies !unescaped_marker_at(l, j) by {
        assert(l.take(j) =~= pre.take(j));
        assert(l[j] == pre[j]);
        lemma_no_marker_before(pre, 0);
        assert(!unescaped_marker_at(pre, j));
    }
    assert forall|j: int| pre.len() <= j < p implies !unescaped_marker_at(l, j) by {
        assert(l[j] == '\\');
    }
    lemma_comment_start_skip(l, 0, p);
    assert(l[p] == '%');
    if n % 2 == 1 {
        assert(!unescaped_marker_at(l, p));
        lemma_comment_start_bounds(l, p + 1);
        let c = comment_start(l, 0);
        if c < l.len() {
            assert(l.take(c)[p] == '%');
            lemma_trim_end_keeps(l.take(c), p);
            let t = trim_end(l.take(c));
            assert(p + 1 <= c);
            assert(t == l.take(c).take(t.len() as int));
            assert(t.take(p + 1) =~= l.take(p + 1));
        }
    } else {
        assert(unescaped_marker_at(l, p));
    }
}

/// The stripped lines that stay, in order.
pub open spec fn kept_lines(ls: Seq<Seq<char>>) -> Seq<Seq<char>>
    decreases ls.len(),
{
    if ls.len() == 0 {
        Seq::empty()
    } else if strip_line(ls.last()).len() == 0 {
        kept_lines(ls.drop_last())
    } else {
        kept_lines(ls.drop_last()).push(strip_line(ls.last()))
    }
}

/// Lines, each followed by a line feed.
pub open spec fn join_lf(ts: Seq<Seq<char>>) -> Seq<char>
    decreases ts.len(),
{
    if ts.len() == 0 {
        Seq::empty()
    } else {
        join_lf(ts.drop_last()) + ts.last() + seq!['\n']
    }
}

/// A line that a carriage return ends.
pub open spec fn ends_with_cr(t: Seq<char>) -> bool {
    t.len() > 0 && t.last() == '\r'
}

proof fn lemma_join_kept_is_join_lf(ls: Seq<Seq<char>>)
    ensures
        join_kept(ls) == join_lf(kept_lines(ls)),
    decreases ls.len(),
{
    if ls.len() > 0 {
        lemma_join_kept_is_join_lf(ls.drop_last());
        let k = kept_lines(ls.drop_last());
        if strip_line(ls.last()).len() > 0 {
            assert(k.push(strip_line(ls.last())).drop_last() =~= k);
            assert(join_lf(k) + strip_line(ls.last()) + seq!['\n'] =~= join_lf(k) + strip_line(
                ls.last(),
            ).push('\n'));
        } else {
            assert(join_lf(k) + Seq::<char>::empty() =~= join_lf(k));
        }
    }
}

proof fn lemma_join_lf_front(ts: Seq<Seq<char>>)
    requires
        ts.len() > 0,
    ensures
        join_lf(ts) == ts[0] + seq!['\n'] + join_lf(ts.drop_first()),
    decreases ts.len(),
{
    if ts.len() == 1 {
        assert(ts.drop_first() =~= Seq::<Seq<char>>::empty());
        assert(ts.drop_last() =~= Seq::<Seq<char>>::empty());
        assert(join_lf(ts.drop_last()) == Seq::<char>::empty());
        assert(ts.last() == ts[0]);
        assert(Seq::<char>::empty() + ts[0] + seq!['\n'] =~= ts[0] + seq!['\n']);
        assert(join_lf(ts) =~= ts[0] + seq!['\n']);
        assert(ts[0] + seq!['\n'] + Seq::<char>::empty() =~= ts[0] + seq!['\n']);
    } else {
        lemma_join_lf_front(ts.drop_last());
        assert(ts.drop_last().drop_first() =~= ts.drop_first().drop_last());
        assert(ts.drop_first().last() == ts.last());
        assert(ts.drop_last()[0] == ts[0]);
        assert(join_lf(ts) =~= ts[0] + seq!['\n'] + join_lf(ts.drop_first()));
    }
}

proof fn lemma_lines_of_join_lf(ts: Seq<Seq<char>>)
    requires
        forall|k: int| 0 <= k < ts.len() ==> no_lf(#[trigger] ts[k]) && !ends_with_cr(ts[k]),
    ensures
        lines_of(join_lf(ts)) == ts,
    decreases ts.len(),
{
    if ts.len() == 0 {
        assert(lines_of(Seq::<char>::empty()) =~= Seq::<Seq<char>>::empty());
    } else {
        lemma_join_lf_front(ts);
        let rest = ts.drop_first();
        assert forall|k: int| 0 <= k < rest.len() implies no_lf(#[trigger] rest[k]) && !ends_with_cr(
            rest[k],
        ) by {
            assert(rest[k] == ts[k + 1]);
        }
        lemma_lines_of_join_lf(rest);
        assert(no_lf(ts[0]) && !ends_with_cr(ts[0]));
        lemma_lines_head(ts[0], join_lf(rest));
        assert(seq![ts[0]] + rest =~= ts);
    }
}

proof fn lemma_trim_end_prefix(s: Seq<char>)
    ensures
        trim_end(s).len() <= s.len(),
        trim_end(s) == s.take(trim_end(s).len() as int),
    decreases s.len(),
{
    if s.len() > 0 && is_white(s.last()) {
        let d = s.drop_last();
        lemma_trim_end_prefix(d);
        let m = trim_end(s).len() as int;
        assert(d.take(m) =~= s.take(m));
    } else {
        assert(s.take(s.len() as int) =~= s);
    }
}

/// A stripped line is a prefix of the line.
proof fn lemma_strip_line_prefix(l: Seq<char>)
    ensures
        strip_line(l).len() <= l.len(),
        strip_line(l) == l.take(strip_line(l).len() as int),
{
    let c = comment_start(l, 0);
    lemma_comment_start_bounds(l, 0);
    if c < l.len() {
        lemma_trim_end_prefix(l.take(c));
        let t = strip_line(l);
        assert(t =~= l.take(t.len() as int));
    } else {
        assert(l.take(l.len() as int) =~= l);
    }
}

/// Stripping a line twice is stripping it once.
proof fn lemma_strip_line_idempotent(l: Seq<char>)
    ensures
        strip_line(strip_line(l)) == strip_line(l),
{
    let c = comment_start(l, 0);
    lemma_comment_start_bounds(l, 0);
    if c < l.len() {
        let t = strip_line(l);
        lemma_strip_line_prefix(l);
        lemma_trim_end_prefix(l.take(c));
        lemma_no_marker_before(l, 0);
        assert forall|j: int| 0 <= j < t.len() implies !unescaped_marker_at(t, j) by {
            assert(t.take(j) =~= l.take(j));
            assert(t[j] == l[j]);
            assert(!unescaped_marker_at(l, j));
        }
        lemma_comment_start_skip(t, 0, t.len() as int);
    }
}

proof fn lemma_kept_lines_facts(ls: Seq<Seq<char>>)
    ensures
        forall|k: int| 0 <= k < kept_lines(ls).len() ==> exists|j: int| 0 <= j < ls.len()
            && #[trigger] kept_lines(ls)[k] == strip_line(ls[j]),
        forall|k: int| 0 <= k < kept_lines(ls).len() ==> (#[trigger] kept_lines(ls)[k]).len() > 0,
    decreases ls.len(),
{
    if ls.len() > 0 {
        let init = ls.drop_last();
        lemma_kept_lines_facts(init);
        let k0 = kept_lines(init);
        assert forall|k: int| 0 <= k < kept_lines(ls).len() implies exists|j: int| 0 <= j < ls.len()
            && #[trigger] kept_lines(ls)[k] == strip_line(ls[j]) by {
            if k < k0.len() {
                assert(kept_lines(ls)[k] == k0[k]);
                let j = choose|j: int| 0 <= j < init.len() && #[trigger] k0[k] == strip_line(init[j]);
                assert(ls[j] == init[j]);
            } else {
                assert(kept_lines(ls)[k] == strip_line(ls[ls.len() - 1]));
            }
        }
        assert forall|k: int| 0 <= k < kept_lines(ls).len() implies (#[trigger] kept_lines(ls)[k]).len() > 0 by {
            if k < k0.len() {
                assert(kept_lines(ls)[k] == k0[k]);
            }
        }
    }
}

proof fn lemma_kept_lines_fixed(ts: Seq<Seq<char>>)
    requires
        forall|k: int| 0 <= k < ts.len() ==> strip_line(#[trigger] ts[k]) == ts[k] && ts[k].len() > 0,
    ensures
        kept_lines(ts) == ts,
    decreases ts.len(),
{
    if ts.len() > 0 {
        let init = ts.drop_last();
        assert forall|k: int| 0 <= k < init.len() implies strip_line(#[trigger] init[k]) == init[k]
            && init[k].len() > 0 by {
            assert(init[k] == ts[k]);
        }
        lemma_kept_lines_fixed(init);
        assert(strip_line(ts[ts.len() - 1]) == ts[ts.len() - 1]);
        assert(init.push(ts.last()) =~= ts);
    }
}

/// Stripping comments twice is stripping them once, for every source whose stripped lines
/// do not end in a carriage return (such a return would end a line the second time).
pub proof fn lemma_strip_comments_idempotent(s: Seq<char>)
    requires
        forall|k: int| 0 <= k < lines_of(s).len() ==> !ends_with_cr(strip_line(#[trigger] lines_of(s)[k])),
    ensures
        stripped(stripped(s)) == stripped(s),
{
    let ls = lines_of(s);
    let ks = kept_lines(ls);
    lemma_join_kept_is_join_lf(ls);
    lemma_kept_lines_facts(ls);
    lemma_lines_no_lf(s, 0);
    assert forall|k: int| 0 <= k < ks.len() implies no_lf(#[trigger] ks[k]) && !ends_with_cr(ks[k])
        && strip_line(ks[k]) == ks[k] && ks[k].len() > 0 by {
        let j = choose|j: int| 0 <= j < ls.len() && #[trigger] ks[k] == strip_line(ls[j]);
        lemma_strip_line_prefix(ls[j]);
        lemma_strip_line_idempotent(ls[j]);
        assert(no_lf(ls[j]));
        let t = ks[k];
        assert forall|q: int| 0 <= q < t.len() implies t[q] != '\n' by {
            assert(t[q] == ls[j][q]);
        }
    }
    lemma_lines_of_join_lf(ks);
    lemma_join_kept_is_join_lf(ks);
    lemma_kept_lines_fixed(ks);
}

} // verus!
