//! The document lexer: walks LaTeX source line by line, strips comments, recognizes citation
//! commands and inclusion directives, and follows inclusions through a stack of scanners.
//!
//! The lexer does no I/O. When it meets an inclusion directive it hands out the resolved path
//! of the included file; the caller reads that file and gives its text back with
//! [`Lexer::enter`], and the lexer goes on inside it.

use vstd::prelude::*;
use crate::escape::{comment_start, find_comment};
use crate::paths::{resolve_input, resolve_path};
use crate::text::{
    chars_of, copy_range, find_char, find_line_end, index_of, is_letter, is_letter_char,
    lemma_index_of_bounds, line_content_end, lines_from, lines_of, string_of_range, trim,
    trimmed_end_in, trimmed_start,
};

verus! {

/// A citation found in LaTeX source: the key and the command that cited it.
pub struct CitationToken {
    pub key: String,
    pub cite_cmd: String,
}

/// What the lexer finds on a line: a citation, or anything else.
pub enum Token {
    Citation(CitationToken),
    Other,
}

/// A cited key with the commands that cited it, one per citation.
pub struct LaTeXCitation {
    pub key: String,
    pub cite_cmds: Vec<String>,
}

/// What one call of [`Lexer::next_token`] yields.
pub enum LexStep {
    /// The next token.
    Token(Token),
    /// An inclusion directive names this file: read it and pass its text to
    /// [`Lexer::enter`].
    Include(String),
    /// The source is exhausted.
    Done,
}

/// The lexer's output in the abstract: a citation of a key under a command, another line, or
/// the request for an included file.
pub enum Lexeme {
    Cite(Seq<char>, Seq<char>),
    Other,
    Include(Seq<char>),
}

impl Token {
    pub open spec fn lexeme(&self) -> Lexeme {
        match self {
            Token::Citation(c) => Lexeme::Cite(c.key@, c.cite_cmd@),
            Token::Other => Lexeme::Other,
        }
    }
}

impl LexStep {
    /// What the step hands out; `Done` hands out nothing, and its value here means nothing.
    pub open spec fn lexeme(&self) -> Lexeme {
        match self {
            LexStep::Token(t) => t.lexeme(),
            LexStep::Include(p) => Lexeme::Include(p@),
            LexStep::Done => Lexeme::Other,
        }
    }
}

/// The position after the run of letters of `l` that starts at `j`.
pub open spec fn letters_end(l: Seq<char>, j: int) -> int
    decreases l.len() - j,
{
    if j < 0 || j >= l.len() {
        l.len() as int
    } else if is_letter(l[j]) {
        letters_end(l, j + 1)
    } else {
        j
    }
}

pub open spec fn cite_word() -> Seq<char> {
    seq!['c', 'i', 't', 'e']
}

/// A citation command starts at `i`: a backslash, a command name of letters that ends in
/// `cite`, then a non-empty key list between braces.
pub open spec fn cite_at(l: Seq<char>, i: int) -> bool {
    let j = letters_end(l, i + 1);
    let k = index_of(l, '}', j + 1);
    &&& 0 <= i < l.len()
    &&& l[i] == '\\'
    &&& j >= i + 5
    &&& l.subrange(j - 4, j) == cite_word()
    &&& j < l.len()
    &&& l[j] == '{'
    &&& j + 1 < k < l.len()
}

/// The position of the first citation command of `l` at or after `i`, or the length of `l`.
pub open spec fn first_cite(l: Seq<char>, i: int) -> int
    decreases l.len() - i,
{
    if i < 0 || i >= l.len() {
        l.len() as int
    } else if cite_at(l, i) {
        i
    } else {
        first_cite(l, i + 1)
    }
}

pub proof fn lemma_first_cite(l: Seq<char>, i: int)
    requires
        0 <= i <= l.len(),
    ensures
        i <= first_cite(l, i) <= l.len(),
        first_cite(l, i) < l.len() ==> cite_at(l, first_cite(l, i)),
    decreases l.len() - i,
{
    if i < l.len() && !cite_at(l, i) {
        lemma_first_cite(l, i + 1);
    }
}

/// The name of the citation command at `i`, without its backslash.
pub open spec fn cite_command(l: Seq<char>, i: int) -> Seq<char> {
    l.subrange(i + 1, letters_end(l, i + 1))
}

/// The text between the braces of the citation command at `i`.
pub open spec fn cite_list(l: Seq<char>, i: int) -> Seq<char> {
    let j = letters_end(l, i + 1);
    l.subrange(j + 1, index_of(l, '}', j + 1))
}

/// The keys of a key list from position `j` on: split at commas, each trimmed of
/// whitespace, empty ones left out.
pub open spec fn split_keys(list: Seq<char>, j: int) -> Seq<Seq<char>>
    decreases list.len() - j,
{
    if j < 0 || j > list.len() {
        Seq::empty()
    } else {
        let e = index_of(list, ',', j);
        let piece = trim(list.subrange(j, e));
        let head = if piece.len() > 0 {
            seq![piece]
        } else {
            Seq::empty()
        };
        if e < list.len() {
            proof {
                lemma_index_of_bounds(list, ',', j);
            }
            head + split_keys(list, e + 1)
        } else {
            head
        }
    }
}

pub open spec fn input_word() -> Seq<char> {
    seq!['\\', 'i', 'n', 'p', 'u', 't', '{']
}

/// An inclusion directive `\input{` starts at `i`.
pub open spec fn input_at(l: Seq<char>, i: int) -> bool {
    0 <= i && i + 7 <= l.len() && l.subrange(i, i + 7) == input_word()
}

/// The position of the first `\input{` of `l` at or after `i`, or the length of `l`.
pub open spec fn first_input(l: Seq<char>, i: int) -> int
    decreases l.len() - i,
{
    if i < 0 || i >= l.len() {
        l.len() as int
    } else if input_at(l, i) {
        i
    } else {
        first_input(l, i + 1)
    }
}

/// The path that the first inclusion directive of `l` names, trimmed, when the directive
/// is closed by a brace and the path is not empty.
pub open spec fn input_path(l: Seq<char>) -> Option<Seq<char>> {
    let i = first_input(l, 0);
    let k = index_of(l, '}', i + 7);
    if i < l.len() && k < l.len() && trim(l.subrange(i + 7, k)).len() > 0 {
        Some(trim(l.subrange(i + 7, k)))
    } else {
        None
    }
}

/// What one source line of a document in directory `base` yields. The line is cut at its
/// first unescaped `%`. If a citation command is on it, the first one gives a citation per
/// key; otherwise an inclusion directive asks for the file it names; otherwise the line is
/// one `Other` token.
pub open spec fn line_lexemes(raw: Seq<char>, base: Seq<char>) -> Seq<Lexeme> {
    let l = raw.take(comment_start(raw, 0));
    let i = first_cite(l, 0);
    let keys = if i < l.len() {
        split_keys(cite_list(l, i), 0)
    } else {
        Seq::empty()
    };
    if keys.len() > 0 {
        keys.map_values(|k: Seq<char>| Lexeme::Cite(k, cite_command(l, i)))
    } else if input_path(l) is Some {
        seq![Lexeme::Include(resolve_path(base, input_path(l)->0))]
    } else {
        seq![Lexeme::Other]
    }
}

/// What a sequence of lines of a document in directory `base` yields.
pub open spec fn lines_lexemes(ls: Seq<Seq<char>>, base: Seq<char>) -> Seq<Lexeme>
    decreases ls.len(),
{
    if ls.len() == 0 {
        Seq::empty()
    } else {
        line_lexemes(ls[0], base) + lines_lexemes(ls.drop_first(), base)
    }
}

/// The lexemes of two runs of lines, one after the other, are those of the first run and
/// then those of the second.
pub proof fn lemma_lines_lexemes_concat(a: Seq<Seq<char>>, b: Seq<Seq<char>>, base: Seq<char>)
    ensures
        lines_lexemes(a + b, base) == lines_lexemes(a, base) + lines_lexemes(b, base),
    decreases a.len(),
{
    if a.len() == 0 {
        assert(a + b =~= b);
    } else {
        assert((a + b).drop_first() =~= a.drop_first() + b);
        lemma_lines_lexemes_concat(a.drop_first(), b, base);
    }
}

/// Inclusion order. In a document whose lines are `before`, then an inclusion directive
/// that names `path`, then `after`, the lexer hands out the lexemes of `before`, then the
/// request for `path`, then the lexemes of `after`. Once the request is handed out and the
/// included text is entered with [`Lexer::enter`], its lexemes come first, so the included
/// file is visited before anything that follows the directive.
pub proof fn lemma_inclusion_order(
    before: Seq<Seq<char>>,
    directive: Seq<char>,
    after: Seq<Seq<char>>,
    base: Seq<char>,
    path: Seq<char>,
)
    requires
        line_lexemes(directive, base) == seq![Lexeme::Include(path)],
    ensures
        lines_lexemes(before + seq![directive] + after, base) == lines_lexemes(before, base) + seq![
            Lexeme::Include(path),
        ] + lines_lexemes(after, base),
{
    lemma_lines_lexemes_concat(before, seq![directive] + after, base);
    assert((seq![directive] + after).drop_first() =~= after);
    assert(before + seq![directive] + after =~= before + (seq![directive] + after));
}

/// Lines that each yield one `Other` token yield one `Other` per line.
pub proof fn lemma_plain_lines(ls: Seq<Seq<char>>, base: Seq<char>)
    requires
        forall|k: int| 0 <= k < ls.len() ==> line_lexemes(#[trigger] ls[k], base) == seq![Lexeme::Other],
    ensures
        lines_lexemes(ls, base) == Seq::new(ls.len(), |_k: int| Lexeme::Other),
    decreases ls.len(),
{
    if ls.len() > 0 {
        let rest = ls.drop_first();
        assert forall|k: int| 0 <= k < rest.len() implies line_lexemes(#[trigger] rest[k], base)
            == seq![Lexeme::Other] by {
            assert(rest[k] == ls[k + 1]);
        }
        lemma_plain_lines(rest, base);
        assert(line_lexemes(ls[0], base) == seq![Lexeme::Other]);
        assert(seq![Lexeme::Other] + Seq::new(rest.len(), |_k: int| Lexeme::Other) =~= Seq::new(
            ls.len(),
            |_k: int| Lexeme::Other,
        ));
    }
}

/// A single inclusion. A root document whose lines are `before`, then a directive naming
/// `path`, then `after`, where the lines around the directive hold neither citations nor
/// directives, yields one `Other` per line of `before`, the request for `path`, and one
/// `Other` per line of `after`. By [`Lexer::next_token`] and [`Lexer::enter`], once the
/// request is handed out and the included document is entered, what remains is that
/// document's lexemes and then the `Other`s of `after`: the only citations are the included
/// document's, and they come before anything that follows the directive.
pub proof fn lemma_single_inclusion(
    before: Seq<Seq<char>>,
    directive: Seq<char>,
    after: Seq<Seq<char>>,
    base: Seq<char>,
    path: Seq<char>,
)
    requires
        line_lexemes(directive, base) == seq![Lexeme::Include(path)],
        forall|k: int| 0 <= k < before.len() ==> line_lexemes(#[trigger] before[k], base) == seq![Lexeme::Other],
        forall|k: int| 0 <= k < after.len() ==> line_lexemes(#[trigger] after[k], base) == seq![Lexeme::Other],
    ensures
        lines_lexemes(before + seq![directive] + after, base) == Seq::new(
            before.len(),
            |_k: int| Lexeme::Other,
        ) + seq![Lexeme::Include(path)] + Seq::new(after.len(), |_k: int| Lexeme::Other),
{
    lemma_inclusion_order(before, directive, after, base, path);
    lemma_plain_lines(before, base);
    lemma_plain_lines(after, base);
}

/// What the text of a document in directory `base` yields.
pub open spec fn document_lexemes(text: Seq<char>, base: Seq<char>) -> Seq<Lexeme> {
    lines_lexemes(lines_of(text), base)
}

/// The position after the run of letters of `l` that starts at `j`.
fn find_letters_end(l: &Vec<char>, j: usize) -> (r: usize)
    requires
        j <= l@.len(),
    ensures
        r == letters_end(l@, j as int),
        j <= r <= l@.len(),
{
    let mut r = j;
    while r < l.len() && is_letter_char(l[r])
        invariant
            j <= r <= l@.len(),
            letters_end(l@, r as int) == letters_end(l@, j as int),
        decreases l@.len() - r,
    {
        r = r + 1;
    }
    r
}

/// Whether a citation command starts at `i`.
fn is_cite_at(l: &Vec<char>, i: usize) -> (r: bool)
    requires
        i < l@.len(),
    ensures
        r == cite_at(l@, i as int),
{
    let n = l.len();
    if l[i] != '\\' {
        return false;
    }
    let j = find_letters_end(l, i + 1);
    if j - i < 5 || j >= n || l[j] != '{' {
        return false;
    }
    let word = l[j - 4] == 'c' && l[j - 3] == 'i' && l[j - 2] == 't' && l[j - 1] == 'e';
    proof {
        let w = l@.subrange(j - 4, j as int);
        if word {
            assert(w =~= cite_word());
        } else {
            assert(w[0] != 'c' || w[1] != 'i' || w[2] != 't' || w[3] != 'e');
        }
    }
    if !word {
        return false;
    }
    let k = find_char(l, '}', j + 1);
    j + 1 < k && k < l.len()
}

/// The position of the first citation command of `l`, or its length.
fn find_cite(l: &Vec<char>) -> (r: usize)
    ensures
        r == first_cite(l@, 0),
        r <= l@.len(),
{
    let mut i: usize = 0;
    while i < l.len() && !is_cite_at(l, i)
        invariant
            i <= l@.len(),
            first_cite(l@, i as int) == first_cite(l@, 0),
        decreases l@.len() - i,
    {
        i = i + 1;
    }
    i
}

/// The keys of a key list: split at commas, trimmed, empty ones left out.
fn keys_of(list: &Vec<char>) -> (r: Vec<String>)
    ensures
        r@.map_values(|k: String| k@) == split_keys(list@, 0),
{
    let mut r: Vec<String> = Vec::new();
    let mut j: usize = 0;
    let mut done = false;
    while !done
        invariant
            j <= list@.len(),
            !done ==> split_keys(list@, 0) == r@.map_values(|k: String| k@) + split_keys(list@, j as int),
            done ==> split_keys(list@, 0) == r@.map_values(|k: String| k@),
        decreases list@.len() - j + if done { 0int } else { 1int },
    {
        let e = find_char(list, ',', j);
        let a = trimmed_start(list, j, e);
        let t = trimmed_end_in(list, a, e);
        let ghost before = r@.map_values(|k: String| k@);
        assert(list@.subrange(a as int, t as int) == trim(list@.subrange(j as int, e as int)));
        if t > a {
            let key = string_of_range(list, a, t);
            r.push(key);
            assert(r@.map_values(|k: String| k@) == before.push(key@));
        }
        if e < list.len() {
            j = e + 1;
        } else {
            done = true;
        }
    }
    r
}

/// Whether `\input{` starts at `i`.
fn is_input_at(l: &Vec<char>, i: usize) -> (r: bool)
    requires
        i <= l@.len(),
    ensures
        r == input_at(l@, i as int),
{
    if l.len() - i < 7 {
        return false;
    }
    let r = l[i] == '\\' && l[i + 1] == 'i' && l[i + 2] == 'n' && l[i + 3] == 'p' && l[i + 4] == 'u'
        && l[i + 5] == 't' && l[i + 6] == '{';
    proof {
        let w = l@.subrange(i as int, i + 7);
        if r {
            assert(w =~= input_word());
        } else {
            assert(w[0] != '\\' || w[1] != 'i' || w[2] != 'n' || w[3] != 'p' || w[4] != 'u' || w[5]
                != 't' || w[6] != '{');
        }
    }
    r
}

/// The bounds of the path that the first inclusion directive of `l` names, trimmed.
fn find_input_path(l: &Vec<char>) -> (r: Option<(usize, usize)>)
    ensures
        r is Some <==> input_path(l@) is Some,
        r matches Some((a, t)) ==> a <= t <= l@.len() && l@.subrange(a as int, t as int)
            == input_path(l@)->0,
{
    let mut i: usize = 0;
    while i < l.len() && !is_input_at(l, i)
        invariant
            i <= l@.len(),
            first_input(l@, i as int) == first_input(l@, 0),
        decreases l@.len() - i,
    {
        i = i + 1;
    }
    if i >= l.len() {
        return None;
    }
    let k = find_char(l, '}', i + 7);
    if k >= l.len() {
        return None;
    }
    let a = trimmed_start(l, i + 7, k);
    let t = trimmed_end_in(l, a, k);
    assert(l@.subrange(a as int, t as int) == trim(l@.subrange(i + 7, k as int)));
    if t > a {
        Some((a, t))
    } else {
        None
    }
}

/// How a source line is read.
enum LineKind {
    Cites(String, Vec<String>),
    Include(String),
    Plain,
}

impl LineKind {
    spec fn lexemes(&self) -> Seq<Lexeme> {
        match self {
            LineKind::Cites(cmd, keys) => keys@.map_values(|k: String| Lexeme::Cite(k@, cmd@)),
            LineKind::Include(p) => seq![Lexeme::Include(p@)],
            LineKind::Plain => seq![Lexeme::Other],
        }
    }
}

/// Reads one source line of a document in directory `base`.
fn classify(raw: &Vec<char>, base: &str) -> (r: LineKind)
    ensures
        r.lexemes() == line_lexemes(raw@, base@),
        r matches LineKind::Cites(_, keys) ==> keys@.len() > 0,
{
    let c = find_comment(raw);
    let l = copy_range(raw, 0, c);
    assert(l@ == raw@.take(c as int));
    let i = find_cite(&l);
    if i < l.len() {
        proof {
            lemma_first_cite(l@, 0);
        }
        let j = find_letters_end(&l, i + 1);
        let k = find_char(&l, '}', j + 1);
        let list = copy_range(&l, j + 1, k);
        let keys = keys_of(&list);
        if keys.len() > 0 {
            let cmd = string_of_range(&l, i + 1, j);
            proof {
                let ks = split_keys(list@, 0);
                assert(keys@.map_values(|k: String| Lexeme::Cite(k@, cmd@)) =~= ks.map_values(
                    |k: Seq<char>| Lexeme::Cite(k, cite_command(l@, i as int)),
                ));
            }
            return LineKind::Cites(cmd, keys);
        }
    }
    match find_input_path(&l) {
        Some((a, t)) => {
            let rel = string_of_range(&l, a, t);
            let path = resolve_input(base, rel.as_str());
            LineKind::Include(path)
        },
        None => LineKind::Plain,
    }
}

/// The scanner of one document: its text, the position of its next line, its directory,
/// and the keys of the current line that are still to be handed out.
struct Scanner {
    text: Vec<char>,
    pos: usize,
    base: String,
    keys: Vec<String>,
    next_key: usize,
    cmd: String,
}

/// Citations of `keys` from `n` on, under command `cmd`.
spec fn pending_lexemes(keys: Seq<String>, n: int, cmd: Seq<char>) -> Seq<Lexeme> {
    keys.subrange(n, keys.len() as int).map_values(|k: String| Lexeme::Cite(k@, cmd))
}

impl Scanner {
    spec fn wf(&self) -> bool {
        &&& self.pos <= self.text@.len()
        &&& self.next_key <= self.keys@.len()
    }

    /// What is left to hand out from this document.
    spec fn lexemes(&self) -> Seq<Lexeme> {
        pending_lexemes(self.keys@, self.next_key as int, self.cmd@) + lines_lexemes(
            lines_from(self.text@, self.pos as int),
            self.base@,
        )
    }

    fn new(text: &str, base: &str) -> (r: Scanner)
        ensures
            r.wf(),
            r.lexemes() == document_lexemes(text@, base@),
    {
        let r = Scanner {
            text: chars_of(text),
            pos: 0,
            base: base.to_owned(),
            keys: Vec::new(),
            next_key: 0,
            cmd: String::new(),
        };
        assert(pending_lexemes(r.keys@, 0, r.cmd@) =~= Seq::empty());
        r
    }
}

/// What a stack of scanners has left to hand out, the top one first.
spec fn stack_lexemes(st: Seq<Scanner>) -> Seq<Lexeme>
    decreases st.len(),
{
    if st.len() == 0 {
        Seq::empty()
    } else {
        st.last().lexemes() + stack_lexemes(st.drop_last())
    }
}

/// Lexer for LaTeX source that finds citations and follows `\input{}` directives into the
/// files they name, through an explicit stack of scanners: the top one reads the innermost
/// file, and a scanner that runs out is dropped so that the one below goes on.
pub struct Lexer {
    stack: Vec<Scanner>,
}

impl View for Lexer {
    type V = Seq<Lexeme>;

    /// The lexemes that the lexer has still to hand out, in order.
    closed spec fn view(&self) -> Seq<Lexeme> {
        stack_lexemes(self.stack@)
    }
}

impl Lexer {
    /// The lexer's scanners are consistent.
    pub closed spec fn wf(&self) -> bool {
        forall|i: int| 0 <= i < self.stack@.len() ==> (#[trigger] self.stack@[i]).wf()
    }

    /// A lexer over `text`, the source of a document in directory `base`.
    pub fn new(text: &str, base: &str) -> (r: Lexer)
        ensures
            r.wf(),
            r@ == document_lexemes(text@, base@),
    {
        let mut stack: Vec<Scanner> = Vec::new();
        let sc = Scanner::new(text, base);
        let ghost sl = sc.lexemes();
        stack.push(sc);
        let r = Lexer { stack };
        assert(r.stack@.drop_last() =~= Seq::<Scanner>::empty());
        assert(stack_lexemes(Seq::<Scanner>::empty()) =~= Seq::empty());
        assert(stack_lexemes(r.stack@) =~= sl);
        r
    }

    /// A lexer over the root document, whose text is `text` and whose directory is `base`.
    pub fn from_str(text: &str, base: &str) -> (r: Lexer)
        ensures
            r.wf(),
            r@ == document_lexemes(text@, base@),
    {
        Self::new(text, base)
    }

    /// Goes on inside an included file, whose text is `text` and whose directory is `base`:
    /// its lexemes come first, then what was left before.
    pub fn enter(&mut self, text: &str, base: &str)
        requires
            old(self).wf(),
        ensures
            final(self).wf(),
            final(self)@ == document_lexemes(text@, base@) + old(self)@,
    {
        let sc = Scanner::new(text, base);
        self.stack.push(sc);
        assert(self.stack@.drop_last() == old(self).stack@);
    }

    /// The next lexeme: a token, or the path of a file to include; `Done` once the root
    /// document and every file it includes are exhausted.
    pub fn next_token(&mut self) -> (r: LexStep)
        requires
            old(self).wf(),
        ensures
            final(self).wf(),
            old(self)@.len() == 0 ==> r is Done && final(self)@.len() == 0,
            old(self)@.len() > 0 ==> !(r is Done) && r.lexeme() == old(self)@[0] && final(self)@
                == old(self)@.drop_first(),
    {
        loop
            invariant
                self.wf(),
                self@ == old(self)@,
            decreases self.stack@.len(),
        {
            let ghost st = self.stack@;
            match self.stack.pop() {
                None => {
                    return LexStep::Done;
                },
                Some(mut top) => {
                    assert(st.last() == top && st.drop_last() == self.stack@);
                    assert(top.wf());
                    if top.next_key < top.keys.len() {
                        let key = top.keys[top.next_key].clone();
                        let cite_cmd = top.cmd.clone();
                        let ghost old_top = top;
                        top.next_key = top.next_key + 1;
                        proof {
                            let ks = old_top.keys@;
                            let n = old_top.next_key as int;
                            assert(pending_lexemes(ks, n, old_top.cmd@) =~= seq![
                                Lexeme::Cite(key@, cite_cmd@),
                            ] + pending_lexemes(ks, n + 1, old_top.cmd@));
                        }
                        self.stack.push(top);
                        assert(self.stack@.drop_last() == st.drop_last());
                        return LexStep::Token(Token::Citation(CitationToken { key, cite_cmd }));
                    }
                    assert(pending_lexemes(top.keys@, top.next_key as int, top.cmd@) =~= Seq::empty());
                    if top.pos >= top.text.len() {
                        assert(top.lexemes() =~= Seq::empty());
                        assert(stack_lexemes(st) =~= stack_lexemes(self.stack@));
                        continue;
                    }
                    let ghost old_top = top;
                    let e = find_line_end(&top.text, top.pos);
                    let k = line_content_end(&top.text, top.pos, e);
                    let line = copy_range(&top.text, top.pos, k);
                    let kind = classify(&line, top.base.as_str());
                    proof {
                        crate::text::lemma_lines_from_step(top.text@, top.pos as int);
                        let ls = lines_from(top.text@, top.pos as int);
                        assert(ls.drop_first() == (if e < top.text@.len() {
                            lines_from(top.text@, e + 1)
                        } else {
                            Seq::empty()
                        }));
                    }
                    if e < top.text.len() {
                        top.pos = e + 1;
                    } else {
                        top.pos = top.text.len();
                        assert(lines_from(top.text@, top.pos as int) =~= Seq::empty());
                    }
                    let ghost rest = lines_lexemes(lines_from(top.text@, top.pos as int), top.base@);
                    assert(old_top.lexemes() == line_lexemes(line@, top.base@) + rest);
                    match kind {
                        LineKind::Cites(cmd, keys) => {
                            let key = keys[0].clone();
                            let cite_cmd = cmd.clone();
                            top.keys = keys;
                            top.next_key = 1;
                            top.cmd = cmd;
                            proof {
                                let ks = top.keys@;
                                assert(ks.map_values(|k: String| Lexeme::Cite(k@, top.cmd@))
                                    =~= seq![Lexeme::Cite(key@, cite_cmd@)] + pending_lexemes(
                                    ks,
                                    1,
                                    top.cmd@,
                                ));
                            }
                            self.stack.push(top);
                            assert(self.stack@.drop_last() == st.drop_last());
                            return LexStep::Token(
                                Token::Citation(CitationToken { key, cite_cmd }),
                            );
                        },
                        LineKind::Include(path) => {
                            self.stack.push(top);
                            assert(self.stack@.drop_last() == st.drop_last());
                            return LexStep::Include(path);
                        },
                        LineKind::Plain => {
                            self.stack.push(top);
                            assert(self.stack@.drop_last() == st.drop_last());
                            return LexStep::Token(Token::Other);
                        },
                    }
                },
            }
        }
    }
}

} // verus!
