//! The line classifier and the script document it builds.
use vstd::prelude::*;

use crate::text::{
    chars_of, find, find_char, has_at, is_whitespace, is_ws, slice, trim, trim_in, trimmed_slice,
};

verus! {

/// What a classified source line is.
#[derive(Clone, Copy, Debug, PartialEq, Eq, Structural)]
pub enum LineType {
    Text,
    Question,
    Bookmark,
    Constant,
    Comment,
    End,
    Undefined,
}

/// One classified source line.
///
/// `text` is the trimmed line. For a question, `key` is the choice text and
/// `value` the target symbol; for a bookmark, `key` is its name; for a
/// constant, `key` and `value` are its name and value. Unused fields are empty.
#[derive(Debug)]
pub struct Line {
    pub type_: LineType,
    pub text: Vec<char>,
    pub key: Vec<char>,
    pub value: Vec<char>,
    pub source_line: usize,
}

/// The mathematical value of a `Line`.
pub struct LineView {
    pub kind: LineType,
    pub text: Seq<char>,
    pub key: Seq<char>,
    pub value: Seq<char>,
    pub source_line: nat,
}

impl View for Line {
    type V = LineView;

    open spec fn view(&self) -> LineView {
        LineView {
            kind: self.type_,
            text: self.text@,
            key: self.key@,
            value: self.value@,
            source_line: self.source_line as nat,
        }
    }
}

pub open spec fn line_of(kind: LineType, t: Seq<char>, key: Seq<char>, value: Seq<char>, n: nat) -> LineView {
    LineView { kind, text: t, key, value, source_line: n }
}

pub open spec fn kw_comment() -> Seq<char> {
    seq!['/', '/']
}

pub open spec fn kw_bookmark() -> Seq<char> {
    seq!['=', '=', '=']
}

pub open spec fn kw_const() -> Seq<char> {
    seq!['C', 'O', 'N', 'S', 'T']
}

pub open spec fn kw_end() -> Seq<char> {
    seq!['-', '>', ' ', 'E', 'N', 'D']
}

pub open spec fn starts_with(t: Seq<char>, p: Seq<char>) -> bool {
    p.len() <= t.len() && t.subrange(0, p.len() as int) == p
}

/// First index `>= from` where `->` begins, or `t.len()`.
pub open spec fn find_arrow(t: Seq<char>, from: int) -> int
    decreases t.len() - from,
{
    if from + 1 >= t.len() {
        t.len() as int
    } else if t[from] == '-' && t[from + 1] == '>' {
        from
    } else {
        find_arrow(t, from + 1)
    }
}

/// A question line `+ ... [choice] ... -> target`: the choice is what stands
/// inside the first brackets, the target what follows the first `->` after
/// them, trimmed and not empty.
pub open spec fn parse_question(t: Seq<char>) -> Option<(Seq<char>, Seq<char>)> {
    let ob = find_char(t, '[', 0);
    let cb = find_char(t, ']', ob + 1);
    let ar = find_arrow(t, cb + 1);
    if ob >= t.len() || cb >= t.len() || ar >= t.len() {
        None
    } else {
        let target = trim_in(t, ar + 2, t.len() as int, false);
        if target.len() == 0 {
            None
        } else {
            Some((t.subrange(ob + 1, cb), target))
        }
    }
}

/// A constant line `CONST <name> = "<value>"`: the name and the value
/// inside the quotes, both trimmed; the name is not empty.
pub open spec fn parse_constant(t: Seq<char>) -> Option<(Seq<char>, Seq<char>)> {
    let eq = find_char(t, '=', 5);
    if t.len() <= 5 || !is_ws(t[5]) || eq >= t.len() {
        None
    } else {
        let name = trim_in(t, 5, eq, false);
        let rest = trim_in(t, eq + 1, t.len() as int, false);
        if name.len() == 0 || rest.len() < 2 || rest[0] != '"' || rest.last() != '"' {
            None
        } else {
            Some((name, trim_in(rest, 1, rest.len() - 1, false)))
        }
    }
}

/// The classification of the trimmed, non-empty line `t`, source line `n`.
pub open spec fn classify_trimmed(t: Seq<char>, n: nat) -> LineView {
    let e = Seq::<char>::empty();
    if starts_with(t, kw_comment()) {
        line_of(LineType::Comment, t, e, e, n)
    } else if starts_with(t, kw_bookmark()) {
        line_of(LineType::Bookmark, t, trim_in(t, 0, t.len() as int, true), e, n)
    } else if t[0] == '+' {
        match parse_question(t) {
            Some(q) => line_of(LineType::Question, t, q.0, q.1, n),
            None => line_of(LineType::Undefined, t, e, e, n),
        }
    } else if starts_with(t, kw_const()) {
        match parse_constant(t) {
            Some(c) => line_of(LineType::Constant, t, c.0, c.1, n),
            None => line_of(LineType::Undefined, t, e, e, n),
        }
    } else if t == kw_end() {
        line_of(LineType::End, t, e, e, n)
    } else {
        line_of(LineType::Text, t, e, e, n)
    }
}

/// The classification of the raw source line `raw`, number `n`: none for a
/// blank line.
pub open spec fn classify_spec(raw: Seq<char>, n: nat) -> Option<LineView> {
    let t = trim(raw);
    if t.len() == 0 {
        None
    } else {
        Some(classify_trimmed(t, n))
    }
}

fn find_arrow_exec(t: &Vec<char>, from: usize) -> (r: usize)
    requires
        from <= t.len(),
    ensures
        r == find_arrow(t@, from as int),
        from <= r <= t.len(),
        r < t.len() ==> r + 1 < t.len(),
{
    let mut i = from;
    while i < t.len() && i + 1 < t.len() && !(t[i] == '-' && t[i + 1] == '>')
        invariant
            from <= i <= t.len(),
            find_arrow(t@, from as int) == find_arrow(t@, i as int),
        decreases t.len() - i,
    {
        i = i + 1;
    }
    if i >= t.len() || i + 1 >= t.len() {
        t.len()
    } else {
        i
    }
}

fn question_parts(t: &Vec<char>) -> (r: Option<(Vec<char>, Vec<char>)>)
    ensures
        match r {
            Some(q) => parse_question(t@) == Some((q.0@, q.1@)),
            None => parse_question(t@) is None,
        },
{
    let ob = find(t, '[', 0);
    if ob >= t.len() {
        return None;
    }
    let cb = find(t, ']', ob + 1);
    if cb >= t.len() {
        return None;
    }
    let ar = find_arrow_exec(t, cb + 1);
    if ar >= t.len() {
        return None;
    }
    let target = trimmed_slice(t, ar + 2, t.len(), false);
    if target.len() == 0 {
        return None;
    }
    Some((slice(t, ob + 1, cb), target))
}

fn constant_parts(t: &Vec<char>) -> (r: Option<(Vec<char>, Vec<char>)>)
    ensures
        match r {
            Some(c) => parse_constant(t@) == Some((c.0@, c.1@)),
            None => parse_constant(t@) is None,
        },
{
    if t.len() <= 5 || !is_whitespace(t[5]) {
        return None;
    }
    let eq = find(t, '=', 5);
    if eq >= t.len() {
        return None;
    }
    let name = trimmed_slice(t, 5, eq, false);
    let rest = trimmed_slice(t, eq + 1, t.len(), false);
    if name.len() == 0 || rest.len() < 2 || rest[0] != '"' || rest[rest.len() - 1] != '"' {
        return None;
    }
    let value = trimmed_slice(&rest, 1, rest.len() - 1, false);
    Some((name, value))
}

fn make_line(kind: LineType, t: Vec<char>, key: Vec<char>, value: Vec<char>, n: usize) -> (r: Line)
    ensures
        r@ == line_of(kind, t@, key@, value@, n as nat),
{
    Line { type_: kind, text: t, key, value, source_line: n }
}

/// Classifies one raw source line, numbered `line_number` from 1; a blank
/// line gives none.
pub fn classify(raw: &Vec<char>, line_number: usize) -> (r: Option<Line>)
    ensures
        match r {
            Some(l) => classify_spec(raw@, line_number as nat) == Some(l@),
            None => classify_spec(raw@, line_number as nat) is None,
        },
{
    let t = trimmed_slice(raw, 0, raw.len(), false);
    if t.len() == 0 {
        return None;
    }
    let n = line_number;
    let kc = vec!['/', '/'];
    let kb = vec!['=', '=', '='];
    let kk = vec!['C', 'O', 'N', 'S', 'T'];
    let ke = vec!['-', '>', ' ', 'E', 'N', 'D'];
    assert(kc@ == kw_comment());
    assert(kb@ == kw_bookmark());
    assert(kk@ == kw_const());
    assert(ke@ == kw_end());
    let line = if has_at(&t, 0, &kc) {
        make_line(LineType::Comment, t, Vec::new(), Vec::new(), n)
    } else if has_at(&t, 0, &kb) {
        let name = trimmed_slice(&t, 0, t.len(), true);
        make_line(LineType::Bookmark, t, name, Vec::new(), n)
    } else if t[0] == '+' {
        match question_parts(&t) {
            Some(q) => make_line(LineType::Question, t, q.0, q.1, n),
            None => make_line(LineType::Undefined, t, Vec::new(), Vec::new(), n),
        }
    } else if has_at(&t, 0, &kk) {
        match constant_parts(&t) {
            Some(c) => make_line(LineType::Constant, t, c.0, c.1, n),
            None => make_line(LineType::Undefined, t, Vec::new(), Vec::new(), n),
        }
    } else if t.len() == ke.len() && has_at(&t, 0, &ke) {
        assert(t@ =~= t@.subrange(0, ke.len() as int));
        make_line(LineType::End, t, Vec::new(), Vec::new(), n)
    } else {
        proof {
            if t@ == kw_end() {
                assert(t@.subrange(0, ke.len() as int) =~= t@);
            }
        }
        make_line(LineType::Text, t, Vec::new(), Vec::new(), n)
    };
    Some(line)
}

/// The physical lines of `s`: the text between line breaks.
pub open spec fn split_lines(s: Seq<char>) -> Seq<Seq<char>>
    decreases s.len(),
{
    if s.len() == 0 {
        seq![Seq::<char>::empty()]
    } else {
        let p = split_lines(s.drop_last());
        if s.last() == '\n' {
            p.push(Seq::<char>::empty())
        } else {
            p.update(p.len() - 1, p.last().push(s.last()))
        }
    }
}

/// The classified lines of `ls`, numbered from 1, blank ones left out.
pub open spec fn classify_all(ls: Seq<Seq<char>>) -> Seq<LineView>
    decreases ls.len(),
{
    if ls.len() == 0 {
        Seq::empty()
    } else {
        let p = classify_all(ls.drop_last());
        match classify_spec(ls.last(), ls.len()) {
            Some(l) => p.push(l),
            None => p,
        }
    }
}

/// The script document of the source text `s`.
pub open spec fn document(s: Seq<char>) -> Seq<LineView> {
    classify_all(split_lines(s))
}

pub open spec fn views(lines: Seq<Line>) -> Seq<LineView> {
    lines.map_values(|l: Line| l@)
}

/// A source text and the script document classified from it.
pub struct Reader {
    pub source: Vec<char>,
    pub lines: Vec<Line>,
}

impl Reader {
    pub open spec fn source_view(&self) -> Seq<char> {
        self.source@
    }

    pub open spec fn lines_view(&self) -> Seq<LineView> {
        views(self.lines@)
    }

    /// A reader of `text` with no lines classified yet.
    pub fn from_text(text: &str) -> (r: Reader)
        ensures
            r.source_view() == text@,
            r.lines@.len() == 0,
    {
        Reader { source: chars_of(text), lines: Vec::new() }
    }

    fn add(lines: &mut Vec<Line>, cur: &Vec<char>, n: usize, ls: Ghost<Seq<Seq<char>>>)
        requires
            views(old(lines)@) == classify_all(ls@),
            n == ls@.len() + 1,
        ensures
            views(final(lines)@) == classify_all(ls@.push(cur@)),
    {
        assert(ls@.push(cur@).drop_last() =~= ls@);
        if let Some(l) = classify(cur, n) {
            lines.push(l);
            assert(views(final(lines)@) =~= views(old(lines)@).push(l@));
        }
    }

    /// Classifies every line of the source, in order, replacing what
    /// `lines` held.
    pub fn parse_all_lines(&mut self)
        ensures
            final(self).source_view() == old(self).source_view(),
            final(self).lines_view() == document(old(self).source_view()),
    {
        let mut lines: Vec<Line> = Vec::new();
        let mut cur: Vec<char> = Vec::new();
        let ghost mut done: Seq<Seq<char>> = Seq::empty();
        let n = self.source.len();
        let mut i: usize = 0;
        let mut count: usize = 0;
        assert(self.source@.take(0) =~= Seq::<char>::empty());
        while i < n
            invariant
                n == self.source@.len(),
                i <= n,
                split_lines(self.source@.take(i as int)) == done.push(cur@),
                views(lines@) == classify_all(done),
                done.len() + cur@.len() <= i,
                count == done.len(),
            decreases n - i,
        {
            let c = self.source[i];
            assert(self.source@.take(i + 1).drop_last() =~= self.source@.take(i as int));
            if c == '\n' {
                if cur.len() > 0 {
                    Self::add(&mut lines, &cur, count + 1, Ghost(done));
                } else {
                    proof {
                        assert(trim(cur@) =~= cur@);
                        assert(done.push(cur@).drop_last() =~= done);
                    }
                }
                proof {
                    done = done.push(cur@);
                }
                count = count + 1;
                cur = Vec::new();
            } else {
                let ghost prev = cur@;
                cur.push(c);
                assert(done.push(cur@) =~= done.push(prev).update(done.len() as int, prev.push(c)));
            }
            i = i + 1;
        }
        assert(self.source@.take(n as int) =~= self.source@);
        if cur.len() > 0 {
            Self::add(&mut lines, &cur, count + 1, Ghost(done));
        } else {
            assert(trim(cur@) =~= cur@);
            assert(done.push(cur@).drop_last() =~= done);
        }
        self.lines = lines;
    }
}

} // verus!
