//! The two-pass assembler: emission with a relocation table, then patching.
use vstd::prelude::*;

use crate::reader::{LineType, LineView, Line, Reader, document};
use crate::text::{
    chars_of, extend, MAX_ADDRESS, byte_len, five_digits, find, find_char, format_address, lemma_byte_len_concat,
    same, slice, string_of, width,
};

verus! {

/// Which pattern a malformed line failed.
#[derive(Clone, Copy, Debug, PartialEq, Eq, Structural)]
pub enum Malformed {
    Question,
    Constant,
}

/// Why a compilation failed.
#[derive(Debug, PartialEq, Eq)]
pub enum CompileError {
    /// A question or constant line, numbered from 1, that did not match its pattern.
    MalformedLine { line_number: usize, reason: Malformed },
    /// A choice target that no bookmark defines.
    UnresolvedSymbol { name: String },
    /// A bookmark address that five decimal digits cannot hold.
    AddressOutOfRange { address: usize },
    /// An output whose byte length does not fit in `usize`.
    OutputTooLarge,
}

/// The mathematical value of a `CompileError`.
pub enum Failure {
    Malformed(nat, Malformed),
    Unresolved(Seq<char>),
    AddressOutOfRange(nat),
    TooLarge,
}

impl View for CompileError {
    type V = Failure;

    open spec fn view(&self) -> Failure {
        match self {
            CompileError::MalformedLine { line_number, reason } => Failure::Malformed(*line_number as nat, *reason),
            CompileError::UnresolvedSymbol { name } => Failure::Unresolved(name@),
            CompileError::AddressOutOfRange { address } => Failure::AddressOutOfRange(*address as nat),
            CompileError::OutputTooLarge => Failure::TooLarge,
        }
    }
}

/// The state of the emission pass.
///
/// `relocs` holds, in emission order, each unresolved reference: its target
/// symbol, the byte offset of its placeholder and the placeholder's index in
/// `buf`.
pub struct Asm {
    pub buf: Seq<char>,
    pub syms: Seq<(Seq<char>, nat)>,
    pub consts: Seq<(Seq<char>, Seq<char>)>,
    pub relocs: Seq<(Seq<char>, nat, nat)>,
    pub grouping: bool,
}

pub open spec fn empty_asm() -> Asm {
    Asm { buf: Seq::empty(), syms: Seq::empty(), consts: Seq::empty(), relocs: Seq::empty(), grouping: false }
}

/// Index of the last entry of `keys` equal to `k`.
pub open spec fn find_key(keys: Seq<Seq<char>>, k: Seq<char>) -> Option<int>
    decreases keys.len(),
{
    if keys.len() == 0 {
        None
    } else if keys.last() == k {
        Some(keys.len() - 1)
    } else {
        find_key(keys.drop_last(), k)
    }
}

pub open spec fn keys<V>(t: Seq<(Seq<char>, V)>) -> Seq<Seq<char>> {
    t.map_values(|p: (Seq<char>, V)| p.0)
}

/// The value of the last entry of `t` with key `k`.
pub open spec fn lookup<V>(t: Seq<(Seq<char>, V)>, k: Seq<char>) -> Option<V> {
    match find_key(keys(t), k) {
        Some(i) => Some(t[i].1),
        None => None,
    }
}

/// `s` from index `i` on, each `{NAME}` whose name is a constant replaced
/// by its value; other braces stay as they are.
pub open spec fn subst_from(s: Seq<char>, consts: Seq<(Seq<char>, Seq<char>)>, i: int) -> Seq<char>
    decreases s.len() - i,
{
    if i < 0 || i >= s.len() {
        Seq::empty()
    } else {
        let j = find_char(s, '}', i + 1);
        if s[i] == '{' && i < j < s.len() && lookup(consts, s.subrange(i + 1, j)) is Some {
            lookup(consts, s.subrange(i + 1, j))->0 + subst_from(s, consts, j + 1)
        } else {
            seq![s[i]] + subst_from(s, consts, i + 1)
        }
    }
}

pub open spec fn subst(s: Seq<char>, consts: Seq<(Seq<char>, Seq<char>)>) -> Seq<char> {
    subst_from(s, consts, 0)
}

/// The separator that precedes a new token.
pub open spec fn sep(buf: Seq<char>) -> Seq<char> {
    if buf.len() == 0 { Seq::empty() } else { seq!['|'] }
}

pub open spec fn checked(st: Asm) -> Result<Asm, Failure> {
    if byte_len(st.buf) > usize::MAX { Err(Failure::TooLarge) } else { Ok(st) }
}

pub open spec fn malformed_reason(t: Seq<char>) -> Malformed {
    if t.len() > 0 && t[0] == '+' { Malformed::Question } else { Malformed::Constant }
}

/// What comes before a question's choice: `Q;` opening a new token, or `;`
/// continuing the group of the question just before.
pub open spec fn question_head(st: Asm) -> Seq<char> {
    if st.grouping { seq![';'] } else { sep(st.buf) + seq!['Q', ';'] }
}

/// The buffer up to a question's address field.
pub open spec fn question_prefix(st: Asm, l: LineView) -> Seq<char> {
    st.buf + question_head(st) + subst(l.key, st.consts) + seq![';']
}

/// One step of the emission pass.
pub open spec fn step(st: Asm, l: LineView) -> Result<Asm, Failure> {
    match l.kind {
        LineType::Text => checked(Asm {
            buf: st.buf + sep(st.buf) + seq!['P', ';'] + subst(l.text, st.consts),
            grouping: false,
            ..st
        }),
        LineType::Question => {
            let pre = question_prefix(st, l);
            match lookup(st.syms, l.value) {
                Some(a) => if a > MAX_ADDRESS {
                    Err(Failure::AddressOutOfRange(a))
                } else {
                    checked(Asm { buf: pre + five_digits(a), grouping: true, ..st })
                },
                None => checked(Asm {
                    buf: pre + five_digits(0),
                    relocs: st.relocs.push((l.value, byte_len(pre), pre.len())),
                    grouping: true,
                    ..st
                }),
            }
        },
        LineType::Bookmark => {
            let a = if st.buf.len() == 0 { 0 } else { byte_len(st.buf) + 1 };
            if lookup(st.syms, l.key) is Some {
                Ok(Asm { grouping: false, ..st })
            } else if a > usize::MAX {
                Err(Failure::TooLarge)
            } else {
                Ok(Asm { syms: st.syms.push((l.key, a)), grouping: false, ..st })
            }
        },
        LineType::Constant => Ok(Asm { consts: st.consts.push((l.key, l.value)), ..st }),
        LineType::Comment => Ok(st),
        LineType::End => checked(Asm { buf: st.buf + sep(st.buf) + seq!['E', ';'], grouping: false, ..st }),
        LineType::Undefined => Err(Failure::Malformed(l.source_line, malformed_reason(l.text))),
    }
}

/// The emission pass over the document `doc`.
pub open spec fn pass1(doc: Seq<LineView>) -> Result<Asm, Failure>
    decreases doc.len(),
{
    if doc.len() == 0 {
        Ok(empty_asm())
    } else {
        match pass1(doc.drop_last()) {
            Ok(st) => step(st, doc.last()),
            Err(e) => Err(e),
        }
    }
}

/// `b` with the five characters at index `i` replaced by `d`.
pub open spec fn write5(b: Seq<char>, i: int, d: Seq<char>) -> Seq<char> {
    b.take(i) + d + b.skip(i + 5)
}

/// The patching pass: each placeholder whose symbol resolves gets its address.
pub open spec fn patch(buf: Seq<char>, relocs: Seq<(Seq<char>, nat, nat)>, syms: Seq<(Seq<char>, nat)>) -> Seq<char>
    decreases relocs.len(),
{
    if relocs.len() == 0 {
        buf
    } else {
        let b = patch(buf, relocs.drop_last(), syms);
        let r = relocs.last();
        match lookup(syms, r.0) {
            Some(a) => if a <= MAX_ADDRESS { write5(b, r.2 as int, five_digits(a)) } else { b },
            None => b,
        }
    }
}

pub open spec fn failure_of(r: (Seq<char>, nat, nat), syms: Seq<(Seq<char>, nat)>) -> Option<Failure> {
    match lookup(syms, r.0) {
        Some(a) => if a <= MAX_ADDRESS { None } else { Some(Failure::AddressOutOfRange(a)) },
        None => Some(Failure::Unresolved(r.0)),
    }
}

/// The failure of the first relocation, in emission order, that cannot be patched.
pub open spec fn first_failure(relocs: Seq<(Seq<char>, nat, nat)>, syms: Seq<(Seq<char>, nat)>) -> Option<Failure>
    decreases relocs.len(),
{
    if relocs.len() == 0 {
        None
    } else {
        match first_failure(relocs.drop_last(), syms) {
            Some(f) => Some(f),
            None => failure_of(relocs.last(), syms),
        }
    }
}

/// The compiled output of the document `doc`.
pub open spec fn assemble(doc: Seq<LineView>) -> Result<Seq<char>, Failure> {
    match pass1(doc) {
        Err(e) => Err(e),
        Ok(st) => match first_failure(st.relocs, st.syms) {
            Some(f) => Err(f),
            None => Ok(patch(st.buf, st.relocs, st.syms)),
        },
    }
}

/// The compiled output of the source text `s`.
pub open spec fn compile_spec(s: Seq<char>) -> Result<Seq<char>, Failure> {
    assemble(document(s))
}

pub open spec fn names<V>(t: Seq<(Vec<char>, V)>) -> Seq<Seq<char>> {
    t.map_values(|p: (Vec<char>, V)| p.0@)
}

pub open spec fn syms_view(v: Seq<(Vec<char>, usize)>) -> Seq<(Seq<char>, nat)> {
    v.map_values(|p: (Vec<char>, usize)| (p.0@, p.1 as nat))
}

pub open spec fn consts_view(v: Seq<(Vec<char>, Vec<char>)>) -> Seq<(Seq<char>, Seq<char>)> {
    v.map_values(|p: (Vec<char>, Vec<char>)| (p.0@, p.1@))
}

pub open spec fn relocs_view(v: Seq<(Vec<char>, usize, usize)>) -> Seq<(Seq<char>, nat, nat)> {
    v.map_values(|p: (Vec<char>, usize, usize)| (p.0@, p.1 as nat, p.2 as nat))
}

/// The byte offsets recorded in `relocs` for the symbol `k`, in order.
pub open spec fn offsets_for(relocs: Seq<(Seq<char>, nat, nat)>, k: Seq<char>) -> Seq<nat>
    decreases relocs.len(),
{
    if relocs.len() == 0 {
        Seq::empty()
    } else {
        let p = offsets_for(relocs.drop_last(), k);
        if relocs.last().0 == k { p.push(relocs.last().1) } else { p }
    }
}

proof fn lemma_byte_len_push(s: Seq<char>, c: char)
    ensures
        byte_len(s.push(c)) == byte_len(s) + crate::text::char_width(c),
{
    assert(s.push(c).drop_last() =~= s);
}

pub proof fn lemma_find_key_range(keys: Seq<Seq<char>>, k: Seq<char>)
    ensures
        find_key(keys, k) matches Some(i) ==> 0 <= i < keys.len() && keys[i] == k,
    decreases keys.len(),
{
    if keys.len() > 0 && keys.last() != k {
        lemma_find_key_range(keys.drop_last(), k);
    }
}

/// Index of the last entry of `t` whose key is `k`.
pub(crate) fn find_entry<V>(t: &Vec<(Vec<char>, V)>, k: &Vec<char>) -> (r: Option<usize>)
    ensures
        match r {
            Some(i) => find_key(names(t@), k@) == Some(i as int) && i < t.len(),
            None => find_key(names(t@), k@) is None,
        },
{
    let mut i = t.len();
    assert(names(t@).take(i as int) =~= names(t@));
    while i > 0
        invariant
            i <= t.len(),
            find_key(names(t@), k@) == find_key(names(t@).take(i as int), k@),
        decreases i,
    {
        assert(names(t@).take(i as int).drop_last() =~= names(t@).take(i - 1));
        if same(&t[i - 1].0, k) {
            return Some(i - 1);
        }
        i = i - 1;
    }
    None
}

/// Appends `p` to `buf`, keeping `index` at its byte length; false, with
/// nothing promised of `buf`, where that length would not fit in `usize`.
fn append_counted(buf: &mut Vec<char>, index: &mut usize, p: &Vec<char>) -> (ok: bool)
    requires
        *old(index) == byte_len(old(buf)@),
    ensures
        ok ==> final(buf)@ == old(buf)@ + p@ && *final(index) == byte_len(final(buf)@),
        !ok ==> byte_len(old(buf)@ + p@) > usize::MAX,
{
    let ghost b0 = buf@;
    let mut k: usize = 0;
    while k < p.len()
        invariant
            k <= p.len(),
            buf@ == b0 + p@.take(k as int),
            b0 == old(buf)@,
            *index == byte_len(buf@),
        decreases p.len() - k,
    {
        let w = width(p[k]);
        proof {
            lemma_byte_len_push(buf@, p@[k as int]);
            assert(b0 + p@.take(k + 1) =~= buf@.push(p@[k as int]));
            assert(b0 + p@ =~= (b0 + p@.take(k + 1)) + p@.skip(k + 1));
            lemma_byte_len_concat(b0 + p@.take(k + 1), p@.skip(k + 1));
        }
        if *index > usize::MAX - w {
            assert(byte_len(b0 + p@.take(k + 1)) == *index + w);
            assert(byte_len(b0 + p@) >= byte_len(b0 + p@.take(k + 1)));
            return false;
        }
        buf.push(p[k]);
        *index = *index + w;
        k = k + 1;
    }
    assert(p@.take(k as int) =~= p@);
    true
}

/// `s` with each `{NAME}` whose name is in `consts` replaced by its value.
fn substitute(consts: &Vec<(Vec<char>, Vec<char>)>, s: &Vec<char>) -> (r: Vec<char>)
    ensures
        r@ == subst(s@, consts_view(consts@)),
{
    let ghost c = consts_view(consts@);
    proof {
        assert(keys(c) =~= names(consts@));
    }
    let mut out: Vec<char> = Vec::new();
    let mut i: usize = 0;
    while i < s.len()
        invariant
            i <= s.len(),
            c == consts_view(consts@),
            keys(c) == names(consts@),
            out@ + subst_from(s@, c, i as int) == subst_from(s@, c, 0),
        decreases s.len() - i,
    {
        let ch = s[i];
        if ch == '{' {
            let j = find(s, '}', i + 1);
            if j < s.len() {
                let name = slice(s, i + 1, j);
                match find_entry(consts, &name) {
                    Some(k) => {
                        let ghost before = out@;
                        extend(&mut out, &consts[k].1);
                        assert(out@ + subst_from(s@, c, j + 1) =~= before + subst_from(s@, c, i as int));
                        i = j + 1;
                        continue;
                    },
                    None => {},
                }
            }
        }
        let ghost before = out@;
        out.push(ch);
        assert(out@ + subst_from(s@, c, i + 1) =~= before + subst_from(s@, c, i as int));
        i = i + 1;
    }
    assert(out@ + subst_from(s@, c, i as int) =~= out@);
    out
}

/// The assembler's state: the output under construction, its byte length,
/// and the symbol, constant and relocation tables.
///
/// The tables are lists of pairs in insertion order, looked up by the last
/// entry of a name, so that contracts state them exactly.
/// `branch_table` holds each unresolved reference in emission order: its
/// target, the byte offset of its placeholder, and the placeholder's index
/// in `buffer`. Relocations are kept after patching, as a record.
pub struct Writer {
    pub output: String,
    pub index: usize,
    pub buffer: Vec<char>,
    pub symbols: Vec<(Vec<char>, usize)>,
    pub constants: Vec<(Vec<char>, Vec<char>)>,
    pub branch_table: Vec<(Vec<char>, usize, usize)>,
    pub in_question: bool,
}

/// A successful compilation: the classified source and the assembler.
pub struct CompiledScript {
    pub reader: Reader,
    pub writer: Writer,
}

impl Writer {
    pub open spec fn model(&self) -> Asm {
        Asm {
            buf: self.buffer@,
            syms: syms_view(self.symbols@),
            consts: consts_view(self.constants@),
            relocs: relocs_view(self.branch_table@),
            grouping: self.in_question,
        }
    }

    /// `index` is the byte length of `buffer`, and each placeholder lies
    /// inside it.
    pub open spec fn inv(&self) -> bool {
        &&& self.index == byte_len(self.buffer@)
        &&& forall|k: int| 0 <= k < self.branch_table@.len()
            ==> #[trigger] self.branch_table@[k].2 + 5 <= self.buffer@.len()
    }

    /// A writer with nothing emitted and empty tables.
    pub fn new() -> (r: Writer)
        ensures
            r.model() == empty_asm(),
            r.output@ == Seq::<char>::empty(),
            r.index == 0,
            r.inv(),
    {
        let w = Writer {
            output: String::new(),
            index: 0,
            buffer: Vec::new(),
            symbols: Vec::new(),
            constants: Vec::new(),
            branch_table: Vec::new(),
            in_question: false,
        };
        assert(w.model().syms =~= Seq::<(Seq<char>, nat)>::empty());
        assert(w.model().consts =~= Seq::<(Seq<char>, Seq<char>)>::empty());
        assert(w.model().relocs =~= Seq::<(Seq<char>, nat, nat)>::empty());
        w
    }

    /// Appends the token `tok`, preceded by its separator where one is due.
    fn emit(&mut self, tok: Vec<char>) -> (r: Result<(), CompileError>)
        requires
            old(self).inv(),
        ensures
            ({
                let b = old(self).buffer@ + sep(old(self).buffer@) + tok@;
                if byte_len(b) > usize::MAX {
                    r == Err::<(), CompileError>(CompileError::OutputTooLarge)
                } else {
                    &&& r is Ok
                    &&& final(self).model() == (Asm { buf: b, grouping: false, ..old(self).model() })
                    &&& final(self).inv()
                }
            }),
    {
        let mut t: Vec<char> = Vec::new();
        if self.buffer.len() > 0 {
            t.push('|');
        }
        extend(&mut t, &tok);
        assert(old(self).buffer@ + t@ =~= old(self).buffer@ + sep(old(self).buffer@) + tok@);
        if !append_counted(&mut self.buffer, &mut self.index, &t) {
            return Err(CompileError::OutputTooLarge);
        }
        self.in_question = false;
        Ok(())
    }

    /// Records a bookmark at the position where the next token will begin,
    /// unless a bookmark of that name exists already.
    fn bookmark(&mut self, name: &Vec<char>) -> (r: Result<(), CompileError>)
        requires
            old(self).inv(),
        ensures
            ({
                let st = old(self).model();
                let a = if st.buf.len() == 0 { 0 } else { byte_len(st.buf) + 1 };
                if lookup(st.syms, name@) is Some {
                    r is Ok && final(self).model() == (Asm { grouping: false, ..st })
                        && final(self).inv()
                } else if a > usize::MAX {
                    r == Err::<(), CompileError>(CompileError::OutputTooLarge)
                } else {
                    r is Ok && final(self).model() == (Asm { syms: st.syms.push((name@, a)), grouping: false, ..st })
                        && final(self).inv()
                }
            }),
    {
        proof {
            assert(keys(syms_view(self.symbols@)) =~= names(self.symbols@));
        }
        if find_entry(&self.symbols, name).is_none() {
            let a = if self.buffer.len() == 0 {
                0
            } else {
                if self.index == usize::MAX {
                    return Err(CompileError::OutputTooLarge);
                }
                self.index + 1
            };
            let n = slice(name, 0, name.len());
            assert(n@ =~= name@);
            self.symbols.push((n, a));
            assert(syms_view(self.symbols@) =~= syms_view(old(self).symbols@).push((name@, a as nat)));
        }
        self.in_question = false;
        Ok(())
    }

    /// Appends one choice of a question group: its text, and either the
    /// address of its target or a placeholder recorded for patching.
    fn question(&mut self, key: &Vec<char>, target: &Vec<char>) -> (r: Result<(), CompileError>)
        requires
            old(self).inv(),
        ensures
            ({
                let st = old(self).model();
                let l = LineView { kind: LineType::Question, text: Seq::empty(), key: key@, value: target@, source_line: 0 };
                match step(st, l) {
                    Ok(s2) => r is Ok && final(self).model() == s2 && final(self).inv(),
                    Err(e) => r is Err && r->Err_0@ == e,
                }
            }),
    {
        let ghost st = self.model();
        let ghost l = LineView { kind: LineType::Question, text: Seq::empty(), key: key@, value: target@, source_line: 0 };
        proof {
            assert(keys(syms_view(self.symbols@)) =~= names(self.symbols@));
        }
        let found = find_entry(&self.symbols, target);
        let addr: Option<usize> = match found {
            Some(k) => Some(self.symbols[k].1),
            None => None,
        };
        if let Some(a) = addr {
            if a > MAX_ADDRESS {
                return Err(CompileError::AddressOutOfRange { address: a });
            }
        }
        let mut t: Vec<char> = Vec::new();
        if self.in_question {
            t.push(';');
        } else {
            if self.buffer.len() > 0 {
                t.push('|');
            }
            t.push('Q');
            t.push(';');
        }
        let choice = substitute(&self.constants, key);
        extend(&mut t, &choice);
        t.push(';');
        let ghost pre = question_prefix(st, l);
        assert(st.buf + t@ =~= pre);
        let digits = match addr {
            Some(a) => format_address(a),
            None => format_address(0),
        };
        proof {
            lemma_byte_len_concat(pre, digits@);
        }
        if !append_counted(&mut self.buffer, &mut self.index, &t) {
            return Err(CompileError::OutputTooLarge);
        }
        let pos = self.index;
        let ci = self.buffer.len();
        if !append_counted(&mut self.buffer, &mut self.index, &digits) {
            return Err(CompileError::OutputTooLarge);
        }
        if addr.is_none() {
            let n = slice(target, 0, target.len());
            assert(n@ =~= target@);
            self.branch_table.push((n, pos, ci));
            assert(relocs_view(self.branch_table@) =~= st.relocs.push((target@, pos as nat, ci as nat)));
        }
        self.in_question = true;
        Ok(())
    }

    /// Processes one line of the document.
    fn process_line(&mut self, l: &Line) -> (r: Result<(), CompileError>)
        requires
            old(self).inv(),
        ensures
            match step(old(self).model(), l@) {
                Ok(st) => r is Ok && final(self).model() == st && final(self).inv(),
                Err(e) => r is Err && r->Err_0@ == e,
            },
    {
        match l.type_ {
            LineType::Text => {
                let mut t = vec!['P', ';'];
                let body = substitute(&self.constants, &l.text);
                extend(&mut t, &body);
                assert(self.buffer@ + sep(self.buffer@) + t@ =~= self.buffer@ + sep(self.buffer@)
                    + seq!['P', ';'] + subst(l.text@, self.model().consts));
                self.emit(t)
            },
            LineType::Question => self.question(&l.key, &l.value),
            LineType::Bookmark => self.bookmark(&l.key),
            LineType::Constant => {
                let k = slice(&l.key, 0, l.key.len());
                let v = slice(&l.value, 0, l.value.len());
                assert(k@ =~= l.key@);
                assert(v@ =~= l.value@);
                self.constants.push((k, v));
                assert(consts_view(self.constants@) =~= consts_view(old(self).constants@).push((l.key@, l.value@)));
                Ok(())
            },
            LineType::Comment => Ok(()),
            LineType::End => {
                let t = vec!['E', ';'];
                assert(self.buffer@ + sep(self.buffer@) + t@ =~= self.buffer@ + sep(self.buffer@) + seq!['E', ';']);
                self.emit(t)
            },
            LineType::Undefined => {
                let reason = if l.text.len() > 0 && l.text[0] == '+' {
                    Malformed::Question
                } else {
                    Malformed::Constant
                };
                Err(CompileError::MalformedLine { line_number: l.source_line, reason })
            },
        }
    }

    /// The patching pass: writes the address of each resolvable placeholder;
    /// gives the failure of the first that cannot be patched, if any.
    fn resolve(&mut self) -> (r: Option<CompileError>)
        requires
            old(self).inv(),
        ensures
            final(self).buffer@ == patch(old(self).buffer@, old(self).model().relocs, old(self).model().syms),
            final(self).index == old(self).index,
            final(self).symbols@ == old(self).symbols@,
            final(self).constants@ == old(self).constants@,
            final(self).branch_table@ == old(self).branch_table@,
            final(self).in_question == old(self).in_question,
            match first_failure(old(self).model().relocs, old(self).model().syms) {
                None => r is None,
                Some(f) => r matches Some(e) && e@ == f,
            },
    {
        let ghost relocs = old(self).model().relocs;
        let ghost syms = old(self).model().syms;
        let ghost b0 = old(self).buffer@;
        proof {
            assert(keys(syms) =~= names(self.symbols@));
        }
        let mut failure: Option<CompileError> = None;
        let mut k: usize = 0;
        while k < self.branch_table.len()
            invariant
                k <= self.branch_table@.len(),
                relocs == relocs_view(self.branch_table@),
                syms == syms_view(self.symbols@),
                keys(syms) == names(self.symbols@),
                self.branch_table@ == old(self).branch_table@,
                self.symbols@ == old(self).symbols@,
                self.constants@ == old(self).constants@,
                self.index == old(self).index,
                self.in_question == old(self).in_question,
                b0 == old(self).buffer@,
                old(self).inv(),
                self.buffer@.len() == b0.len(),
                self.buffer@ == patch(b0, relocs.take(k as int), syms),
                match first_failure(relocs.take(k as int), syms) {
                    None => failure is None,
                    Some(f) => failure matches Some(e) && e@ == f,
                },
            decreases self.branch_table@.len() - k,
        {
            assert(relocs.take(k + 1).drop_last() =~= relocs.take(k as int));
            let ghost before = self.buffer@;
            let found = find_entry(&self.symbols, &self.branch_table[k].0);
            match found {
                Some(j) => {
                    let a = self.symbols[j].1;
                    if a <= MAX_ADDRESS {
                        let d = format_address(a);
                        let ci = self.branch_table[k].2;
                        assert(old(self).branch_table@[k as int].2 + 5 <= b0.len());
                        let blen = self.buffer.len();
                        assert(ci + 5 <= blen);
                        let (c1, c2, c3, c4) = (ci + 1, ci + 2, ci + 3, ci + 4);
                        self.buffer[ci] = d[0];
                        self.buffer[c1] = d[1];
                        self.buffer[c2] = d[2];
                        self.buffer[c3] = d[3];
                        self.buffer[c4] = d[4];
                        assert(self.buffer@ =~= write5(before, ci as int, d@));
                    } else if failure.is_none() {
                        failure = Some(CompileError::AddressOutOfRange { address: a });
                    }
                },
                None => {
                    if failure.is_none() {
                        failure = Some(CompileError::UnresolvedSymbol { name: string_of(&self.branch_table[k].0) });
                    }
                },
            }
            k = k + 1;
        }
        assert(relocs.take(k as int) =~= relocs);
        failure
    }

    /// Compiles the document of `input` into `output`, starting from empty
    /// tables. On a failure of the emission pass the writer is left empty;
    /// on a failure of the patching pass `output` holds the buffer with
    /// each resolvable placeholder patched.
    pub fn process_lines(&mut self, input: &Reader) -> (r: Result<(), CompileError>)
        ensures
            match pass1(input.lines_view()) {
                Err(e) => {
                    &&& r is Err && r->Err_0@ == e
                    &&& final(self).model() == empty_asm()
                    &&& final(self).output@ == Seq::<char>::empty()
                    &&& final(self).index == 0
                },
                Ok(st) => {
                    &&& final(self).buffer@ == patch(st.buf, st.relocs, st.syms)
                    &&& final(self).output@ == final(self).buffer@
                    &&& final(self).index == byte_len(st.buf)
                    &&& final(self).model().syms == st.syms
                    &&& final(self).model().consts == st.consts
                    &&& final(self).model().relocs == st.relocs
                    &&& match first_failure(st.relocs, st.syms) {
                        None => r is Ok,
                        Some(f) => r is Err && r->Err_0@ == f,
                    }
                },
            },
    {
        *self = Writer::new();
        let ghost doc = input.lines_view();
        let mut i: usize = 0;
        assert(doc.take(0) =~= Seq::<LineView>::empty());
        while i < input.lines.len()
            invariant
                i <= input.lines@.len(),
                doc == input.lines_view(),
                self.inv(),
                pass1(doc.take(i as int)) == Ok::<Asm, Failure>(self.model()),
            decreases input.lines@.len() - i,
        {
            assert(doc.take(i + 1).drop_last() =~= doc.take(i as int));
            assert(doc.take(i + 1).last() == input.lines@[i as int]@);
            let res = self.process_line(&input.lines[i]);
            if let Err(e) = res {
                proof {
                    lemma_pass1_err_extends(doc, i + 1);
                }
                *self = Writer::new();
                return Err(e);
            }
            i = i + 1;
        }
        assert(doc.take(i as int) =~= doc);
        let failure = self.resolve();
        self.output = string_of(&self.buffer);
        match failure {
            Some(e) => Err(e),
            None => Ok(()),
        }
    }
}

impl Writer {
    /// The address recorded for the bookmark `name`.
    pub fn symbol(&self, name: &str) -> (r: Option<usize>)
        ensures
            match lookup(self.model().syms, name@) {
                Some(a) => r == Some(a as usize),
                None => r is None,
            },
    {
        let n = chars_of(name);
        proof {
            assert(keys(syms_view(self.symbols@)) =~= names(self.symbols@));
        }
        match find_entry(&self.symbols, &n) {
            Some(k) => Some(self.symbols[k].1),
            None => None,
        }
    }

    /// The value of the constant `name`, as last defined.
    pub fn constant(&self, name: &str) -> (r: Option<String>)
        ensures
            match lookup(self.model().consts, name@) {
                Some(v) => r matches Some(s) && s@ == v,
                None => r is None,
            },
    {
        let n = chars_of(name);
        proof {
            assert(keys(consts_view(self.constants@)) =~= names(self.constants@));
        }
        match find_entry(&self.constants, &n) {
            Some(k) => Some(string_of(&self.constants[k].1)),
            None => None,
        }
    }

    /// The byte offsets of the placeholders written for `name`, in order.
    pub fn relocations(&self, name: &str) -> (r: Vec<usize>)
        ensures
            r@.map_values(|x: usize| x as nat) == offsets_for(self.model().relocs, name@),
    {
        let n = chars_of(name);
        let ghost relocs = self.model().relocs;
        let mut r: Vec<usize> = Vec::new();
        let mut k: usize = 0;
        assert(relocs.take(0) =~= Seq::<(Seq<char>, nat, nat)>::empty());
        while k < self.branch_table.len()
            invariant
                k <= self.branch_table@.len(),
                relocs == relocs_view(self.branch_table@),
                n@ == name@,
                r@.map_values(|x: usize| x as nat) == offsets_for(relocs.take(k as int), name@),
            decreases self.branch_table@.len() - k,
        {
            assert(relocs.take(k + 1).drop_last() =~= relocs.take(k as int));
            let ghost before = r@;
            if same(&self.branch_table[k].0, &n) {
                r.push(self.branch_table[k].1);
                assert(r@.map_values(|x: usize| x as nat) =~= before.map_values(|x: usize| x as nat).push(
                    self.branch_table@[k as int].1 as nat));
            }
            k = k + 1;
        }
        assert(relocs.take(k as int) =~= relocs);
        r
    }
}

/// Compiles the source text `source`: classifies every line, then
/// assembles the document. Fails on a malformed line, an unresolved
/// target, an address past five digits, or an output too long to measure.
pub fn compile(source: &str) -> (r: Result<CompiledScript, CompileError>)
    ensures
        match compile_spec(source@) {
            Ok(out) => r matches Ok(c) && c.writer.output@ == out && c.reader.lines_view() == document(source@)
                && c.writer.model().syms == pass1(document(source@))->Ok_0.syms
                && c.writer.model().consts == pass1(document(source@))->Ok_0.consts,
            Err(f) => r matches Err(e) && e@ == f,
        },
{
    let mut reader = Reader::from_text(source);
    reader.parse_all_lines();
    let mut writer = Writer::new();
    match writer.process_lines(&reader) {
        Ok(()) => Ok(CompiledScript { reader, writer }),
        Err(e) => Err(e),
    }
}

/// A failure of the emission pass on a prefix is its failure on the whole.
proof fn lemma_pass1_err_extends(doc: Seq<LineView>, i: int)
    requires
        0 <= i <= doc.len(),
        pass1(doc.take(i)) is Err,
    ensures
        pass1(doc) == pass1(doc.take(i)),
    decreases doc.len() - i,
{
    if i < doc.len() {
        assert(doc.take(i + 1).drop_last() =~= doc.take(i));
        lemma_pass1_err_extends(doc, i + 1);
    } else {
        assert(doc.take(i) =~= doc);
    }
}

} // verus!
