//! Laws of the compiler, proved over its specification.
use vstd::prelude::*;

use crate::reader::{LineType, LineView, classify_all, classify_spec, document, split_lines};
use crate::text::{byte_len, char_width, five_digits, MAX_ADDRESS};
use crate::writer::{
    Asm, Failure, assemble, compile_spec, find_key, first_failure, keys, lookup, patch, pass1,
    question_prefix, step, subst, subst_from, write5,
};

verus! {

/// Two emission states that differ at most in their constant tables.
pub open spec fn same_but_consts(s1: Asm, s2: Asm) -> bool {
    &&& s1.buf == s2.buf
    &&& s1.syms == s2.syms
    &&& s1.relocs == s2.relocs
    &&& s1.grouping == s2.grouping
}

/// Two constant tables that give every name the same value.
pub open spec fn consts_equiv(c1: Seq<(Seq<char>, Seq<char>)>, c2: Seq<(Seq<char>, Seq<char>)>) -> bool {
    forall|k: Seq<char>| #[trigger] lookup(c1, k) == lookup(c2, k)
}

/// Two outcomes of the emission pass that agree on everything the output
/// depends on; `equiv` asks the constant tables to agree too.
pub open spec fn outcome_rel(r1: Result<Asm, Failure>, r2: Result<Asm, Failure>, equiv: bool) -> bool {
    match (r1, r2) {
        (Err(e1), Err(e2)) => e1 == e2,
        (Ok(s1), Ok(s2)) => same_but_consts(s1, s2) && (equiv ==> consts_equiv(s1.consts, s2.consts)),
        _ => false,
    }
}

/// The document with its comment and constant lines removed.
pub open spec fn visible(doc: Seq<LineView>) -> Seq<LineView>
    decreases doc.len(),
{
    if doc.len() == 0 {
        doc
    } else {
        let p = visible(doc.drop_last());
        let k = doc.last().kind;
        if k == LineType::Comment || k == LineType::Constant { p } else { p.push(doc.last()) }
    }
}




proof fn lemma_subst_equiv(s: Seq<char>, c1: Seq<(Seq<char>, Seq<char>)>, c2: Seq<(Seq<char>, Seq<char>)>, i: int)
    requires
        consts_equiv(c1, c2),
    ensures
        subst_from(s, c1, i) == subst_from(s, c2, i),
    decreases s.len() - i,
{
    if 0 <= i < s.len() {
        let j = crate::text::find_char(s, '}', i + 1);
        assert(lookup(c1, s.subrange(i + 1, j)) == lookup(c2, s.subrange(i + 1, j)));
        if s[i] == '{' && i < j < s.len() && lookup(c1, s.subrange(i + 1, j)) is Some {
            lemma_subst_equiv(s, c1, c2, j + 1);
        } else {
            lemma_subst_equiv(s, c1, c2, i + 1);
        }
    }
}


/// One step from related states, on a line whose texts substitute alike
/// under both tables, gives related outcomes.
proof fn lemma_step_sim(s1: Asm, s2: Asm, l: LineView, equiv: bool)
    requires
        same_but_consts(s1, s2),
        equiv ==> consts_equiv(s1.consts, s2.consts),
        l.kind != LineType::Constant,
        l.kind == LineType::Text ==> subst(l.text, s1.consts) == subst(l.text, s2.consts),
        l.kind == LineType::Question ==> subst(l.key, s1.consts) == subst(l.key, s2.consts),
    ensures
        outcome_rel(step(s1, l), step(s2, l), equiv),
{
}

proof fn lemma_lookup_push_same(c: Seq<(Seq<char>, Seq<char>)>, x: Seq<char>, a: Seq<char>, b: Seq<char>, k: Seq<char>)
    ensures
        lookup(c.push((x, a)).push((x, b)), k) == lookup(c.push((x, b)), k),
{
    let c1 = c.push((x, a)).push((x, b));
    let c2 = c.push((x, b));
    assert(keys(c1).drop_last() =~= keys(c.push((x, a))));
    assert(keys(c.push((x, a))).drop_last() =~= keys(c));
    assert(keys(c2).drop_last() =~= keys(c));
    assert(keys(c1).last() == x);
    assert(keys(c2).last() == x);
    assert(keys(c.push((x, a))).last() == x);
    if k != x {
        assert(find_key(keys(c1), k) == find_key(keys(c.push((x, a))), k));
        assert(find_key(keys(c.push((x, a))), k) == find_key(keys(c), k));
        assert(find_key(keys(c2), k) == find_key(keys(c), k));
        crate::writer::lemma_find_key_range(keys(c), k);
        if let Some(i) = find_key(keys(c), k) {
            assert(c1[i] == c[i]);
            assert(c2[i] == c[i]);
        }
    } else {
        assert(find_key(keys(c1), k) == Some(c.len() + 1 as int));
        assert(find_key(keys(c2), k) == Some(c.len() as int));
    }
}

/// Running the same lines after related outcomes keeps them related.
proof fn lemma_sim_suffix(lhs: Seq<LineView>, rhs: Seq<LineView>, rest: Seq<LineView>)
    requires
        outcome_rel(pass1(lhs), pass1(rhs), true),
    ensures
        outcome_rel(pass1(lhs + rest), pass1(rhs + rest), true),
    decreases rest.len(),
{
    if rest.len() == 0 {
        assert(lhs + rest =~= lhs);
        assert(rhs + rest =~= rhs);
    } else {
        lemma_sim_suffix(lhs, rhs, rest.drop_last());
        assert((lhs + rest).drop_last() =~= lhs + rest.drop_last());
        assert((rhs + rest).drop_last() =~= rhs + rest.drop_last());
        let l = rest.last();
        if let (Ok(s1), Ok(s2)) = (pass1(lhs + rest.drop_last()), pass1(rhs + rest.drop_last())) {
            if l.kind == LineType::Constant {
                let c1 = s1.consts.push((l.key, l.value));
                let c2 = s2.consts.push((l.key, l.value));
                assert forall|k: Seq<char>| #[trigger] lookup(c1, k) == lookup(c2, k) by {
                    assert(keys(c1).drop_last() =~= keys(s1.consts));
                    assert(keys(c2).drop_last() =~= keys(s2.consts));
                    assert(lookup(s1.consts, k) == lookup(s2.consts, k));
                    crate::writer::lemma_find_key_range(keys(s1.consts), k);
                    crate::writer::lemma_find_key_range(keys(s2.consts), k);
                }
            } else {
                lemma_subst_equiv(l.text, s1.consts, s2.consts, 0);
                lemma_subst_equiv(l.key, s1.consts, s2.consts, 0);
                lemma_step_sim(s1, s2, l, true);
            }
        }
    }
}

/// Related outcomes of the emission pass compile to the same result.
proof fn lemma_rel_assemble(d1: Seq<LineView>, d2: Seq<LineView>, equiv: bool)
    requires
        outcome_rel(pass1(d1), pass1(d2), equiv),
    ensures
        assemble(d1) == assemble(d2),
{
}

/// Determinism: compiling the same source text twice gives the same
/// result, the same output on success and the same failure otherwise.
pub proof fn law_deterministic(a: Seq<char>, b: Seq<char>)
    requires
        a == b,
    ensures
        compile_spec(a) == compile_spec(b),
{
}

/// A constant defined twice in a row takes its second value only:
/// defining `x` as `a` and then as `b` compiles as defining it as `b`.
pub proof fn law_constant_redefinition(pre: Seq<LineView>, c_a: LineView, c_b: LineView, rest: Seq<LineView>)
    requires
        c_a.kind == LineType::Constant,
        c_b.kind == LineType::Constant,
        c_a.key == c_b.key,
    ensures
        assemble(pre + seq![c_a, c_b] + rest) == assemble(pre + seq![c_b] + rest),
{
    let lhs = pre + seq![c_a, c_b];
    let rhs = pre + seq![c_b];
    assert(lhs.drop_last().drop_last() =~= pre);
    assert(rhs.drop_last() =~= pre);
    assert(lhs.drop_last().last() == c_a);
    let q1 = lhs.drop_last();
    assert(pass1(q1) == match pass1(pre) {
        Ok(st) => step(st, c_a),
        Err(e) => Err(e),
    });
    if let Ok(st) = pass1(pre) {
        assert forall|k: Seq<char>| #[trigger] lookup(st.consts.push((c_a.key, c_a.value)).push((c_b.key, c_b.value)), k)
            == lookup(st.consts.push((c_b.key, c_b.value)), k) by {
            lemma_lookup_push_same(st.consts, c_a.key, c_a.value, c_b.value, k);
        }
    }
    assert(outcome_rel(pass1(lhs), pass1(rhs), true));
    lemma_sim_suffix(lhs, rhs, rest);
    lemma_rel_assemble(lhs + rest, rhs + rest, true);
}

/// The name-value pairs of the constant lines of `doc`, in order.
pub open spec fn const_defs(doc: Seq<LineView>) -> Seq<(Seq<char>, Seq<char>)>
    decreases doc.len(),
{
    if doc.len() == 0 {
        Seq::empty()
    } else {
        let p = const_defs(doc.drop_last());
        let l = doc.last();
        if l.kind == LineType::Constant { p.push((l.key, l.value)) } else { p }
    }
}

/// At index `i`, `s` holds a placeholder `{NAME}` whose name `c` defines.
pub open spec fn placeholder_at(s: Seq<char>, c: Seq<(Seq<char>, Seq<char>)>, i: int) -> bool {
    let j = crate::text::find_char(s, '}', i + 1);
    0 <= i < s.len() && s[i] == '{' && i < j < s.len() && lookup(c, s.subrange(i + 1, j)) is Some
}

/// `s` holds a placeholder `{NAME}` whose name `c` defines.
pub open spec fn uses_constant(s: Seq<char>, c: Seq<(Seq<char>, Seq<char>)>) -> bool {
    exists|i: int| #[trigger] placeholder_at(s, c, i)
}

/// The text that a line of `doc` has substituted: a paragraph's, or a
/// choice's.
pub open spec fn substituted(l: LineView) -> Seq<char> {
    if l.kind == LineType::Question { l.key } else { l.text }
}

/// No paragraph or choice of `doc` uses `{NAME}` for a name that a
/// constant line of `doc` defines.
pub open spec fn no_defined_placeholders(doc: Seq<LineView>) -> bool {
    forall|i: int| 0 <= i < doc.len() ==> !uses_constant(substituted(#[trigger] doc[i]), const_defs(doc))
}

proof fn lemma_subst_unused(s: Seq<char>, c: Seq<(Seq<char>, Seq<char>)>, i: int)
    requires
        !uses_constant(s, c),
        0 <= i <= s.len(),
    ensures
        subst_from(s, c, i) == s.skip(i),
    decreases s.len() - i,
{
    if i < s.len() {
        assert(!placeholder_at(s, c, i));
        lemma_subst_unused(s, c, i + 1);
        assert(seq![s[i]] + s.skip(i + 1) =~= s.skip(i));
    } else {
        assert(s.skip(i) =~= Seq::<char>::empty());
    }
}

proof fn lemma_lookup_some_push<V>(t: Seq<(Seq<char>, V)>, p: (Seq<char>, V), n: Seq<char>)
    requires
        lookup(t, n) is Some,
    ensures
        lookup(t.push(p), n) is Some,
{
    if p.0 != n {
        lemma_lookup_push_other(t, p, n);
    } else {
        assert(keys(t.push(p)).last() == n);
    }
}

/// A table that defines no more names than `c` does not use a name that
/// `s` does not use with `c`.
proof fn lemma_uses_sub(s: Seq<char>, c: Seq<(Seq<char>, Seq<char>)>, d: Seq<(Seq<char>, Seq<char>)>)
    requires
        !uses_constant(s, c),
        forall|n: Seq<char>| #[trigger] lookup(d, n) is Some ==> lookup(c, n) is Some,
    ensures
        !uses_constant(s, d),
{
    if uses_constant(s, d) {
        let i = choose|i: int| #[trigger] placeholder_at(s, d, i);
        let j = crate::text::find_char(s, '}', i + 1);
        assert(lookup(d, s.subrange(i + 1, j)) is Some);
        assert(placeholder_at(s, c, i));
    }
}

proof fn lemma_visible(doc: Seq<LineView>, all: Seq<(Seq<char>, Seq<char>)>)
    requires
        forall|i: int| 0 <= i < doc.len() ==> !uses_constant(substituted(#[trigger] doc[i]), all),
        forall|n: Seq<char>| #[trigger] lookup(const_defs(doc), n) is Some ==> lookup(all, n) is Some,
    ensures
        outcome_rel(pass1(doc), pass1(visible(doc)), false),
        pass1(doc) matches Ok(s) ==> s.consts == const_defs(doc),
        pass1(visible(doc)) matches Ok(s) ==> s.consts.len() == 0,
    decreases doc.len(),
{
    if doc.len() > 0 {
        let p = doc.drop_last();
        let l = doc.last();
        assert forall|i: int| 0 <= i < p.len() implies !uses_constant(substituted(#[trigger] p[i]), all) by {
            assert(p[i] == doc[i]);
        }
        assert forall|n: Seq<char>| #[trigger] lookup(const_defs(p), n) is Some implies lookup(all, n) is Some by {
            if l.kind == LineType::Constant {
                assert(const_defs(doc) == const_defs(p).push((l.key, l.value)));
                lemma_lookup_some_push(const_defs(p), (l.key, l.value), n);
            } else {
                assert(const_defs(doc) == const_defs(p));
            }
            assert(lookup(const_defs(doc), n) is Some);
        }
        lemma_visible(p, all);
        let v = visible(p);
        if !(l.kind == LineType::Comment || l.kind == LineType::Constant) {
            assert(visible(doc).drop_last() =~= v);
        }
        if let (Ok(s1), Ok(s2)) = (pass1(p), pass1(v)) {
            if l.kind != LineType::Constant && l.kind != LineType::Comment {
                assert(doc[doc.len() - 1] == l);
                let t = substituted(l);
                assert(!uses_constant(t, all));
                lemma_uses_sub(t, all, s1.consts);
                lemma_uses_sub(t, all, s2.consts);
                lemma_subst_unused(t, s1.consts, 0);
                lemma_subst_unused(t, s2.consts, 0);
                lemma_step_sim(s1, s2, l, false);
            }
        }
    }
}

/// Zero width of comments and constants: removing every comment and
/// constant line from a document leaves the compiled result unchanged,
/// where no paragraph or choice uses `{NAME}` for a name that a constant
/// line defines.
pub proof fn law_zero_width(doc: Seq<LineView>)
    requires
        no_defined_placeholders(doc),
    ensures
        assemble(doc) == assemble(visible(doc)),
{
    lemma_visible(doc, const_defs(doc));
    lemma_rel_assemble(doc, visible(doc), false);
}

/// Each placeholder of `st` lies inside its buffer at its recorded byte
/// offset and still reads `00000`; placeholders come in order and do not
/// overlap.
pub open spec fn placeholders_wf(st: Asm) -> bool {
    &&& forall|k: int| 0 <= k < st.relocs.len() ==> {
        let r = #[trigger] st.relocs[k];
        &&& r.2 + 5 <= st.buf.len()
        &&& st.buf.subrange(r.2 as int, r.2 + 5 as int) == five_digits(0)
        &&& byte_len(st.buf.take(r.2 as int)) == r.1
    }
    &&& forall|j: int, k: int| 0 <= j < k < st.relocs.len() ==> #[trigger] st.relocs[j].2 + 5 <= #[trigger] st.relocs[k].2
}

proof fn lemma_step_wf(st: Asm, l: LineView)
    requires
        placeholders_wf(st),
    ensures
        step(st, l) matches Ok(s2) ==> placeholders_wf(s2),
{
    if let Ok(s2) = step(st, l) {
        assert(st.buf.len() <= s2.buf.len());
        assert(s2.buf.take(st.buf.len() as int) =~= st.buf);
        assert forall|k: int| 0 <= k < st.relocs.len() implies {
            let r = #[trigger] st.relocs[k];
            &&& s2.buf.subrange(r.2 as int, r.2 + 5 as int) == st.buf.subrange(r.2 as int, r.2 + 5 as int)
            &&& s2.buf.take(r.2 as int) == st.buf.take(r.2 as int)
        } by {
            let r = st.relocs[k];
            assert(s2.buf.subrange(r.2 as int, r.2 + 5 as int) =~= st.buf.subrange(r.2 as int, r.2 + 5 as int));
            assert(s2.buf.take(r.2 as int) =~= st.buf.take(r.2 as int));
        }
        if l.kind == LineType::Question && lookup(st.syms, l.value) is None {
            let pre = question_prefix(st, l);
            assert(s2.buf == pre + five_digits(0));
            assert(s2.buf.subrange(pre.len() as int, pre.len() + 5 as int) =~= five_digits(0));
            assert(s2.buf.take(pre.len() as int) =~= pre);
            assert(s2.relocs.last() == (l.value, byte_len(pre), pre.len()));
            assert(st.buf.len() <= pre.len());
        }
    }
}

proof fn lemma_pass1_wf(doc: Seq<LineView>)
    ensures
        pass1(doc) matches Ok(st) ==> placeholders_wf(st),
    decreases doc.len(),
{
    if doc.len() > 0 {
        lemma_pass1_wf(doc.drop_last());
        if let Ok(st) = pass1(doc.drop_last()) {
            lemma_step_wf(st, doc.last());
        }
    }
}

proof fn lemma_byte_len_same_widths(s1: Seq<char>, s2: Seq<char>)
    requires
        s1.len() == s2.len(),
        forall|i: int| 0 <= i < s1.len() ==> char_width(#[trigger] s1[i]) == char_width(s2[i]),
    ensures
        byte_len(s1) == byte_len(s2),
    decreases s1.len(),
{
    if s1.len() > 0 {
        lemma_byte_len_same_widths(s1.drop_last(), s2.drop_last());
    }
}

proof fn lemma_five_digits_narrow(a: nat)
    ensures
        forall|i: int| 0 <= i < 5 ==> char_width(#[trigger] five_digits(a)[i]) == 1,
{
}

/// Index `i` lies in the field of some placeholder of `relocs`.
pub open spec fn in_some_field(relocs: Seq<(Seq<char>, nat, nat)>, i: int) -> bool {
    exists|k: int| 0 <= k < relocs.len() && (#[trigger] relocs[k]).2 <= i < relocs[k].2 + 5
}

/// The patching pass over the first `m` placeholders: those hold the
/// addresses of their targets, the others still read `00000`, and every
/// character keeps its width.
#[verifier::rlimit(40)]
proof fn lemma_patch_prefix(st: Asm, m: int)
    requires
        placeholders_wf(st),
        0 <= m <= st.relocs.len(),
        first_failure(st.relocs.take(m), st.syms) is None,
    ensures
        ({
            let out = patch(st.buf, st.relocs.take(m), st.syms);
            &&& out.len() == st.buf.len()
            &&& forall|i: int| 0 <= i < out.len() ==> char_width(#[trigger] out[i]) == char_width(st.buf[i])
            &&& forall|i: int| 0 <= i < out.len() ==> ((#[trigger] out[i] == '|') <==> st.buf[i] == '|')
            &&& forall|i: int| 0 <= i < out.len() && !in_some_field(st.relocs, i) ==> #[trigger] out[i] == st.buf[i]
            &&& forall|k: int| 0 <= k < st.relocs.len() ==> {
                let r = #[trigger] st.relocs[k];
                out.subrange(r.2 as int, r.2 + 5 as int) == if k < m {
                    five_digits(lookup(st.syms, r.0)->0)
                } else {
                    five_digits(0)
                }
            }
        }),
    decreases m,
{
    let relocs = st.relocs;
    if m == 0 {
        assert(relocs.take(0) =~= Seq::<(Seq<char>, nat, nat)>::empty());
    } else {
        assert(relocs.take(m).drop_last() =~= relocs.take(m - 1));
        lemma_patch_prefix(st, m - 1);
        let b = patch(st.buf, relocs.take(m - 1), st.syms);
        let r = relocs[m - 1];
        assert(relocs.take(m).last() == r);
        let a = lookup(st.syms, r.0)->0;
        assert(lookup(st.syms, r.0) is Some && a <= MAX_ADDRESS);
        let out = write5(b, r.2 as int, five_digits(a));
        assert(patch(st.buf, relocs.take(m), st.syms) == out);
        lemma_five_digits_narrow(a);
        lemma_five_digits_narrow(0);
        assert(b.subrange(r.2 as int, r.2 + 5 as int) == five_digits(0));
        assert forall|i: int| 0 <= i < out.len() implies char_width(#[trigger] out[i]) == char_width(st.buf[i])
            && ((out[i] == '|') <==> st.buf[i] == '|') && (!in_some_field(relocs, i) ==> out[i] == st.buf[i]) by {
            if r.2 <= i < r.2 + 5 {
                assert(relocs[m - 1].2 <= i < relocs[m - 1].2 + 5);
                assert(in_some_field(relocs, i));
                assert(out[i] == five_digits(a)[i - r.2]);
                assert(b[i] == b.subrange(r.2 as int, r.2 + 5 as int)[i - r.2]);
                assert(st.buf[i] == st.buf.subrange(r.2 as int, r.2 + 5 as int)[i - r.2]);
            } else {
                assert(out[i] == b[i]);
            }
        }
        assert forall|k: int| 0 <= k < relocs.len() implies {
            let rk = #[trigger] relocs[k];
            out.subrange(rk.2 as int, rk.2 + 5 as int) == if k < m {
                five_digits(lookup(st.syms, rk.0)->0)
            } else {
                five_digits(0)
            }
        } by {
            let rk = relocs[k];
            if k == m - 1 {
                assert(out.subrange(rk.2 as int, rk.2 + 5 as int) =~= five_digits(a));
            } else {
                if k < m - 1 {
                    assert(relocs[k].2 + 5 <= relocs[m - 1].2);
                } else {
                    assert(relocs[m - 1].2 + 5 <= relocs[k].2);
                }
                assert(out.subrange(rk.2 as int, rk.2 + 5 as int) =~= b.subrange(rk.2 as int, rk.2 + 5 as int));
            }
        }
    }
}

proof fn lemma_first_failure_prefix(relocs: Seq<(Seq<char>, nat, nat)>, syms: Seq<(Seq<char>, nat)>, m: int)
    requires
        0 <= m <= relocs.len(),
        first_failure(relocs, syms) is None,
    ensures
        first_failure(relocs.take(m), syms) is None,
        forall|k: int| 0 <= k < m ==> (lookup(syms, (#[trigger] relocs[k]).0) matches Some(a) && a <= MAX_ADDRESS),
    decreases relocs.len() - m,
{
    if m < relocs.len() {
        lemma_first_failure_prefix(relocs, syms, m + 1);
        assert(relocs.take(m + 1).drop_last() =~= relocs.take(m));
    } else {
        assert(relocs.take(m) =~= relocs);
        lemma_all_resolve(relocs, syms);
    }
}

proof fn lemma_all_resolve(relocs: Seq<(Seq<char>, nat, nat)>, syms: Seq<(Seq<char>, nat)>)
    requires
        first_failure(relocs, syms) is None,
    ensures
        forall|k: int| 0 <= k < relocs.len() ==> (lookup(syms, (#[trigger] relocs[k]).0) matches Some(a) && a <= MAX_ADDRESS),
    decreases relocs.len(),
{
    if relocs.len() > 0 {
        lemma_all_resolve(relocs.drop_last(), syms);
        assert forall|k: int| 0 <= k < relocs.len() implies (lookup(syms, (#[trigger] relocs[k]).0) matches Some(a) && a <= MAX_ADDRESS) by {
            if k < relocs.len() - 1 {
                assert(relocs.drop_last()[k] == relocs[k]);
            }
        }
    }
}

/// The offset law: in a successful compilation, every placeholder that was
/// written for a forward reference now holds, as five decimal digits, the
/// address recorded for its target bookmark, and stands at the byte offset
/// recorded for it in the output.
pub proof fn law_offsets(doc: Seq<LineView>)
    requires
        assemble(doc) is Ok,
    ensures
        ({
            let st = pass1(doc)->Ok_0;
            let out = assemble(doc)->Ok_0;
            forall|k: int| 0 <= k < st.relocs.len() ==> {
                let r = #[trigger] st.relocs[k];
                &&& lookup(st.syms, r.0) is Some
                &&& r.2 + 5 <= out.len()
                &&& out.subrange(r.2 as int, r.2 + 5 as int) == five_digits(lookup(st.syms, r.0)->0)
                &&& byte_len(out.take(r.2 as int)) == r.1
            }
        }),
{
    let st = pass1(doc)->Ok_0;
    lemma_pass1_wf(doc);
    lemma_first_failure_prefix(st.relocs, st.syms, st.relocs.len() as int);
    lemma_patch_prefix(st, st.relocs.len() as int);
    assert(st.relocs.take(st.relocs.len() as int) =~= st.relocs);
    let out = assemble(doc)->Ok_0;
    assert forall|k: int| 0 <= k < st.relocs.len() implies {
        let r = #[trigger] st.relocs[k];
        byte_len(out.take(r.2 as int)) == r.1
    } by {
        let r = st.relocs[k];
        lemma_byte_len_same_widths(out.take(r.2 as int), st.buf.take(r.2 as int));
    }
}

pub open spec fn has_no_bar(s: Seq<char>) -> bool {
    forall|i: int| 0 <= i < s.len() ==> s[i] != '|'
}

/// No paragraph text, choice text or constant value of `doc` holds a `|`:
/// nothing that reaches the output does.
pub open spec fn no_bars(doc: Seq<LineView>) -> bool {
    forall|i: int| 0 <= i < doc.len() ==> line_no_bar(#[trigger] doc[i])
}

pub open spec fn line_no_bar(l: LineView) -> bool {
    &&& l.kind == LineType::Text ==> has_no_bar(l.text)
    &&& l.kind == LineType::Question ==> has_no_bar(l.key)
    &&& l.kind == LineType::Constant ==> has_no_bar(l.value)
}

/// `out` splits on `|` into non-empty tokens: it neither begins nor ends
/// with a separator, and no two separators stand side by side.
pub open spec fn separated(out: Seq<char>) -> bool {
    out.len() == 0 || {
        &&& out[0] != '|'
        &&& out.last() != '|'
        &&& forall|i: int| 0 <= i < out.len() - 1 ==> !(#[trigger] out[i] == '|' && out[i + 1] == '|')
    }
}

pub open spec fn consts_no_bar(c: Seq<(Seq<char>, Seq<char>)>) -> bool {
    forall|i: int| 0 <= i < c.len() ==> has_no_bar(#[trigger] c[i].1)
}

proof fn lemma_subst_no_bar(s: Seq<char>, c: Seq<(Seq<char>, Seq<char>)>, i: int)
    requires
        has_no_bar(s),
        consts_no_bar(c),
    ensures
        has_no_bar(subst_from(s, c, i)),
    decreases s.len() - i,
{
    if 0 <= i < s.len() {
        let j = crate::text::find_char(s, '}', i + 1);
        if s[i] == '{' && i < j < s.len() && lookup(c, s.subrange(i + 1, j)) is Some {
            crate::writer::lemma_find_key_range(keys(c), s.subrange(i + 1, j));
            lemma_subst_no_bar(s, c, j + 1);
        } else {
            lemma_subst_no_bar(s, c, i + 1);
        }
    }
}

/// Appending a piece free of `|`, after a separator where the buffer is
/// not empty, keeps the buffer separated.
proof fn lemma_separated_append(b: Seq<char>, t: Seq<char>, with_sep: bool)
    requires
        separated(b),
        has_no_bar(t),
        t.len() > 0,
        with_sep ==> b.len() > 0,
        !with_sep ==> b.len() > 0,
    ensures
        separated(b + (if with_sep { seq!['|'] } else { Seq::empty() }) + t),
{
    let n = b + (if with_sep { seq!['|'] } else { Seq::empty() }) + t;
    let m: int = if with_sep { b.len() + 1 as int } else { b.len() as int };
    assert forall|i: int| 0 <= i < n.len() - 1 implies !(#[trigger] n[i] == '|' && n[i + 1] == '|') by {
        if i + 1 < b.len() {
            assert(n[i] == b[i] && n[i + 1] == b[i + 1]);
        } else if i + 1 == b.len() {
            assert(n[i] == b.last());
        } else if i >= m {
            assert(n[i] == t[i - m]);
        } else {
            assert(n[i + 1] == t[0]);
        }
    }
    assert(n.last() == t.last());
}

proof fn lemma_separated_fresh(t: Seq<char>)
    requires
        has_no_bar(t),
        t.len() > 0,
    ensures
        separated(t),
{
    assert(t.last() == t[t.len() - 1]);
}

/// A buffer with a token appended, after its separator where one is due,
/// stays separated.
proof fn lemma_separated_token(b: Seq<char>, t: Seq<char>)
    requires
        separated(b),
        has_no_bar(t),
        t.len() > 0,
    ensures
        separated(b + crate::writer::sep(b) + t),
{
    if b.len() == 0 {
        assert(b + crate::writer::sep(b) + t =~= t);
        lemma_separated_fresh(t);
    } else {
        lemma_separated_append(b, t, true);
    }
}

proof fn lemma_step_separated(st: Asm, l: LineView)
    requires
        separated(st.buf),
        consts_no_bar(st.consts),
        line_no_bar(l),
        st.grouping ==> st.buf.len() > 0,
    ensures
        step(st, l) matches Ok(s2) ==> separated(s2.buf) && consts_no_bar(s2.consts)
            && (s2.grouping ==> s2.buf.len() > 0),
{
    if let Ok(s2) = step(st, l) {
        match l.kind {
            LineType::Text => {
                let t = seq!['P', ';'] + subst(l.text, st.consts);
                lemma_subst_no_bar(l.text, st.consts, 0);
                assert(has_no_bar(t));
                lemma_separated_token(st.buf, t);
                assert(s2.buf =~= st.buf + crate::writer::sep(st.buf) + t);
            },
            LineType::End => {
                lemma_separated_token(st.buf, seq!['E', ';']);
            },
            LineType::Question => {
                lemma_subst_no_bar(l.key, st.consts, 0);
                let a = match lookup(st.syms, l.value) {
                    Some(a) => a,
                    None => 0,
                };
                let body = subst(l.key, st.consts) + seq![';'] + five_digits(a);
                assert(has_no_bar(body));
                if st.grouping {
                    let t = seq![';'] + body;
                    assert(has_no_bar(t));
                    lemma_separated_append(st.buf, t, false);
                    assert(s2.buf =~= st.buf + Seq::<char>::empty() + t);
                } else {
                    let t = seq!['Q', ';'] + body;
                    assert(has_no_bar(t));
                    lemma_separated_token(st.buf, t);
                    assert(s2.buf =~= st.buf + crate::writer::sep(st.buf) + t);
                }
            },
            LineType::Constant => {
                assert forall|i: int| 0 <= i < s2.consts.len() implies has_no_bar(#[trigger] s2.consts[i].1) by {
                    if i < st.consts.len() {
                        assert(s2.consts[i] == st.consts[i]);
                    }
                }
            },
            _ => {},
        }
    }
}

proof fn lemma_pass1_separated(doc: Seq<LineView>)
    requires
        no_bars(doc),
    ensures
        pass1(doc) matches Ok(st) ==> separated(st.buf) && consts_no_bar(st.consts)
            && (st.grouping ==> st.buf.len() > 0),
    decreases doc.len(),
{
    if doc.len() > 0 {
        let p = doc.drop_last();
        assert forall|i: int| 0 <= i < p.len() implies #[trigger] p[i] == doc[i] by {}
        lemma_pass1_separated(p);
        assert(doc[doc.len() - 1] == doc.last());
        if let Ok(st) = pass1(p) {
            lemma_step_separated(st, doc.last());
        }
    }
}

/// The separator law: a compiled output splits on `|` into non-empty
/// tokens, for a document in which no paragraph text, choice text or
/// constant value holds a `|` itself.
pub proof fn law_separated(doc: Seq<LineView>)
    requires
        no_bars(doc),
        assemble(doc) is Ok,
    ensures
        separated(assemble(doc)->Ok_0),
{
    let st = pass1(doc)->Ok_0;
    lemma_pass1_separated(doc);
    lemma_pass1_wf(doc);
    lemma_first_failure_prefix(st.relocs, st.syms, st.relocs.len() as int);
    lemma_patch_prefix(st, st.relocs.len() as int);
    assert(st.relocs.take(st.relocs.len() as int) =~= st.relocs);
    let out = assemble(doc)->Ok_0;
    if out.len() > 0 {
        assert(out[0] == '|' <==> st.buf[0] == '|');
        assert(out.last() == '|' <==> st.buf.last() == '|');
        assert forall|i: int| 0 <= i < out.len() - 1 implies !(#[trigger] out[i] == '|' && out[i + 1] == '|') by {
            assert(out[i] == '|' <==> st.buf[i] == '|');
            assert(out[i + 1] == '|' <==> st.buf[i + 1] == '|');
        }
    }
}

/// `s2` is a later state of the emission pass than `s1`: its buffer and
/// relocation table continue theirs, its new placeholders lie past the
/// old buffer, and every symbol of `s1` keeps its address.
pub open spec fn extends(s1: Asm, s2: Asm) -> bool {
    &&& s1.buf.len() <= s2.buf.len()
    &&& s2.buf.take(s1.buf.len() as int) == s1.buf
    &&& s1.relocs.len() <= s2.relocs.len()
    &&& s2.relocs.take(s1.relocs.len() as int) == s1.relocs
    &&& forall|k: int| s1.relocs.len() <= k < s2.relocs.len() ==> (#[trigger] s2.relocs[k]).2 >= s1.buf.len()
    &&& forall|n: Seq<char>| #![trigger lookup(s2.syms, n)] lookup(s1.syms, n) is Some ==> lookup(s2.syms, n) == lookup(s1.syms, n)
}

proof fn lemma_lookup_push_other<V>(t: Seq<(Seq<char>, V)>, p: (Seq<char>, V), n: Seq<char>)
    requires
        p.0 != n,
    ensures
        lookup(t.push(p), n) == lookup(t, n),
{
    assert(keys(t.push(p)).drop_last() =~= keys(t));
    assert(keys(t.push(p)).last() == p.0);
    crate::writer::lemma_find_key_range(keys(t), n);
    if let Some(i) = find_key(keys(t), n) {
        assert(t.push(p)[i] == t[i]);
    }
}

proof fn lemma_step_extends(st: Asm, l: LineView)
    requires
        step(st, l) is Ok,
    ensures
        extends(st, step(st, l)->Ok_0),
{
    let s2 = step(st, l)->Ok_0;
    assert(s2.buf.take(st.buf.len() as int) =~= st.buf);
    assert(s2.relocs.take(st.relocs.len() as int) =~= st.relocs);
    if l.kind == LineType::Question && lookup(st.syms, l.value) is None {
        assert(st.buf.len() <= question_prefix(st, l).len());
    }
    assert forall|n: Seq<char>| #![trigger lookup(s2.syms, n)] lookup(st.syms, n) is Some implies lookup(s2.syms, n)
        == lookup(st.syms, n) by {
        if l.kind == LineType::Bookmark && lookup(st.syms, l.key) is None {
            let a = if st.buf.len() == 0 { 0 } else { byte_len(st.buf) + 1 };
            lemma_lookup_push_other(st.syms, (l.key, a), n);
        }
    }
}

proof fn lemma_extends_trans(s1: Asm, s2: Asm, s3: Asm)
    requires
        extends(s1, s2),
        extends(s2, s3),
    ensures
        extends(s1, s3),
{
    assert(s3.buf.take(s1.buf.len() as int) =~= s2.buf.take(s1.buf.len() as int));
    assert(s3.relocs.take(s1.relocs.len() as int) =~= s2.relocs.take(s1.relocs.len() as int));
    assert forall|k: int| s1.relocs.len() <= k < s3.relocs.len() implies (#[trigger] s3.relocs[k]).2 >= s1.buf.len() by {
        if k < s2.relocs.len() {
            assert(s3.relocs[k] == s3.relocs.take(s2.relocs.len() as int)[k]);
            assert(s2.relocs[k].2 >= s1.buf.len());
        }
    }
    assert forall|n: Seq<char>| #![trigger lookup(s3.syms, n)] lookup(s1.syms, n) is Some implies lookup(s3.syms, n)
        == lookup(s1.syms, n) by {
        assert(lookup(s2.syms, n) == lookup(s1.syms, n));
    }
}

/// The emission pass succeeds on every prefix of a document on which it
/// succeeds, and a longer prefix extends a shorter one.
proof fn lemma_pass1_extends(doc: Seq<LineView>, i: int, j: int)
    requires
        0 <= i <= j <= doc.len(),
        pass1(doc.take(j)) is Ok,
    ensures
        pass1(doc.take(i)) is Ok,
        extends(pass1(doc.take(i))->Ok_0, pass1(doc.take(j))->Ok_0),
    decreases j - i,
{
    if i == j {
        let s = pass1(doc.take(i))->Ok_0;
        assert(s.buf.take(s.buf.len() as int) =~= s.buf);
        assert(s.relocs.take(s.relocs.len() as int) =~= s.relocs);
    } else {
        assert(doc.take(j).drop_last() =~= doc.take(j - 1));
        lemma_pass1_extends(doc, i, j - 1);
        lemma_step_extends(pass1(doc.take(j - 1))->Ok_0, doc.take(j).last());
        lemma_extends_trans(pass1(doc.take(i))->Ok_0, pass1(doc.take(j - 1))->Ok_0, pass1(doc.take(j))->Ok_0);
    }
}

/// What patching keeps of the final buffer of a successful compilation.
proof fn lemma_output(doc: Seq<LineView>)
    requires
        assemble(doc) is Ok,
    ensures
        ({
            let st = pass1(doc)->Ok_0;
            let out = assemble(doc)->Ok_0;
            &&& placeholders_wf(st)
            &&& out.len() == st.buf.len()
            &&& forall|i: int| 0 <= i < out.len() ==> char_width(#[trigger] out[i]) == char_width(st.buf[i])
            &&& forall|i: int| 0 <= i < out.len() ==> ((#[trigger] out[i] == '|') <==> st.buf[i] == '|')
            &&& forall|i: int| 0 <= i < out.len() && !in_some_field(st.relocs, i) ==> #[trigger] out[i] == st.buf[i]
        }),
{
    let st = pass1(doc)->Ok_0;
    lemma_pass1_wf(doc);
    lemma_first_failure_prefix(st.relocs, st.syms, st.relocs.len() as int);
    lemma_patch_prefix(st, st.relocs.len() as int);
    assert(st.relocs.take(st.relocs.len() as int) =~= st.relocs);
}

/// The offset law for every choice: in a successful compilation, the
/// address field of the choice on line `q` of the document, whether it
/// was written at once for a bookmark already seen or patched later,
/// holds as five decimal digits the address of its target bookmark, and
/// stands where the emission pass wrote it, at the byte offset of
/// everything emitted before it.
#[verifier::rlimit(60)]
pub proof fn law_choice_address(doc: Seq<LineView>, q: int)
    requires
        assemble(doc) is Ok,
        0 <= q < doc.len(),
        doc[q].kind == LineType::Question,
    ensures
        pass1(doc.take(q)) is Ok,
        ({
            let pre = question_prefix(pass1(doc.take(q))->Ok_0, doc[q]);
            let fin = pass1(doc)->Ok_0;
            let out = assemble(doc)->Ok_0;
            &&& lookup(fin.syms, doc[q].value) is Some
            &&& pre.len() + 5 <= out.len()
            &&& out.subrange(pre.len() as int, pre.len() + 5 as int) == five_digits(lookup(fin.syms, doc[q].value)->0)
            &&& byte_len(out.take(pre.len() as int)) == byte_len(pre)
        }),
{
    assert(doc.take(doc.len() as int) =~= doc);
    lemma_pass1_extends(doc, q + 1, doc.len() as int);
    lemma_pass1_extends(doc, q, q + 1);
    assert(doc.take(q + 1).drop_last() =~= doc.take(q));
    assert(doc.take(q + 1).last() == doc[q]);
    let st = pass1(doc.take(q))->Ok_0;
    let l = doc[q];
    let s1 = pass1(doc.take(q + 1))->Ok_0;
    let fin = pass1(doc)->Ok_0;
    let out = assemble(doc)->Ok_0;
    let pre = question_prefix(st, l);
    let n = pre.len() as int;
    lemma_output(doc);
    lemma_pass1_wf(doc.take(q));
    assert(fin.buf.take(s1.buf.len() as int) == s1.buf);
    assert(fin.buf.take(n) =~= pre);
    lemma_byte_len_same_widths(out.take(n), fin.buf.take(n));
    match lookup(st.syms, l.value) {
        Some(a) => {
            assert(lookup(fin.syms, l.value) == Some(a));
            assert(s1.buf == pre + five_digits(a));
            assert forall|i: int| n <= i < n + 5 implies #[trigger] out[i] == fin.buf[i] by {
                assert forall|k: int| 0 <= k < fin.relocs.len() implies !((#[trigger] fin.relocs[k]).2 <= i < fin.relocs[k].2 + 5) by {
                    if k < st.relocs.len() {
                        assert(fin.relocs[k] == fin.relocs.take(s1.relocs.len() as int)[k]);
                        assert(st.relocs[k].2 + 5 <= st.buf.len());
                        assert(st.buf.len() <= n);
                    } else {
                        assert(fin.relocs[k].2 >= s1.buf.len());
                    }
                }
                assert(!in_some_field(fin.relocs, i));
                assert(fin.buf[i] == s1.buf[i]);
            }
            assert(out.subrange(n, n + 5) =~= five_digits(a)) by {
                assert forall|i: int| 0 <= i < 5 implies out.subrange(n, n + 5)[i] == five_digits(a)[i] by {
                    assert(out[n + i] == fin.buf[n + i]);
                    assert(fin.buf[n + i] == s1.buf[n + i]);
                }
            }
        },
        None => {
            let k0 = st.relocs.len() as int;
            assert(s1.relocs[k0] == (l.value, byte_len(pre), pre.len()));
            assert(fin.relocs[k0] == fin.relocs.take(s1.relocs.len() as int)[k0]);
            law_offsets(doc);
            assert(fin.relocs[k0].2 == n);
        },
    }
}

/// After a bookmark that leaves a non-empty buffer of length `n`, the
/// buffer either is still that long, with no group open, or holds a
/// separator at `n`: the next token emitted after the bookmark begins
/// just past it.
pub open spec fn next_token_at(st: Asm, n: int) -> bool {
    ||| st.buf.len() == n && !st.grouping
    ||| st.buf.len() > n && st.buf[n] == '|'
}

proof fn lemma_after_bookmark(doc: Seq<LineView>, b: int, j: int)
    requires
        0 <= b < j <= doc.len(),
        pass1(doc.take(j)) is Ok,
        doc[b].kind == LineType::Bookmark,
        pass1(doc.take(b)) matches Ok(st) && st.buf.len() > 0,
    ensures
        next_token_at(pass1(doc.take(j))->Ok_0, pass1(doc.take(b))->Ok_0.buf.len() as int),
    decreases j - b,
{
    let n = pass1(doc.take(b))->Ok_0.buf.len() as int;
    assert(doc.take(j).drop_last() =~= doc.take(j - 1));
    lemma_pass1_extends(doc, j - 1, j);
    if j == b + 1 {
        assert(doc.take(j).last() == doc[b]);
    } else {
        lemma_after_bookmark(doc, b, j - 1);
        let sp = pass1(doc.take(j - 1))->Ok_0;
        let sj = pass1(doc.take(j))->Ok_0;
        assert(sj.buf.take(sp.buf.len() as int) == sp.buf);
        if sp.buf.len() > n {
            assert(sj.buf[n] == sp.buf[n]);
        } else if sj.buf.len() > n {
            let l = doc.take(j).last();
            assert(sj == step(sp, l)->Ok_0);
            if l.kind == LineType::Question {
                assert(sj.buf[n] == question_prefix(sp, l)[n]);
            } else {
                assert(sj.buf[n] == (sp.buf + crate::writer::sep(sp.buf))[n]);
            }
        }
    }
}

/// Bookmark addresses: in a successful compilation, the bookmark on line
/// `b` of the document, the first of its name, gets as address the byte
/// offset of the first token emitted after it, or of where that token
/// would begin: 0 where nothing was emitted before it, else one past the
/// bytes emitted before it, which in the output are followed by the
/// separator of that token or by the end.
pub proof fn law_bookmark_target(doc: Seq<LineView>, b: int)
    requires
        assemble(doc) is Ok,
        0 <= b < doc.len(),
        doc[b].kind == LineType::Bookmark,
        pass1(doc.take(b)) matches Ok(st) && lookup(st.syms, doc[b].key) is None,
    ensures
        ({
            let before = pass1(doc.take(b))->Ok_0.buf;
            let n = before.len() as int;
            let fin = pass1(doc)->Ok_0;
            let out = assemble(doc)->Ok_0;
            let a = lookup(fin.syms, doc[b].key)->0;
            &&& lookup(fin.syms, doc[b].key) is Some
            &&& n <= out.len()
            &&& byte_len(out.take(n)) == byte_len(before)
            &&& n == 0 ==> a == 0
            &&& n > 0 ==> a == byte_len(before) + 1 && (n == out.len() || out[n] == '|')
        }),
{
    assert(doc.take(doc.len() as int) =~= doc);
    lemma_pass1_extends(doc, b + 1, doc.len() as int);
    lemma_pass1_extends(doc, b, b + 1);
    assert(doc.take(b + 1).drop_last() =~= doc.take(b));
    assert(doc.take(b + 1).last() == doc[b]);
    let st = pass1(doc.take(b))->Ok_0;
    let s1 = pass1(doc.take(b + 1))->Ok_0;
    let fin = pass1(doc)->Ok_0;
    let out = assemble(doc)->Ok_0;
    let n = st.buf.len() as int;
    let a = if n == 0 { 0 } else { byte_len(st.buf) + 1 };
    assert(s1.syms == st.syms.push((doc[b].key, a)));
    assert(keys(s1.syms).drop_last() =~= keys(st.syms));
    assert(keys(s1.syms).last() == doc[b].key);
    assert(lookup(s1.syms, doc[b].key) == Some(a));
    assert(lookup(fin.syms, doc[b].key) == Some(a));
    lemma_output(doc);
    assert(fin.buf.take(n) == st.buf);
    lemma_byte_len_same_widths(out.take(n), fin.buf.take(n));
    if n > 0 {
        lemma_after_bookmark(doc, b, doc.len() as int);
        if n < out.len() {
            assert(out[n] == '|' <==> fin.buf[n] == '|');
        }
    }
}

/// Last definition wins: at line `i` of the document, the constant table
/// gives a name the value of its last definition before `i`, at line `j`,
/// whatever lines stand between them; every `{NAME}` that line `i`
/// substitutes takes that value.
pub proof fn law_last_definition_wins(doc: Seq<LineView>, j: int, i: int)
    requires
        0 <= j < i <= doc.len(),
        pass1(doc.take(i)) is Ok,
        doc[j].kind == LineType::Constant,
        forall|k: int| j < k < i ==> !((#[trigger] doc[k]).kind == LineType::Constant && doc[k].key == doc[j].key),
    ensures
        lookup(pass1(doc.take(i))->Ok_0.consts, doc[j].key) == Some(doc[j].value),
    decreases i - j,
{
    assert(doc.take(i).drop_last() =~= doc.take(i - 1));
    assert(doc.take(i).last() == doc[i - 1]);
    lemma_pass1_extends(doc, i - 1, i);
    let sp = pass1(doc.take(i - 1))->Ok_0;
    let si = pass1(doc.take(i))->Ok_0;
    if i == j + 1 {
        let c = sp.consts.push((doc[j].key, doc[j].value));
        assert(si.consts == c);
        assert(keys(c).last() == doc[j].key);
    } else {
        law_last_definition_wins(doc, j, i - 1);
        let l = doc[i - 1];
        if l.kind == LineType::Constant {
            lemma_lookup_push_other(sp.consts, (l.key, l.value), doc[j].key);
        }
    }
}

/// `ls` joined with line breaks.
pub open spec fn join_lines(ls: Seq<Seq<char>>) -> Seq<char>
    decreases ls.len(),
{
    if ls.len() <= 1 {
        if ls.len() == 0 { Seq::empty() } else { ls[0] }
    } else {
        join_lines(ls.drop_last()) + seq!['\n'] + ls.last()
    }
}

/// Whether the raw line `raw` is a comment or a constant definition.
pub open spec fn zero_width_line(raw: Seq<char>) -> bool {
    classify_spec(raw, 1) matches Some(l) && (l.kind == LineType::Comment || l.kind == LineType::Constant)
}

/// `ls` without its comment and constant lines.
pub open spec fn kept_lines(ls: Seq<Seq<char>>) -> Seq<Seq<char>>
    decreases ls.len(),
{
    if ls.len() == 0 {
        ls
    } else {
        let p = kept_lines(ls.drop_last());
        if zero_width_line(ls.last()) { p } else { p.push(ls.last()) }
    }
}

/// The source text `src` with every comment and constant line deleted.
pub open spec fn without_zero_width_lines(src: Seq<char>) -> Seq<char> {
    join_lines(kept_lines(split_lines(src)))
}

pub open spec fn no_break(s: Seq<char>) -> bool {
    forall|i: int| 0 <= i < s.len() ==> s[i] != '\n'
}

proof fn lemma_split_append(s: Seq<char>, t: Seq<char>)
    requires
        no_break(t),
    ensures
        split_lines(s).len() >= 1,
        split_lines(s + t) == split_lines(s).update(split_lines(s).len() - 1, split_lines(s).last() + t),
    decreases s.len() + t.len(),
{
    lemma_split_len(s);
    if t.len() == 0 {
        assert(s + t =~= s);
        assert(split_lines(s).last() + t =~= split_lines(s).last());
        assert(split_lines(s).update(split_lines(s).len() - 1, split_lines(s).last()) =~= split_lines(s));
    } else {
        let u = t.drop_last();
        assert((s + t).drop_last() =~= s + u);
        assert((s + t).last() == t.last());
        lemma_split_append(s, u);
        assert(t[t.len() - 1] != '\n');
        assert((split_lines(s).last() + u).push(t.last()) =~= split_lines(s).last() + t);
        assert(split_lines(s + u).last() == split_lines(s).last() + u);
        assert(split_lines(s + t) =~= split_lines(s).update(split_lines(s).len() - 1, split_lines(s).last() + t));
    }
}

proof fn lemma_split_len(s: Seq<char>)
    ensures
        split_lines(s).len() >= 1,
    decreases s.len(),
{
    if s.len() > 0 {
        lemma_split_len(s.drop_last());
    }
}

/// Splitting lines that hold no line break, once joined, gives them back.
proof fn lemma_split_join(ls: Seq<Seq<char>>)
    requires
        ls.len() >= 1,
        forall|i: int| 0 <= i < ls.len() ==> no_break(#[trigger] ls[i]),
    ensures
        split_lines(join_lines(ls)) == ls,
    decreases ls.len(),
{
    if ls.len() == 1 {
        lemma_split_append(Seq::empty(), ls[0]);
        assert(Seq::<char>::empty() + ls[0] =~= ls[0]);
        assert(split_lines(Seq::<char>::empty()).update(0, Seq::<char>::empty() + ls[0]) =~= ls);
    } else {
        let p = ls.drop_last();
        assert forall|i: int| 0 <= i < p.len() implies no_break(#[trigger] p[i]) by {
            assert(p[i] == ls[i]);
        }
        lemma_split_join(p);
        let a = join_lines(p) + seq!['\n'];
        assert(a.drop_last() =~= join_lines(p));
        assert(split_lines(a) == p.push(Seq::empty()));
        assert(no_break(ls.last()));
        lemma_split_append(a, ls.last());
        assert(split_lines(a + ls.last()) =~= ls);
    }
}

proof fn lemma_lines_no_break(s: Seq<char>)
    ensures
        forall|i: int| 0 <= i < split_lines(s).len() ==> no_break(#[trigger] split_lines(s)[i]),
    decreases s.len(),
{
    if s.len() > 0 {
        lemma_split_len(s.drop_last());
        lemma_lines_no_break(s.drop_last());
        let p = split_lines(s.drop_last());
        assert forall|i: int| 0 <= i < split_lines(s).len() implies no_break(#[trigger] split_lines(s)[i]) by {
            if s.last() != '\n' && i == p.len() - 1 {
                assert(no_break(p[i]));
                assert(split_lines(s)[i] == p[i].push(s.last()));
            }
        }
    }
}

/// Two documents with the same lines, numbered apart.
pub open spec fn same_but_numbers(d1: Seq<LineView>, d2: Seq<LineView>) -> bool {
    &&& d1.len() == d2.len()
    &&& forall|i: int| 0 <= i < d1.len() ==> (#[trigger] d1[i]).kind == d2[i].kind && d1[i].text == d2[i].text
        && d1[i].key == d2[i].key && d1[i].value == d2[i].value
}

proof fn lemma_renumber_pass1(d1: Seq<LineView>, d2: Seq<LineView>)
    requires
        same_but_numbers(d1, d2),
        pass1(d1) is Ok,
    ensures
        pass1(d2) == pass1(d1),
    decreases d1.len(),
{
    if d1.len() > 0 {
        assert(same_but_numbers(d1.drop_last(), d2.drop_last())) by {
            assert forall|i: int| 0 <= i < d1.len() - 1 implies (#[trigger] d1.drop_last()[i]).kind == d2.drop_last()[i].kind
                && d1.drop_last()[i].text == d2.drop_last()[i].text && d1.drop_last()[i].key == d2.drop_last()[i].key
                && d1.drop_last()[i].value == d2.drop_last()[i].value by {
                assert(d1.drop_last()[i] == d1[i]);
                assert(d2.drop_last()[i] == d2[i]);
            }
        }
        lemma_renumber_pass1(d1.drop_last(), d2.drop_last());
        assert(d1.last() == d1[d1.len() - 1]);
        assert(d2.last() == d2[d2.len() - 1]);
    }
}

/// The number given to a line changes nothing of it but its number.
proof fn lemma_classify_number(raw: Seq<char>, n: nat, m: nat)
    ensures
        classify_spec(raw, n) is Some <==> classify_spec(raw, m) is Some,
        classify_spec(raw, n) is Some ==> ({
            let a = classify_spec(raw, n)->Some_0;
            let b = classify_spec(raw, m)->Some_0;
            a.kind == b.kind && a.text == b.text && a.key == b.key && a.value == b.value
        }),
{
}

proof fn lemma_same_push(d1: Seq<LineView>, d2: Seq<LineView>, x: LineView, y: LineView)
    requires
        same_but_numbers(d1, d2),
        x.kind == y.kind && x.text == y.text && x.key == y.key && x.value == y.value,
    ensures
        same_but_numbers(d1.push(x), d2.push(y)),
{
    assert forall|i: int| 0 <= i < d1.len() + 1 implies (#[trigger] d1.push(x)[i]).kind == d2.push(y)[i].kind
        && d1.push(x)[i].text == d2.push(y)[i].text && d1.push(x)[i].key == d2.push(y)[i].key
        && d1.push(x)[i].value == d2.push(y)[i].value by {
        if i < d1.len() {
            assert(d1.push(x)[i] == d1[i]);
            assert(d2.push(y)[i] == d2[i]);
        }
    }
}

proof fn lemma_classify_kept(ls: Seq<Seq<char>>)
    ensures
        same_but_numbers(classify_all(kept_lines(ls)), visible(classify_all(ls))),
    decreases ls.len(),
{
    if ls.len() > 0 {
        let p = ls.drop_last();
        lemma_classify_kept(p);
        let raw = ls.last();
        let k = kept_lines(p);
        let d = classify_all(ls);
        let dp = classify_all(p);
        let c1 = classify_spec(raw, ls.len());
        lemma_classify_number(raw, ls.len(), 1);
        lemma_classify_number(raw, ls.len(), (k.len() + 1) as nat);
        if let Some(l) = c1 {
            assert(d == dp.push(l));
            assert(d.drop_last() =~= dp);
            assert(d.last() == l);
        } else {
            assert(d == dp);
        }
        if !zero_width_line(raw) {
            assert(kept_lines(ls) == k.push(raw));
            assert(kept_lines(ls).drop_last() =~= k);
            assert(kept_lines(ls).last() == raw);
            let c2 = classify_spec(raw, kept_lines(ls).len());
            if let Some(l) = c1 {
                assert(visible(d) == visible(dp).push(l));
                assert(classify_all(kept_lines(ls)) == classify_all(k).push(c2->Some_0));
                lemma_same_push(classify_all(k), visible(dp), c2->Some_0, l);
            } else {
                assert(classify_all(kept_lines(ls)) == classify_all(k));
            }
        } else {
            assert(kept_lines(ls) == k);
            assert(visible(d) == visible(dp));
        }
    }
}

/// Zero width of comment and constant source lines: deleting every
/// comment and constant line from a source text that compiles leaves the
/// compiled output unchanged, addresses included, where no paragraph or
/// choice uses `{NAME}` for a name that a constant line defines.
pub proof fn law_zero_width_source(src: Seq<char>)
    requires
        compile_spec(src) is Ok,
        no_defined_placeholders(document(src)),
    ensures
        compile_spec(without_zero_width_lines(src)) == compile_spec(src),
{
    let ls = split_lines(src);
    let doc = document(src);
    law_zero_width(doc);
    lemma_lines_no_break(src);
    let k = kept_lines(ls);
    lemma_classify_kept(ls);
    let d2 = document(without_zero_width_lines(src));
    if k.len() == 0 {
        assert(join_lines(k) =~= Seq::<char>::empty());
        let e = Seq::<char>::empty();
        assert(split_lines(e) == seq![e]);
        assert(seq![e].drop_last() =~= Seq::<Seq<char>>::empty());
        assert(crate::text::trim(e) =~= e);
        assert(classify_spec(e, 1) is None);
        assert(classify_all(seq![e]) == classify_all(Seq::<Seq<char>>::empty()));
        assert(d2 =~= classify_all(k));
    } else {
        assert forall|i: int| 0 <= i < k.len() implies no_break(#[trigger] k[i]) by {
            lemma_kept_from(ls, i);
            let j = choose|j: int| 0 <= j < ls.len() && ls[j] == #[trigger] kept_lines(ls)[i];
            assert(no_break(ls[j]));
        }
        lemma_split_join(k);
    }
    assert(d2 == classify_all(k));
    assert(pass1(doc) is Ok);
    assert(pass1(visible(doc)) is Ok);
    lemma_renumber_pass1(visible(doc), d2);
}

proof fn lemma_kept_from(ls: Seq<Seq<char>>, i: int)
    requires
        0 <= i < kept_lines(ls).len(),
    ensures
        exists|j: int| 0 <= j < ls.len() && ls[j] == #[trigger] kept_lines(ls)[i],
    decreases ls.len(),
{
    let p = ls.drop_last();
    if i < kept_lines(p).len() {
        lemma_kept_from(p, i);
        let j = choose|j: int| 0 <= j < p.len() && p[j] == #[trigger] kept_lines(p)[i];
        assert(ls[j] == p[j]);
    } else {
        assert(ls[ls.len() - 1] == ls.last());
    }
}

} // verus!
