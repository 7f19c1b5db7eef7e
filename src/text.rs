//! Character-level helpers shared by the classifier and the assembler.
use vstd::prelude::*;

verus! {

/// Unicode `White_Space`, the set that `str::trim` removes.
pub open spec fn is_ws(c: char) -> bool {
    let u = c as u32;
    (0x09 <= u && u <= 0x0D) || u == 0x20 || u == 0x85 || u == 0xA0 || u == 0x1680
        || (0x2000 <= u && u <= 0x200A) || u == 0x2028 || u == 0x2029 || u == 0x202F
        || u == 0x205F || u == 0x3000
}

/// The characters removed around a bookmark name: `=` and the space.
pub open spec fn is_mark(c: char) -> bool {
    c == '=' || c == ' '
}

/// The trimming predicate: marks when `m`, white space otherwise.
pub open spec fn trim_pred(m: bool, c: char) -> bool {
    if m { is_mark(c) } else { is_ws(c) }
}

/// First index in `lo..hi` whose character is not trimmed, or `hi`.
pub open spec fn skip_front(s: Seq<char>, lo: int, hi: int, m: bool) -> int
    decreases hi - lo,
{
    if lo >= hi {
        hi
    } else if trim_pred(m, s[lo]) {
        skip_front(s, lo + 1, hi, m)
    } else {
        lo
    }
}

/// One past the last index in `lo..hi` whose character is not trimmed, or `lo`.
pub open spec fn skip_back(s: Seq<char>, lo: int, hi: int, m: bool) -> int
    decreases hi - lo,
{
    if lo >= hi {
        lo
    } else if trim_pred(m, s[hi - 1]) {
        skip_back(s, lo, hi - 1, m)
    } else {
        hi
    }
}

/// `s[lo..hi]` with trimmed characters removed from both ends.
pub open spec fn trim_in(s: Seq<char>, lo: int, hi: int, m: bool) -> Seq<char> {
    let a = skip_front(s, lo, hi, m);
    s.subrange(a, skip_back(s, a, hi, m))
}

/// `s` with white space removed from both ends.
pub open spec fn trim(s: Seq<char>) -> Seq<char> {
    trim_in(s, 0, s.len() as int, false)
}

/// First index `>= from` holding `c`, or `s.len()`.
pub open spec fn find_char(s: Seq<char>, c: char, from: int) -> int
    decreases s.len() - from,
{
    if from >= s.len() {
        s.len() as int
    } else if s[from] == c {
        from
    } else {
        find_char(s, c, from + 1)
    }
}

/// Number of bytes of the UTF-8 encoding of `c`.
pub open spec fn char_width(c: char) -> nat {
    let u = c as u32;
    if u < 0x80 {
        1
    } else if u < 0x800 {
        2
    } else if u < 0x10000 {
        3
    } else {
        4
    }
}

/// Number of bytes of the UTF-8 encoding of `s`.
pub open spec fn byte_len(s: Seq<char>) -> nat
    decreases s.len(),
{
    if s.len() == 0 {
        0
    } else {
        byte_len(s.drop_last()) + char_width(s.last())
    }
}

pub proof fn lemma_byte_len_concat(s: Seq<char>, t: Seq<char>)
    ensures
        byte_len(s + t) == byte_len(s) + byte_len(t),
    decreases t.len(),
{
    if t.len() == 0 {
        assert(s + t =~= s);
    } else {
        assert((s + t).drop_last() =~= s + t.drop_last());
        lemma_byte_len_concat(s, t.drop_last());
    }
}

/// `byte_len` agrees with the length of vstd's UTF-8 encoding.
pub proof fn lemma_byte_len_utf8(s: Seq<char>)
    ensures
        byte_len(s) == vstd::utf8::encode_utf8(s).len(),
    decreases s.len(),
{
    if s.len() > 0 {
        let c = s[0];
        vstd::utf8::char_is_scalar(c);
        assert(seq![c] + s.drop_first() =~= s);
        lemma_byte_len_concat(seq![c], s.drop_first());
        assert(seq![c].drop_last() =~= Seq::<char>::empty());
        assert(byte_len(Seq::<char>::empty()) == 0);
        assert(byte_len(seq![c]) == char_width(c));
        lemma_byte_len_utf8(s.drop_first());
        let u = c as u32;
        assert(vstd::utf8::is_scalar(u));
        assert(vstd::utf8::encode_scalar(u).len() == char_width(c));
        assert(vstd::utf8::encode_utf8(s) == vstd::utf8::encode_scalar(u) + vstd::utf8::encode_utf8(s.drop_first()));
    }
}

/// Decimal digit `d` as a character.
pub open spec fn digit_char(d: int) -> char {
    if d == 0 { '0' } else if d == 1 { '1' } else if d == 2 { '2' } else if d == 3 { '3' }
    else if d == 4 { '4' } else if d == 5 { '5' } else if d == 6 { '6' } else if d == 7 { '7' }
    else if d == 8 { '8' } else { '9' }
}

/// `a` as five zero-padded decimal digits.
pub open spec fn five_digits(a: nat) -> Seq<char> {
    seq![
        digit_char((a / 10000) as int % 10),
        digit_char((a / 1000) as int % 10),
        digit_char((a / 100) as int % 10),
        digit_char((a / 10) as int % 10),
        digit_char(a as int % 10),
    ]
}

/// The largest value that five decimal digits hold.
pub const MAX_ADDRESS: usize = 99999;

pub fn is_whitespace(c: char) -> (r: bool)
    ensures
        r == is_ws(c),
{
    let u = c as u32;
    (0x09 <= u && u <= 0x0D) || u == 0x20 || u == 0x85 || u == 0xA0 || u == 0x1680
        || (0x2000 <= u && u <= 0x200A) || u == 0x2028 || u == 0x2029 || u == 0x202F
        || u == 0x205F || u == 0x3000
}

fn trimmed_char(m: bool, c: char) -> (r: bool)
    ensures
        r == trim_pred(m, c),
{
    if m {
        c == '=' || c == ' '
    } else {
        is_whitespace(c)
    }
}

/// Bounds of `s[lo..hi]` trimmed on both ends.
pub fn trim_bounds(s: &Vec<char>, lo: usize, hi: usize, m: bool) -> (r: (usize, usize))
    requires
        lo <= hi <= s.len(),
    ensures
        r.0 == skip_front(s@, lo as int, hi as int, m),
        r.1 == skip_back(s@, r.0 as int, hi as int, m),
        lo <= r.0 <= r.1 <= hi,
{
    let mut a = lo;
    while a < hi && trimmed_char(m, s[a])
        invariant
            lo <= a <= hi <= s.len(),
            skip_front(s@, lo as int, hi as int, m) == skip_front(s@, a as int, hi as int, m),
        decreases hi - a,
    {
        a = a + 1;
    }
    let mut b = hi;
    while b > a && trimmed_char(m, s[b - 1])
        invariant
            a <= b <= hi <= s.len(),
            skip_back(s@, a as int, hi as int, m) == skip_back(s@, a as int, b as int, m),
        decreases b,
    {
        b = b - 1;
    }
    (a, b)
}

/// Copy of `s[lo..hi]`.
pub fn slice(s: &Vec<char>, lo: usize, hi: usize) -> (r: Vec<char>)
    requires
        lo <= hi <= s.len(),
    ensures
        r@ == s@.subrange(lo as int, hi as int),
{
    let mut r: Vec<char> = Vec::new();
    let mut i = lo;
    while i < hi
        invariant
            lo <= i <= hi <= s.len(),
            r@ == s@.subrange(lo as int, i as int),
        decreases hi - i,
    {
        r.push(s[i]);
        i = i + 1;
    }
    r
}

/// Copy of `s[lo..hi]` trimmed on both ends.
pub fn trimmed_slice(s: &Vec<char>, lo: usize, hi: usize, m: bool) -> (r: Vec<char>)
    requires
        lo <= hi <= s.len(),
    ensures
        r@ == trim_in(s@, lo as int, hi as int, m),
{
    let (a, b) = trim_bounds(s, lo, hi, m);
    slice(s, a, b)
}

/// First index `>= from` holding `c`, or `s.len()`.
pub fn find(s: &Vec<char>, c: char, from: usize) -> (r: usize)
    requires
        from <= s.len(),
    ensures
        r == find_char(s@, c, from as int),
        from <= r <= s.len(),
{
    let mut i = from;
    while i < s.len() && s[i] != c
        invariant
            from <= i <= s.len(),
            find_char(s@, c, from as int) == find_char(s@, c, i as int),
        decreases s.len() - i,
    {
        i = i + 1;
    }
    i
}

/// Whether `p` occurs in `s` at index `i`.
pub fn has_at(s: &Vec<char>, i: usize, p: &Vec<char>) -> (r: bool)
    requires
        i <= s.len(),
    ensures
        r == (i + p.len() <= s.len() && s@.subrange(i as int, i + p.len()) == p@),
{
    if p.len() > s.len() - i {
        return false;
    }
    let mut k: usize = 0;
    while k < p.len()
        invariant
            k <= p.len(),
            i + p.len() <= s.len(),
            s@.subrange(i as int, i + k) == p@.subrange(0, k as int),
        decreases p.len() - k,
    {
        if s[i + k] != p[k] {
            assert(s@.subrange(i as int, i + p.len())[k as int] != p@[k as int]);
            return false;
        }
        assert(s@.subrange(i as int, i + k + 1) =~= p@.subrange(0, k + 1));
        k = k + 1;
    }
    assert(p@.subrange(0, k as int) =~= p@);
    true
}

/// Whether `a` and `b` hold the same characters.
pub fn same(a: &Vec<char>, b: &Vec<char>) -> (r: bool)
    ensures
        r == (a@ == b@),
{
    if a.len() != b.len() {
        return false;
    }
    let r = has_at(a, 0, b);
    assert(a@.subrange(0, b.len() as int) =~= a@);
    r
}

/// The characters of `s`.
pub fn chars_of(s: &str) -> (r: Vec<char>)
    ensures
        r@ == s@,
{
    let mut v: Vec<char> = Vec::new();
    for c in it: s.chars()
        invariant
            it.seq() == s@,
            v@ == it.seq().take(it.index() as int),
    {
        v.push(c);
    }
    v
}

/// Appends `p` to `v`.
pub fn extend(v: &mut Vec<char>, p: &Vec<char>)
    ensures
        final(v)@ == old(v)@ + p@,
{
    let ghost v0 = v@;
    let mut k: usize = 0;
    while k < p.len()
        invariant
            k <= p.len(),
            v0 == old(v)@,
            v@ == v0 + p@.take(k as int),
        decreases p.len() - k,
    {
        v.push(p[k]);
        k = k + 1;
        assert(v0 + p@.take(k as int) =~= (v0 + p@.take(k - 1)).push(p@[k - 1]));
    }
    assert(p@.take(k as int) =~= p@);
}

/// Relies on `String`'s `FromIterator<&char>`: the string of the given characters.
#[verifier::external_body]
pub fn string_of(v: &Vec<char>) -> (r: String)
    ensures
        r@ == v@,
{
    v.iter().collect()
}

/// Number of bytes of the UTF-8 encoding of `c`.
pub fn width(c: char) -> (r: usize)
    ensures
        r == char_width(c),
{
    let u = c as u32;
    if u < 0x80 {
        1
    } else if u < 0x800 {
        2
    } else if u < 0x10000 {
        3
    } else {
        4
    }
}

fn digit(d: usize) -> (r: char)
    requires
        d < 10,
    ensures
        r == digit_char(d as int),
{
    if d == 0 { '0' } else if d == 1 { '1' } else if d == 2 { '2' } else if d == 3 { '3' }
    else if d == 4 { '4' } else if d == 5 { '5' } else if d == 6 { '6' } else if d == 7 { '7' }
    else if d == 8 { '8' } else { '9' }
}

/// `n` in decimal, without leading zeros.
pub open spec fn decimal(n: nat) -> Seq<char>
    decreases n,
{
    if n < 10 {
        seq![digit_char(n as int)]
    } else {
        decimal(n / 10).push(digit_char((n % 10) as int))
    }
}

/// `n` in decimal, without leading zeros.
pub fn format_decimal(n: usize) -> (r: Vec<char>)
    ensures
        r@ == decimal(n as nat),
    decreases n,
{
    if n < 10 {
        let r = vec![digit(n)];
        assert(r@ =~= decimal(n as nat));
        r
    } else {
        let mut r = format_decimal(n / 10);
        r.push(digit(n % 10));
        r
    }
}

/// `a` as five zero-padded decimal digits.
pub fn format_address(a: usize) -> (r: Vec<char>)
    requires
        a <= MAX_ADDRESS,
    ensures
        r@ == five_digits(a as nat),
{
    let r = vec![digit(a / 10000 % 10), digit(a / 1000 % 10), digit(a / 100 % 10), digit(a / 10 % 10), digit(a % 10)];
    assert(r@ =~= five_digits(a as nat));
    r
}

} // verus!
