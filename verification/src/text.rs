//! Character and byte level helpers on strings.
//!
//! Names are compared the way Rust compares `str` values: lexicographically
//! on their UTF-8 bytes.
use vstd::prelude::*;

verus! {

/// The UTF-8 encoding of a character sequence.
pub open spec fn utf8(s: Seq<char>) -> Seq<u8> {
    vstd::utf8::encode_utf8(s)
}

/// Lexicographic "less than or equal" on byte sequences, as `<=` on `[u8]`.
pub open spec fn lex_le(a: Seq<u8>, b: Seq<u8>) -> bool
    decreases a.len(),
{
    if a.len() == 0 {
        true
    } else if b.len() == 0 {
        false
    } else if a[0] < b[0] {
        true
    } else if a[0] > b[0] {
        false
    } else {
        lex_le(a.drop_first(), b.drop_first())
    }
}

/// Strict lexicographic order on byte sequences.
pub open spec fn lex_lt(a: Seq<u8>, b: Seq<u8>) -> bool {
    !lex_le(b, a)
}

/// `p` occurs in `t` as a contiguous block.
pub open spec fn occurs_in(p: Seq<u8>, t: Seq<u8>) -> bool {
    exists|i: int| 0 <= i && i + p.len() <= t.len() && #[trigger] t.subrange(i, i + p.len()) == p
}

/// ASCII lowercase of one byte.
pub open spec fn ascii_lower(c: u8) -> u8 {
    if 65 <= c <= 90 {
        (c + 32) as u8
    } else {
        c
    }
}

/// Equality of two byte strings up to ASCII case.
pub open spec fn eq_ascii_nocase(a: Seq<u8>, b: Seq<u8>) -> bool {
    a.len() == b.len() && forall|i: int| 0 <= i < a.len() ==> ascii_lower(#[trigger] a[i]) == ascii_lower(b[i])
}

/// Every byte sequence is lexicographically comparable with every other.
pub proof fn lemma_lex_total(a: Seq<u8>, b: Seq<u8>)
    ensures
        lex_le(a, b) || lex_le(b, a),
    decreases a.len(),
{
    if a.len() > 0 && b.len() > 0 && a[0] == b[0] {
        lemma_lex_total(a.drop_first(), b.drop_first());
    }
}

/// Lexicographic order is transitive.
pub proof fn lemma_lex_trans(a: Seq<u8>, b: Seq<u8>, c: Seq<u8>)
    requires
        lex_le(a, b),
        lex_le(b, c),
    ensures
        lex_le(a, c),
    decreases a.len(),
{
    if a.len() > 0 && b.len() > 0 && c.len() > 0 && a[0] == b[0] && b[0] == c[0] {
        lemma_lex_trans(a.drop_first(), b.drop_first(), c.drop_first());
    }
}

/// Lexicographic order is antisymmetric.
pub proof fn lemma_lex_antisym(a: Seq<u8>, b: Seq<u8>)
    requires
        lex_le(a, b),
        lex_le(b, a),
    ensures
        a == b,
    decreases a.len(),
{
    if a.len() > 0 && b.len() > 0 {
        lemma_lex_antisym(a.drop_first(), b.drop_first());
        assert(a =~= seq![a[0]] + a.drop_first());
        assert(b =~= seq![b[0]] + b.drop_first());
    }
}

/// A prefix of a sequence is at most that sequence.
pub proof fn lemma_prefix_le(q: Seq<u8>, a: Seq<u8>)
    requires
        q.is_prefix_of(a),
    ensures
        lex_le(q, a),
    decreases q.len(),
{
    if q.len() > 0 {
        assert(q[0] == a[0]);
        assert(q.drop_first().is_prefix_of(a.drop_first())) by {
            assert(q.drop_first() =~= a.drop_first().subrange(0, q.len() - 1));
        }
        lemma_prefix_le(q.drop_first(), a.drop_first());
    }
}

/// A sequence that lies between two sequences beginning with `q` begins
/// with `q` too.
pub proof fn lemma_prefix_between(q: Seq<u8>, a: Seq<u8>, b: Seq<u8>, c: Seq<u8>)
    requires
        q.is_prefix_of(a),
        q.is_prefix_of(c),
        lex_le(a, b),
        lex_le(b, c),
    ensures
        q.is_prefix_of(b),
    decreases q.len(),
{
    if q.len() > 0 {
        assert(a[0] == q[0] && c[0] == q[0]);
        assert(b.len() > 0);
        assert(b[0] == q[0]);
        assert(q.drop_first().is_prefix_of(a.drop_first())) by {
            assert(q.drop_first() =~= a.drop_first().subrange(0, q.len() - 1));
        }
        assert(q.drop_first().is_prefix_of(c.drop_first())) by {
            assert(q.drop_first() =~= c.drop_first().subrange(0, q.len() - 1));
        }
        lemma_prefix_between(q.drop_first(), a.drop_first(), b.drop_first(), c.drop_first());
        assert(q =~= b.subrange(0, q.len() as int)) by {
            assert forall|k: int| 0 <= k < q.len() implies q[k] == b[k] by {
                if k > 0 {
                    assert(q.drop_first()[k - 1] == b.drop_first()[k - 1]);
                }
            }
        }
    }
}

/// Comparing two sequences that agree on a prefix reduces to comparing what follows.
proof fn lemma_lex_skip(a: Seq<u8>, b: Seq<u8>, i: int)
    requires
        0 <= i <= a.len(),
        i <= b.len(),
        a.take(i) == b.take(i),
    ensures
        lex_le(a, b) == lex_le(a.skip(i), b.skip(i)),
    decreases i,
{
    if i > 0 {
        assert(a[0] == a.take(i)[0]);
        assert(b[0] == b.take(i)[0]);
        assert(a.drop_first().take(i - 1) =~= a.take(i).drop_first());
        assert(b.drop_first().take(i - 1) =~= b.take(i).drop_first());
        lemma_lex_skip(a.drop_first(), b.drop_first(), i - 1);
        assert(a.drop_first().skip(i - 1) =~= a.skip(i));
        assert(b.drop_first().skip(i - 1) =~= b.skip(i));
    } else {
        assert(a.skip(0) =~= a);
        assert(b.skip(0) =~= b);
    }
}

/// Lexicographic comparison of byte strings: `a <= b`.
pub fn bytes_le(a: &[u8], b: &[u8]) -> (r: bool)
    ensures
        r == lex_le(a@, b@),
{
    let mut i: usize = 0;
    while i < a.len() && i < b.len() && a[i] == b[i]
        invariant
            i <= a.len(),
            i <= b.len(),
            a@.take(i as int) == b@.take(i as int),
        decreases a.len() - i,
    {
        assert(a@.take(i + 1) =~= a@.take(i as int).push(a@[i as int]));
        assert(b@.take(i + 1) =~= b@.take(i as int).push(b@[i as int]));
        i = i + 1;
    }
    proof {
        lemma_lex_skip(a@, b@, i as int);
    }
    if i == a.len() {
        true
    } else if i == b.len() {
        false
    } else {
        a[i] < b[i]
    }
}

/// Whether `t` begins with `p`, as `str::starts_with` on the two byte strings.
pub fn bytes_start_with(t: &[u8], p: &[u8]) -> (r: bool)
    ensures
        r == p@.is_prefix_of(t@),
{
    if p.len() > t.len() {
        return false;
    }
    let mut i: usize = 0;
    while i < p.len()
        invariant
            p.len() <= t.len(),
            i <= p.len(),
            forall|k: int| 0 <= k < i ==> p@[k] == t@[k],
        decreases p.len() - i,
    {
        if p[i] != t[i] {
            return false;
        }
        i = i + 1;
    }
    assert(p@ =~= t@.subrange(0, p@.len() as int));
    true
}

/// Whether `p` occurs at position `at` of `t`.
fn bytes_match_at(t: &[u8], p: &[u8], at: usize) -> (r: bool)
    requires
        at + p.len() <= t.len(),
    ensures
        r == (t@.subrange(at as int, at + p.len()) == p@),
{
    let mut i: usize = 0;
    while i < p.len()
        invariant
            at + p.len() <= t.len(),
            i <= p.len(),
            forall|k: int| 0 <= k < i ==> p@[k] == t@[at + k],
        decreases p.len() - i,
    {
        if p[i] != t[at + i] {
            assert(t@.subrange(at as int, at + p.len())[i as int] != p@[i as int]);
            return false;
        }
        i = i + 1;
    }
    assert(t@.subrange(at as int, at + p.len()) =~= p@);
    true
}

/// Whether `p` occurs somewhere in `t`, as `str::contains` on the two byte strings.
pub fn bytes_contain(t: &[u8], p: &[u8]) -> (r: bool)
    ensures
        r == occurs_in(p@, t@),
{
    if p.len() > t.len() {
        return false;
    }
    let last = t.len() - p.len();
    let mut at: usize = 0;
    while at <= last
        invariant
            last == t.len() - p.len(),
            p.len() <= t.len(),
            at <= last + 1,
            forall|i: int| 0 <= i < at ==> #[trigger] t@.subrange(i, i + p.len()) != p@,
        decreases last + 1 - at,
    {
        if bytes_match_at(t, p, at) {
            return true;
        }
        if at == last {
            return false;
        }
        at = at + 1;
    }
    false
}

/// Whether `t` ends with `p`, as `ends_with` on the two byte strings.
pub fn bytes_end_with(t: &[u8], p: &[u8]) -> (r: bool)
    ensures
        r == p@.is_suffix_of(t@),
{
    if p.len() > t.len() {
        return false;
    }
    let r = bytes_match_at(t, p, t.len() - p.len());
    proof {
        if r {
            assert(p@ =~= t@.subrange(t@.len() - p@.len(), t@.len() as int));
        }
    }
    r
}

/// ASCII lowercase of one byte.
fn lower_byte(c: u8) -> (r: u8)
    ensures
        r == ascii_lower(c),
{
    if 65 <= c && c <= 90 {
        c + 32
    } else {
        c
    }
}

/// ASCII case-insensitive equality, as `str::eq_ignore_ascii_case`.
pub fn bytes_eq_ignore_ascii_case(a: &[u8], b: &[u8]) -> (r: bool)
    ensures
        r == eq_ascii_nocase(a@, b@),
{
    if a.len() != b.len() {
        return false;
    }
    let mut i: usize = 0;
    while i < a.len()
        invariant
            a.len() == b.len(),
            i <= a.len(),
            forall|k: int| 0 <= k < i ==> ascii_lower(#[trigger] a@[k]) == ascii_lower(b@[k]),
        decreases a.len() - i,
    {
        if lower_byte(a[i]) != lower_byte(b[i]) {
            return false;
        }
        i = i + 1;
    }
    true
}

/// The characters of `s`, in order.
pub fn chars_of(s: &str) -> (r: Vec<char>)
    ensures
        r@ == s@,
{
    let mut out: Vec<char> = Vec::new();
    for c in it: s.chars()
        invariant
            out@ == it.seq().take(it.index() as int),
            it.seq() == s@,
    {
        out.push(c);
    }
    out
}

/// What `str::to_lowercase` returns for a string with these characters.
pub uninterp spec fn spec_lowercase(s: Seq<char>) -> Seq<char>;

/// The character is ASCII.
pub open spec fn is_ascii_char(c: char) -> bool {
    (c as u32) < 128
}

/// ASCII lowercase of one character: `A`..`Z` become `a`..`z`.
pub open spec fn ascii_lower_char(c: char) -> char {
    if 'A' <= c && c <= 'Z' {
        ((c as u32) + 32) as char
    } else {
        c
    }
}

/// Calls `str::to_lowercase`. The contract claims that the result is a
/// function of the characters of `s`, named `spec_lowercase`, and that on
/// ASCII text it maps `A`..`Z` to `a`..`z` and keeps every other character
/// (the Unicode lowercase mapping of ASCII); the mapping of other
/// characters is left unstated.
#[verifier::external_body]
pub(crate) fn to_lowercase(s: &str) -> (r: String)
    ensures
        r@ == spec_lowercase(s@),
        (forall|i: int| 0 <= i < s@.len() ==> is_ascii_char(#[trigger] s@[i])) ==> r@ == Seq::new(
            s@.len(),
            |i: int| ascii_lower_char(s@[i]),
        ),
{
    s.to_lowercase()
}

/// Whether two strings hold the same characters.
pub fn same_text(a: &str, b: &str) -> (r: bool)
    ensures
        r == (a@ == b@),
{
    let x = a.to_owned();
    let y = b.to_owned();
    x == y
}

} // verus!
