//! Character-level text helpers shared by both operations: whitespace
//! trimming and lexicographic (codepoint) ordering of strings.

use vstd::prelude::*;
use vstd::relations::total_ordering;

verus! {

/// The characters with the Unicode `White_Space` property, the set that
/// trimming removes from the ends of a field.
pub open spec fn is_space(c: char) -> bool {
    let u = c as u32;
    (0x09 <= u && u <= 0x0d) || u == 0x20 || u == 0x85 || u == 0xa0 || u == 0x1680 || (0x2000 <= u
        && u <= 0x200a) || u == 0x2028 || u == 0x2029 || u == 0x202f || u == 0x205f || u == 0x3000
}

fn is_space_char(c: char) -> (r: bool)
    ensures
        r == is_space(c),
{
    let u = c as u32;
    (0x09 <= u && u <= 0x0d) || u == 0x20 || u == 0x85 || u == 0xa0 || u == 0x1680 || (0x2000 <= u
        && u <= 0x200a) || u == 0x2028 || u == 0x2029 || u == 0x202f || u == 0x205f || u == 0x3000
}

/// The sequence with leading whitespace removed.
pub open spec fn drop_leading(s: Seq<char>) -> Seq<char>
    decreases s.len(),
{
    if s.len() == 0 {
        s
    } else if is_space(s[0]) {
        drop_leading(s.drop_first())
    } else {
        s
    }
}

/// The sequence with trailing whitespace removed.
pub open spec fn drop_trailing(s: Seq<char>) -> Seq<char>
    decreases s.len(),
{
    if s.len() == 0 {
        s
    } else if is_space(s.last()) {
        drop_trailing(s.drop_last())
    } else {
        s
    }
}

/// A field with surrounding whitespace removed: the meaning of `trim`.
pub open spec fn trimmed(s: Seq<char>) -> Seq<char> {
    drop_trailing(drop_leading(s))
}

proof fn lemma_drop_leading_at(s: Seq<char>, i: int)
    requires
        0 <= i <= s.len(),
        forall|k: int| 0 <= k < i ==> is_space(s[k]),
        i == s.len() || !is_space(s[i]),
    ensures
        drop_leading(s) == s.subrange(i, s.len() as int),
    decreases i,
{
    if i == 0 {
        assert(s.subrange(0, s.len() as int) =~= s);
    } else {
        let t = s.drop_first();
        assert(forall|k: int| 0 <= k < i - 1 ==> is_space(t[k]));
        lemma_drop_leading_at(t, i - 1);
        assert(t.subrange(i - 1, t.len() as int) =~= s.subrange(i, s.len() as int));
    }
}

proof fn lemma_drop_trailing_at(s: Seq<char>, j: int)
    requires
        0 <= j <= s.len(),
        forall|k: int| j <= k < s.len() ==> is_space(s[k]),
        j == 0 || !is_space(s[j - 1]),
    ensures
        drop_trailing(s) == s.subrange(0, j),
    decreases s.len() - j,
{
    if j == s.len() {
        assert(s.subrange(0, j) =~= s);
    } else {
        assert(is_space(s.last()));
        let t = s.drop_last();
        assert(forall|k: int| j <= k < t.len() ==> is_space(t[k]));
        lemma_drop_trailing_at(t, j);
        assert(t.subrange(0, j) =~= s.subrange(0, j));
    }
}

/// Removes leading and trailing whitespace from a string, as `trimmed`
/// describes.
pub fn trim_str(s: &str) -> (r: String)
    ensures
        r@ == trimmed(s@),
{
    let n = s.unicode_len();
    let mut start: usize = 0;
    while start < n && is_space_char(s.get_char(start))
        invariant
            n == s@.len(),
            0 <= start <= n,
            forall|k: int| 0 <= k < start ==> is_space(s@[k]),
        decreases n - start,
    {
        start = start + 1;
    }
    let mut end: usize = n;
    while end > start && is_space_char(s.get_char(end - 1))
        invariant
            n == s@.len(),
            start <= end <= n,
            forall|k: int| end <= k < n ==> is_space(s@[k]),
        decreases end,
    {
        end = end - 1;
    }
    let sub = s.substring_char(start, end);
    proof {
        lemma_drop_leading_at(s@, start as int);
        let m = s@.subrange(start as int, s@.len() as int);
        assert(forall|k: int|
            end - start <= k < m.len() ==> is_space(#[trigger] m[k]) && m[k] == s@[k
                + start as int]);
        lemma_drop_trailing_at(m, end - start);
        assert(m.subrange(0, end - start) =~= s@.subrange(start as int, end as int));
    }
    sub.to_owned()
}

/// Strict lexicographic order on character sequences, by codepoint: the
/// order in which reconciled header names are emitted.
pub open spec fn lex_lt(a: Seq<char>, b: Seq<char>) -> bool
    decreases a.len(),
{
    if b.len() == 0 {
        false
    } else if a.len() == 0 {
        true
    } else if a[0] != b[0] {
        (a[0] as u32) < (b[0] as u32)
    } else {
        lex_lt(a.drop_first(), b.drop_first())
    }
}

/// The reflexive closure of `lex_lt`.
pub open spec fn lex_leq(a: Seq<char>, b: Seq<char>) -> bool {
    lex_lt(a, b) || a == b
}

/// `lex_leq` as a relation value, for use with vstd's sorting vocabulary.
pub open spec fn lex_leq_fn() -> spec_fn(Seq<char>, Seq<char>) -> bool {
    |a: Seq<char>, b: Seq<char>| lex_leq(a, b)
}

pub proof fn lemma_lex_lt_irreflexive(a: Seq<char>)
    ensures
        !lex_lt(a, a),
    decreases a.len(),
{
    if a.len() > 0 {
        lemma_lex_lt_irreflexive(a.drop_first());
    }
}

pub proof fn lemma_lex_lt_connected(a: Seq<char>, b: Seq<char>)
    requires
        a != b,
    ensures
        lex_lt(a, b) || lex_lt(b, a),
    decreases a.len(),
{
    if a.len() == 0 && b.len() == 0 {
        assert(a =~= b);
    } else if a.len() > 0 && b.len() > 0 && a[0] == b[0] {
        if a.drop_first() == b.drop_first() {
            assert(a.drop_first().len() == b.drop_first().len());
            assert(a.len() == b.len());
            assert forall|k: int| 0 <= k < a.len() implies a[k] == b[k] by {
                if k > 0 {
                    assert(a[k] == a.drop_first()[k - 1]);
                    assert(b[k] == b.drop_first()[k - 1]);
                }
            }
            assert(a =~= b);
        } else {
            lemma_lex_lt_connected(a.drop_first(), b.drop_first());
        }
    } else if a.len() > 0 && b.len() > 0 {
        if (a[0] as u32) == (b[0] as u32) {
            vstd::utf8::char_u32_cast(a[0], a[0] as u32);
            vstd::utf8::char_u32_cast(b[0], b[0] as u32);
        }
    }
}

pub proof fn lemma_lex_lt_transitive(a: Seq<char>, b: Seq<char>, c: Seq<char>)
    requires
        lex_lt(a, b),
        lex_lt(b, c),
    ensures
        lex_lt(a, c),
    decreases a.len(),
{
    if a.len() > 0 && b.len() > 0 && c.len() > 0 && a[0] == b[0] && b[0] == c[0] {
        lemma_lex_lt_transitive(a.drop_first(), b.drop_first(), c.drop_first());
    }
}

/// `lex_leq` is a total order on character sequences, so a sorted header is
/// uniquely determined by its set of names.
pub proof fn lemma_lex_leq_total_ordering()
    ensures
        total_ordering(lex_leq_fn()),
{
    let leq = lex_leq_fn();
    assert forall|a: Seq<char>, b: Seq<char>| #[trigger] leq(a, b) && #[trigger] leq(b, a)
        implies a == b by {
        if a != b {
            lemma_lex_lt_transitive(a, b, a);
            lemma_lex_lt_irreflexive(a);
        }
    }
    assert forall|a: Seq<char>, b: Seq<char>, c: Seq<char>| #[trigger] leq(a, b) && #[trigger] leq(
        b,
        c,
    ) implies leq(a, c) by {
        if a != b && b != c {
            lemma_lex_lt_transitive(a, b, c);
        }
    }
    assert forall|a: Seq<char>, b: Seq<char>| true implies #[trigger] leq(a, b) || #[trigger] leq(
        b,
        a,
    ) by {
        if a != b {
            lemma_lex_lt_connected(a, b);
        }
    }
}

/// Compares two strings in the order `lex_lt` describes.
pub fn str_lt(a: &str, b: &str) -> (r: bool)
    ensures
        r == lex_lt(a@, b@),
{
    let an = a.unicode_len();
    let bn = b.unicode_len();
    let mut i: usize = 0;
    proof {
        assert(a@.skip(0) =~= a@);
        assert(b@.skip(0) =~= b@);
    }
    while i < an && i < bn
        invariant
            an == a@.len(),
            bn == b@.len(),
            0 <= i <= an,
            0 <= i <= bn,
            lex_lt(a@, b@) == lex_lt(a@.skip(i as int), b@.skip(i as int)),
        decreases an - i,
    {
        let ca = a.get_char(i);
        let cb = b.get_char(i);
        if ca != cb {
            proof {
                assert(a@.skip(i as int)[0] == ca);
                assert(b@.skip(i as int)[0] == cb);
            }
            return (ca as u32) < (cb as u32);
        }
        proof {
            let ai = a@.skip(i as int);
            let bi = b@.skip(i as int);
            assert(ai[0] == ca && bi[0] == cb);
            assert(ai.drop_first() =~= a@.skip(i as int + 1));
            assert(bi.drop_first() =~= b@.skip(i as int + 1));
        }
        i = i + 1;
    }
    proof {
        if i == bn {
            assert(b@.skip(i as int).len() == 0);
        } else {
            assert(a@.skip(i as int).len() == 0 && b@.skip(i as int).len() > 0);
        }
    }
    an < bn
}

/// A run of `n` space characters.
pub open spec fn spaces(n: nat) -> Seq<char> {
    Seq::new(n, |i: int| ' ')
}

/// Builds a string of `n` spaces.
pub fn make_spaces(n: usize) -> (r: String)
    ensures
        r@ == spaces(n as nat),
{
    let mut r = String::new();
    let mut i: usize = 0;
    proof {
        assert(r@ =~= spaces(0));
    }
    while i < n
        invariant
            0 <= i <= n,
            r@ == spaces(i as nat),
        decreases n - i,
    {
        r.append(" ");
        proof {
            reveal_strlit(" ");
            assert(r@ =~= spaces((i + 1) as nat));
        }
        i = i + 1;
    }
    r
}

} // verus!
