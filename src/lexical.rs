//! Byte-wise comparison of terms.
use vstd::prelude::*;

verus! {

/// Length of the longest common prefix of `a` and `b`.
pub open spec fn lcp(a: Seq<u8>, b: Seq<u8>) -> nat
    decreases a.len(),
{
    if a.len() == 0 || b.len() == 0 || a[0] != b[0] {
        0
    } else {
        1 + lcp(a.drop_first(), b.drop_first())
    }
}

/// `a` comes strictly before `b` in lexicographic byte order.
pub open spec fn lex_lt(a: Seq<u8>, b: Seq<u8>) -> bool {
    let n = lcp(a, b) as int;
    (n == a.len() && n < b.len()) || (n < a.len() && n < b.len() && a[n] < b[n])
}

/// What the longest common prefix is: the bytes agree up to it, and
/// right after it one side ends or the two differ.
pub proof fn lemma_lcp(a: Seq<u8>, b: Seq<u8>)
    ensures
        lcp(a, b) <= a.len(),
        lcp(a, b) <= b.len(),
        forall|j: int| 0 <= j < lcp(a, b) ==> a[j] == b[j],
        lcp(a, b) == a.len() || lcp(a, b) == b.len() || a[lcp(a, b) as int] != b[lcp(
            a,
            b,
        ) as int],
    decreases a.len(),
{
    if a.len() == 0 || b.len() == 0 || a[0] != b[0] {
    } else {
        lemma_lcp(a.drop_first(), b.drop_first());
        assert forall|j: int| 0 <= j < lcp(a, b) implies a[j] == b[j] by {
            if j > 0 {
                assert(a[j] == a.drop_first()[j - 1]);
                assert(b[j] == b.drop_first()[j - 1]);
            }
        }
    }
}

/// Any prefix on which the two agree is no longer than the longest.
pub proof fn lemma_lcp_maximal(a: Seq<u8>, b: Seq<u8>, n: int)
    requires
        0 <= n <= a.len(),
        n <= b.len(),
        forall|j: int| 0 <= j < n ==> a[j] == b[j],
        n == a.len() || n == b.len() || a[n] != b[n],
    ensures
        lcp(a, b) == n,
    decreases a.len(),
{
    if a.len() == 0 || b.len() == 0 || a[0] != b[0] {
        if n > 0 {
            assert(a[0] == b[0]);
        }
    } else {
        if n == 0 {
            assert(a[0] != b[0]);
        } else {
            assert forall|j: int| 0 <= j < n - 1 implies a.drop_first()[j] == b.drop_first()[j] by {
                assert(a[j + 1] == b[j + 1]);
            }
            lemma_lcp_maximal(a.drop_first(), b.drop_first(), n - 1);
        }
    }
}

/// The order compares first bytes, and on a tie the rest.
pub proof fn lemma_lex_unfold(a: Seq<u8>, b: Seq<u8>)
    ensures
        lex_lt(a, b) == ((a.len() == 0 && b.len() > 0) || (a.len() > 0 && b.len() > 0 && (a[0]
            < b[0] || (a[0] == b[0] && lex_lt(a.drop_first(), b.drop_first()))))),
{
    if a.len() > 0 && b.len() > 0 && a[0] == b[0] {
        let n = lcp(a.drop_first(), b.drop_first()) as int;
        assert(lcp(a, b) == n + 1);
        if n < a.len() - 1 {
            assert(a[n + 1] == a.drop_first()[n]);
        }
        if n < b.len() - 1 {
            assert(b[n + 1] == b.drop_first()[n]);
        }
    }
}

/// The order is transitive.
pub proof fn lemma_lex_trans(a: Seq<u8>, b: Seq<u8>, c: Seq<u8>)
    requires
        lex_lt(a, b),
        lex_lt(b, c),
    ensures
        lex_lt(a, c),
    decreases a.len(),
{
    lemma_lex_unfold(a, b);
    lemma_lex_unfold(b, c);
    lemma_lex_unfold(a, c);
    if a.len() > 0 && a[0] == b[0] && b[0] == c[0] {
        lemma_lex_trans(a.drop_first(), b.drop_first(), c.drop_first());
    }
}

/// Of two different byte strings, one comes before the other; none comes
/// before itself, and no two come before each other.
pub proof fn lemma_lex_total(a: Seq<u8>, b: Seq<u8>)
    ensures
        a != b ==> lex_lt(a, b) || lex_lt(b, a),
        !(lex_lt(a, b) && lex_lt(b, a)),
        !lex_lt(a, a),
    decreases a.len(),
{
    lemma_lex_unfold(a, b);
    lemma_lex_unfold(b, a);
    lemma_lex_unfold(a, a);
    if a.len() > 0 && b.len() > 0 {
        lemma_lex_total(a.drop_first(), b.drop_first());
        lemma_lex_total(a.drop_first(), a.drop_first());
        if a[0] == b[0] && a.drop_first() == b.drop_first() {
            assert(a =~= seq![a[0]] + a.drop_first());
            assert(b =~= seq![b[0]] + b.drop_first());
        }
    } else if a.len() == 0 && b.len() == 0 {
        assert(a =~= b);
    }
}

/// Length of the longest common prefix of two byte strings.
pub fn count_same(f: &[u8], s: &[u8]) -> (r: usize)
    ensures
        r == lcp(f@, s@),
{
    let mut i: usize = 0;
    while i < f.len() && i < s.len() && f[i] == s[i]
        invariant
            i <= f@.len(),
            i <= s@.len(),
            forall|j: int| 0 <= j < i ==> f@[j] == s@[j],
        decreases f@.len() - i,
    {
        i = i + 1;
    }
    proof {
        lemma_lcp_maximal(f@, s@, i as int);
    }
    i
}

/// Whether `a` comes strictly before `b` in lexicographic byte order.
pub fn bytes_lt(a: &[u8], b: &[u8]) -> (r: bool)
    ensures
        r == lex_lt(a@, b@),
{
    let n = count_same(a, b);
    proof {
        lemma_lcp(a@, b@);
    }
    (n == a.len() && n < b.len()) || (n < a.len() && n < b.len() && a[n] < b[n])
}

/// Whether `a` and `b` hold the same bytes.
pub fn bytes_eq(a: &[u8], b: &[u8]) -> (r: bool)
    ensures
        r == (a@ == b@),
{
    let n = count_same(a, b);
    proof {
        lemma_lcp(a@, b@);
        if n == a.len() && n == b.len() {
            assert(a@ =~= b@);
        }
    }
    n == a.len() && n == b.len()
}

} // verus!
