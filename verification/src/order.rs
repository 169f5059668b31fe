//! Byte strings in the order of the key space: lexicographic, a proper prefix
//! before everything that extends it.
use vstd::prelude::*;

verus! {

/// `a` and `b` agree on their first `k` bytes, and `a` comes before `b` by
/// what stands (or is missing) at `k`.
pub open spec fn diverge(a: Seq<u8>, b: Seq<u8>, k: int) -> bool {
    &&& 0 <= k <= a.len()
    &&& k < b.len()
    &&& forall|j: int| 0 <= j < k ==> a[j] == b[j]
    &&& k == a.len() || a[k] < b[k]
}

/// `a` comes strictly before `b`.
pub open spec fn lex_lt(a: Seq<u8>, b: Seq<u8>) -> bool {
    exists|k: int| diverge(a, b, k)
}

/// `p` is a prefix of `s`.
pub open spec fn has_prefix(s: Seq<u8>, p: Seq<u8>) -> bool {
    &&& p.len() <= s.len()
    &&& s.subrange(0, p.len() as int) == p
}

/// What follows the first `n` bytes of `s`.
pub open spec fn after(s: Seq<u8>, n: int) -> Seq<u8> {
    s.subrange(n, s.len() as int)
}

pub proof fn lex_irreflexive(a: Seq<u8>)
    ensures
        !lex_lt(a, a),
{
}

pub proof fn lex_transitive(a: Seq<u8>, b: Seq<u8>, c: Seq<u8>)
    requires
        lex_lt(a, b),
        lex_lt(b, c),
    ensures
        lex_lt(a, c),
{
    let k1 = choose|k: int| diverge(a, b, k);
    let k2 = choose|k: int| diverge(b, c, k);
    let k = if k1 < k2 { k1 } else { k2 };
    assert(diverge(a, c, k));
}

pub proof fn lex_asymmetric(a: Seq<u8>, b: Seq<u8>)
    requires
        lex_lt(a, b),
    ensures
        !lex_lt(b, a),
        a != b,
{
    if lex_lt(b, a) {
        lex_transitive(a, b, a);
        lex_irreflexive(a);
    }
    lex_irreflexive(a);
}

/// Two different byte strings are ordered one way or the other.
pub proof fn lex_total(a: Seq<u8>, b: Seq<u8>)
    ensures
        lex_lt(a, b) || lex_lt(b, a) || a == b,
{
    lex_total_from(a, b, 0);
}

proof fn lex_total_from(a: Seq<u8>, b: Seq<u8>, i: int)
    requires
        0 <= i <= a.len(),
        i <= b.len(),
        forall|j: int| 0 <= j < i ==> a[j] == b[j],
    ensures
        lex_lt(a, b) || lex_lt(b, a) || a == b,
    decreases a.len() - i,
{
    if i == a.len() && i == b.len() {
        assert(a =~= b);
    } else if i == a.len() {
        assert(diverge(a, b, i));
    } else if i == b.len() {
        assert(diverge(b, a, i));
    } else if a[i] < b[i] {
        assert(diverge(a, b, i));
    } else if b[i] < a[i] {
        assert(diverge(b, a, i));
    } else {
        lex_total_from(a, b, i + 1);
    }
}

/// A common prefix does not change the order.
pub proof fn lex_shared_prefix(p: Seq<u8>, a: Seq<u8>, b: Seq<u8>)
    ensures
        lex_lt(p + a, p + b) == lex_lt(a, b),
{
    let n = p.len() as int;
    if lex_lt(a, b) {
        let k = choose|k: int| diverge(a, b, k);
        assert forall|j: int| 0 <= j < n + k implies (p + a)[j] == (p + b)[j] by {
            if j >= n {
                assert(a[j - n] == b[j - n]);
            }
        }
        assert(diverge(p + a, p + b, n + k));
    }
    if lex_lt(p + a, p + b) {
        let k = choose|k: int| diverge(p + a, p + b, k);
        if k < n {
            assert((p + a)[k] == p[k] && (p + b)[k] == p[k]);
        }
        assert forall|j: int| 0 <= j < k - n implies a[j] == b[j] by {
            assert((p + a)[n + j] == (p + b)[n + j]);
        }
        assert(diverge(a, b, k - n));
    }
}

/// Between two byte strings of equal length the order is decided inside
/// them, whatever follows.
pub proof fn lex_same_length(a: Seq<u8>, b: Seq<u8>, x: Seq<u8>, y: Seq<u8>)
    requires
        a.len() == b.len(),
        lex_lt(a, b),
    ensures
        lex_lt(a + x, b + y),
{
    let k = choose|k: int| diverge(a, b, k);
    assert forall|j: int| 0 <= j < k implies (a + x)[j] == (b + y)[j] by {
        assert(a[j] == b[j]);
    }
    assert(diverge(a + x, b + y, k));
}

pub proof fn lemma_prefix_split(s: Seq<u8>, p: Seq<u8>)
    requires
        has_prefix(s, p),
    ensures
        s == p + after(s, p.len() as int),
{
    assert(s =~= p + after(s, p.len() as int)) by {
        assert(forall|i: int| 0 <= i < p.len() ==> s[i] == s.subrange(0, p.len() as int)[i]);
    }
}

pub proof fn lemma_prefix_of_concat(p: Seq<u8>, x: Seq<u8>)
    ensures
        has_prefix(p + x, p),
        after(p + x, p.len() as int) == x,
{
    assert((p + x).subrange(0, p.len() as int) =~= p);
    assert(after(p + x, p.len() as int) =~= x);
}

/// What lies between two extensions of `p` extends `p` too.
pub proof fn lex_between(p: Seq<u8>, x: Seq<u8>, k: Seq<u8>, y: Seq<u8>)
    requires
        !lex_lt(k, p + x),
        !lex_lt(p + y, k),
    ensures
        has_prefix(k, p),
{
    if !has_prefix(k, p) {
        lex_between_from(p, x, k, y, 0);
    }
}

proof fn lex_between_from(p: Seq<u8>, x: Seq<u8>, k: Seq<u8>, y: Seq<u8>, i: int)
    requires
        !lex_lt(k, p + x),
        !lex_lt(p + y, k),
        0 <= i <= p.len(),
        i <= k.len(),
        forall|j: int| 0 <= j < i ==> k[j] == p[j],
    ensures
        has_prefix(k, p),
    decreases p.len() - i,
{
    if i == p.len() {
        assert(k.subrange(0, p.len() as int) =~= p);
    } else if i == k.len() {
        assert(diverge(k, p + x, i));
    } else if k[i] < p[i] {
        assert(diverge(k, p + x, i));
    } else if p[i] < k[i] {
        assert(diverge(p + y, k, i));
    } else {
        lex_between_from(p, x, k, y, i + 1);
    }
}

/// Whether `a` comes strictly before `b`.
pub fn less(a: &[u8], b: &[u8]) -> (r: bool)
    ensures
        r == lex_lt(a@, b@),
{
    let mut i: usize = 0;
    while i < a.len() && i < b.len()
        invariant
            i <= a.len(),
            i <= b.len(),
            forall|j: int| 0 <= j < i ==> a@[j] == b@[j],
        decreases a.len() - i,
    {
        if a[i] < b[i] {
            assert(diverge(a@, b@, i as int));
            return true;
        }
        if b[i] < a[i] {
            proof {
                assert(diverge(b@, a@, i as int));
                lex_asymmetric(b@, a@);
            }
            return false;
        }
        i += 1;
    }
    if i < b.len() {
        assert(diverge(a@, b@, i as int));
        true
    } else {
        proof {
            if i < a.len() {
                assert(diverge(b@, a@, i as int));
                lex_asymmetric(b@, a@);
            } else {
                assert(a@ =~= b@);
                lex_irreflexive(a@);
            }
        }
        false
    }
}

pub fn same(a: &[u8], b: &[u8]) -> (r: bool)
    ensures
        r == (a@ == b@),
{
    if a.len() != b.len() {
        return false;
    }
    let mut i: usize = 0;
    while i < a.len()
        invariant
            i <= a.len(),
            a.len() == b.len(),
            forall|j: int| 0 <= j < i ==> a@[j] == b@[j],
        decreases a.len() - i,
    {
        if a[i] != b[i] {
            return false;
        }
        i += 1;
    }
    assert(a@ =~= b@);
    true
}

/// Whether `s` starts with `p`.
pub fn starts_with(s: &[u8], p: &[u8]) -> (r: bool)
    ensures
        r == has_prefix(s@, p@),
{
    if s.len() < p.len() {
        return false;
    }
    let mut i: usize = 0;
    while i < p.len()
        invariant
            i <= p.len() <= s.len(),
            forall|j: int| 0 <= j < i ==> s@[j] == p@[j],
        decreases p.len() - i,
    {
        if s[i] != p[i] {
            assert(s@.subrange(0, p@.len() as int)[i as int] != p@[i as int]);
            return false;
        }
        i += 1;
    }
    assert(s@.subrange(0, p@.len() as int) =~= p@);
    true
}

/// A copy of `s`.
pub fn copy_of(s: &[u8]) -> (r: Vec<u8>)
    ensures
        r@ == s@,
{
    vstd::slice::slice_to_vec(s)
}

/// Whether `s` ends with `p`.
pub open spec fn has_suffix(s: Seq<u8>, p: Seq<u8>) -> bool {
    &&& p.len() <= s.len()
    &&& s.subrange(s.len() - p.len(), s.len() as int) == p
}

pub fn ends_with(s: &[u8], p: &[u8]) -> (r: bool)
    ensures
        r == has_suffix(s@, p@),
{
    if s.len() < p.len() {
        return false;
    }
    same(vstd::slice::slice_subrange(s, s.len() - p.len(), s.len()), p)
}

} // verus!
