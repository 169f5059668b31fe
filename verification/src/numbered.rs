//! Rows whose keys end in a number, in the order of the numbers.
use vstd::prelude::*;

use crate::digits::{
    dec16, dec16_lead, dec16_order, numeral, numeral_digits, numeral_of, push_dec16, read_numeral,
};
use crate::order::{
    after, diverge, has_prefix, lemma_prefix_of_concat, lemma_prefix_split, lex_lt,
    lex_shared_prefix,
};
use crate::table::{is_listing, lemma_under, listing, listing_exists, under, Key, Table};

verus! {

/// The number that a key holds after `prefix`.
pub open spec fn number_of(prefix: Seq<u8>, k: Seq<u8>) -> Option<nat> {
    if has_prefix(k, prefix) {
        numeral(after(k, prefix.len() as int))
    } else {
        None
    }
}

/// The keys that hold a number of `[lo, hi)` after `prefix`.
pub open spec fn numbers(prefix: Seq<u8>, lo: nat, hi: Option<nat>) -> spec_fn(Seq<u8>) -> bool {
    |k: Seq<u8>|
        match number_of(prefix, k) {
            Some(n) => lo <= n && (hi is Some ==> n < hi->0),
            None => false,
        }
}

/// `s` lists the entries of `m` whose key satisfies `p`: each once, in the
/// order of the numbers after `prefix`.
pub open spec fn is_numbered<V>(
    m: Map<Seq<u8>, V>,
    prefix: Seq<u8>,
    p: spec_fn(Seq<u8>) -> bool,
    s: Seq<(Seq<u8>, V)>,
) -> bool {
    &&& forall|i: int, j: int| 0 <= i < j < s.len() ==> #[trigger] precedes(prefix, s[i].0, s[j].0)
    &&& forall|i: int|
        0 <= i < s.len() ==> m.contains_key(#[trigger] s[i].0) && p(s[i].0) && m[s[i].0] == s[i].1
    &&& forall|k: Seq<u8>| #[trigger]
        m.contains_key(k) && p(k) ==> exists|i: int| 0 <= i < s.len() && #[trigger] s[i].0 == k
}

/// Whether `a` holds a lower number than `b`.
pub open spec fn precedes(prefix: Seq<u8>, a: Seq<u8>, b: Seq<u8>) -> bool {
    number_of(prefix, a)->0 < number_of(prefix, b)->0
}

/// The entries of `m` with a number of `[lo, hi)` after `prefix`, in the order
/// of the numbers.
pub open spec fn numbered<V>(
    m: Map<Seq<u8>, V>,
    prefix: Seq<u8>,
    lo: nat,
    hi: Option<nat>,
) -> Seq<(Seq<u8>, V)> {
    choose|s: Seq<(Seq<u8>, V)>| is_numbered(m, prefix, numbers(prefix, lo, hi), s)
}

/// A key holds a number iff it is written with it.
pub proof fn number_key(prefix: Seq<u8>, k: Seq<u8>)
    ensures
        number_of(prefix, k) is Some ==> {
            &&& k == prefix + dec16(number_of(prefix, k)->0)
            &&& number_of(prefix, k)->0 <= u64::MAX
            &&& prefix.len() + 16 <= k.len() <= prefix.len() + 20
        },
        forall|n: nat|
            n <= u64::MAX && k == #[trigger] (prefix + dec16(n)) ==> number_of(prefix, k) == Some(n),
{
    if number_of(prefix, k) is Some {
        lemma_prefix_split(k, prefix);
        numeral_digits(after(k, prefix.len() as int));
        numeral_of(number_of(prefix, k)->0);
    }
    assert forall|n: nat| n <= u64::MAX && k == #[trigger] (prefix + dec16(n)) implies number_of(
        prefix,
        k,
    ) == Some(n) by {
        lemma_prefix_of_concat(prefix, dec16(n));
        numeral_of(n);
    }
}

/// The key that a number is written in.
pub proof fn number_written(prefix: Seq<u8>, n: nat)
    requires
        n <= u64::MAX,
    ensures
        number_of(prefix, prefix + dec16(n)) == Some(n),
        has_prefix(prefix + dec16(n), prefix),
{
    lemma_prefix_of_concat(prefix, dec16(n));
    numeral_of(n);
}

/// There is at most one such listing.
pub proof fn numbered_unique<V>(
    m: Map<Seq<u8>, V>,
    prefix: Seq<u8>,
    lo: nat,
    hi: Option<nat>,
    s: Seq<(Seq<u8>, V)>,
)
    requires
        is_numbered(m, prefix, numbers(prefix, lo, hi), s),
    ensures
        numbered(m, prefix, lo, hi) == s,
{
    let t = numbered(m, prefix, lo, hi);
    assert(is_numbered(m, prefix, numbers(prefix, lo, hi), t));
    numbered_agrees(m, prefix, numbers(prefix, lo, hi), s, t, 0);
}

proof fn numbered_agrees<V>(
    m: Map<Seq<u8>, V>,
    prefix: Seq<u8>,
    p: spec_fn(Seq<u8>) -> bool,
    s: Seq<(Seq<u8>, V)>,
    t: Seq<(Seq<u8>, V)>,
    n: int,
)
    requires
        is_numbered(m, prefix, p, s),
        is_numbered(m, prefix, p, t),
        0 <= n <= s.len(),
        n <= t.len(),
        forall|i: int| 0 <= i < n ==> s[i] == t[i],
    ensures
        s == t,
    decreases s.len() - n,
{
    if n < s.len() {
        numbered_head(m, prefix, p, s, t, n);
        numbered_head(m, prefix, p, t, s, n);
        assert(s[n] == t[n]);
        numbered_agrees(m, prefix, p, s, t, n + 1);
    } else if n < t.len() {
        numbered_head(m, prefix, p, t, s, n);
    } else {
        assert(s =~= t);
    }
}

/// `s[n]` occurs in `t` at or after `n`.
proof fn numbered_head<V>(
    m: Map<Seq<u8>, V>,
    prefix: Seq<u8>,
    p: spec_fn(Seq<u8>) -> bool,
    s: Seq<(Seq<u8>, V)>,
    t: Seq<(Seq<u8>, V)>,
    n: int,
)
    requires
        is_numbered(m, prefix, p, s),
        is_numbered(m, prefix, p, t),
        0 <= n < s.len(),
        n <= t.len(),
        forall|i: int| 0 <= i < n ==> s[i] == t[i],
    ensures
        n < t.len(),
        s[n] == t[n] || precedes(prefix, t[n].0, s[n].0),
{
    let k = s[n].0;
    assert(m.contains_key(k) && p(k));
    let i = choose|i: int| 0 <= i < t.len() && #[trigger] t[i].0 == k;
    if i < n {
        assert(s[i].0 == k);
        assert(precedes(prefix, s[i].0, s[n].0));
    }
    if n < i {
        assert(precedes(prefix, t[n].0, t[i].0));
    }
    assert(m[t[i].0] == t[i].1);
}

/// The keys of `p` whose number has fewer than `w` digits.
spec fn shorter(prefix: Seq<u8>, p: spec_fn(Seq<u8>) -> bool, w: nat) -> spec_fn(Seq<u8>) -> bool {
    |k: Seq<u8>| p(k) && k.len() < prefix.len() + w
}

/// The keys of `p` whose number has `w` digits.
spec fn as_long(prefix: Seq<u8>, p: spec_fn(Seq<u8>) -> bool, w: nat) -> spec_fn(Seq<u8>) -> bool {
    |k: Seq<u8>| p(k) && k.len() == prefix.len() + w
}

/// Among keys with as many digits the order of bytes is that of the numbers,
/// and more digits make a higher number.
proof fn number_order(prefix: Seq<u8>, a: Seq<u8>, b: Seq<u8>)
    requires
        number_of(prefix, a) is Some,
        number_of(prefix, b) is Some,
    ensures
        a.len() == b.len() ==> lex_lt(a, b) == precedes(prefix, a, b),
        a.len() < b.len() ==> precedes(prefix, a, b),
        a == b || precedes(prefix, a, b) || precedes(prefix, b, a),
{
    let v = number_of(prefix, a)->0;
    let w = number_of(prefix, b)->0;
    number_key(prefix, a);
    number_key(prefix, b);
    lex_shared_prefix(prefix, dec16(v), dec16(w));
    dec16_order(v, w);
    dec16_order(w, v);
}

proof fn shorter_exists<V>(
    m: Map<Seq<u8>, V>,
    prefix: Seq<u8>,
    p: spec_fn(Seq<u8>) -> bool,
    w: nat,
) -> (s: Seq<(Seq<u8>, V)>)
    requires
        m.dom().finite(),
        forall|k: Seq<u8>| #[trigger] p(k) ==> number_of(prefix, k) is Some,
    ensures
        is_numbered(m, prefix, shorter(prefix, p, w), s),
    decreases w,
{
    if w == 0 {
        let s = Seq::<(Seq<u8>, V)>::empty();
        assert forall|k: Seq<u8>| #[trigger] m.contains_key(k) && shorter(prefix, p, w)(
            k,
        ) implies exists|i: int| 0 <= i < s.len() && #[trigger] s[i].0 == k by {
            number_key(prefix, k);
        }
        s
    } else {
        let n = (w - 1) as nat;
        let a = shorter_exists(m, prefix, p, n);
        let q = as_long(prefix, p, n);
        listing_exists(m, q);
        let b = listing(m, q);
        let s = a + b;
        let r = shorter(prefix, p, w);
        assert forall|i: int| 0 <= i < s.len() implies m.contains_key(#[trigger] s[i].0) && r(
            s[i].0,
        ) && m[s[i].0] == s[i].1 by {
            if i < a.len() {
                assert(m.contains_key(a[i].0));
            } else {
                assert(m.contains_key(b[i - a.len()].0));
            }
        }
        assert forall|i: int, j: int| 0 <= i < j < s.len() implies #[trigger] precedes(
            prefix,
            s[i].0,
            s[j].0,
        ) by {
            assert(r(s[i].0) && r(s[j].0));
            number_order(prefix, s[i].0, s[j].0);
            if j < a.len() {
                assert(precedes(prefix, a[i].0, a[j].0));
            } else if i >= a.len() {
                assert(lex_lt(b[i - a.len()].0, b[j - a.len()].0));
                assert(q(b[i - a.len()].0) && q(b[j - a.len()].0));
            } else {
                assert(shorter(prefix, p, n)(a[i].0));
                assert(q(b[j - a.len()].0));
            }
        }
        assert forall|k: Seq<u8>| #[trigger] m.contains_key(k) && r(k) implies exists|i: int|
            0 <= i < s.len() && #[trigger] s[i].0 == k by {
            if q(k) {
                let i = choose|i: int| 0 <= i < b.len() && #[trigger] b[i].0 == k;
                assert(s[a.len() + i].0 == k);
            } else {
                assert(shorter(prefix, p, n)(k));
                let i = choose|i: int| 0 <= i < a.len() && #[trigger] a[i].0 == k;
                assert(s[i].0 == k);
            }
        }
        s
    }
}

/// A finite map has such a listing.
pub proof fn numbered_exists<V>(m: Map<Seq<u8>, V>, prefix: Seq<u8>, lo: nat, hi: Option<nat>)
    requires
        m.dom().finite(),
    ensures
        is_numbered(m, prefix, numbers(prefix, lo, hi), numbered(m, prefix, lo, hi)),
{
    let p = numbers(prefix, lo, hi);
    let s = shorter_exists(m, prefix, p, 21);
    assert(is_numbered(m, prefix, p, s)) by {
        assert forall|k: Seq<u8>| #[trigger] m.contains_key(k) && p(k) implies exists|i: int|
            0 <= i < s.len() && #[trigger] s[i].0 == k by {
            number_key(prefix, k);
            assert(shorter(prefix, p, 21)(k));
        }
        assert forall|i: int| 0 <= i < s.len() implies m.contains_key(#[trigger] s[i].0) && p(
            s[i].0,
        ) && m[s[i].0] == s[i].1 by {
            assert(shorter(prefix, p, 21)(s[i].0));
        }
    }
}

/// Two finite maps that agree on the keys with a number of the range have one
/// listing.
pub proof fn same_numbered<V>(
    a: Map<Seq<u8>, V>,
    b: Map<Seq<u8>, V>,
    prefix: Seq<u8>,
    lo: nat,
    hi: Option<nat>,
)
    requires
        a.dom().finite(),
        b.dom().finite(),
        forall|k: Seq<u8>|
            numbers(prefix, lo, hi)(k) ==> (#[trigger] a.contains_key(k) == b.contains_key(k)) && (
            a.contains_key(k) ==> a[k] == b[k]),
    ensures
        numbered(a, prefix, lo, hi) == numbered(b, prefix, lo, hi),
{
    let p = numbers(prefix, lo, hi);
    numbered_exists(a, prefix, lo, hi);
    let l = numbered(a, prefix, lo, hi);
    assert(is_numbered(b, prefix, p, l)) by {
        assert forall|i: int| 0 <= i < l.len() implies b.contains_key(#[trigger] l[i].0) && p(
            l[i].0,
        ) && b[l[i].0] == l[i].1 by {
            assert(a.contains_key(l[i].0) && p(l[i].0));
        }
        assert forall|k: Seq<u8>| #[trigger] b.contains_key(k) && p(k) implies exists|i: int|
            0 <= i < l.len() && #[trigger] l[i].0 == k by {
            assert(a.contains_key(k) && p(k));
        }
    }
    numbered_unique(b, prefix, lo, hi, l);
}

pub open spec fn opt_nat(v: Option<u64>) -> Option<nat> {
    match v {
        Some(v) => Some(v as nat),
        None => None,
    }
}

/// The number that a key holds after `prefix`.
pub fn key_number(prefix: &[u8], k: &[u8]) -> (r: Option<u64>)
    ensures
        match r {
            Some(v) => number_of(prefix@, k@) == Some(v as nat),
            None => number_of(prefix@, k@) is None,
        },
{
    if !crate::order::starts_with(k, prefix) {
        return None;
    }
    read_numeral(vstd::slice::slice_subrange(k, prefix.len(), k.len()))
}

/// The rows at given positions.
spec fn rows_at<V>(e: Seq<(Seq<u8>, V)>, r: Seq<usize>) -> Seq<(Seq<u8>, V)> {
    Seq::new(r.len(), |j: int| e[r[j] as int])
}

/// The positions of the rows with a number of `[lo, hi)` after `prefix`, in the
/// order of the numbers.
pub fn find_numbered<K: Key, V: View>(
    t: &Table<K, V>,
    prefix: &[u8],
    lo: u64,
    hi: Option<u64>,
) -> (r: Vec<usize>)
    ensures
        ({
            let l = numbered(t@, prefix@, lo as nat, opt_nat(hi));
            &&& is_numbered(t@, prefix@, numbers(prefix@, lo as nat, opt_nat(hi)), l)
            &&& r.len() == l.len()
            &&& forall|i: int|
                0 <= i < r.len() ==> (#[trigger] r@[i]) < t.entries().len()
                    && t.entries()[r@[i] as int] == l[i]
        }),
{
    let none: Vec<u8> = Vec::new();
    let (a, b) = t.range(prefix, none.as_slice(), None);
    let ghost e = t.entries();
    let ghost x = e.subrange(a as int, b as int);
    let ghost p = numbers(prefix@, lo as nat, opt_nat(hi));
    assert(none@ =~= Seq::<u8>::empty());
    let mut r: Vec<usize> = Vec::new();
    let mut w: usize = 16;
    assert forall|k: Seq<u8>| #[trigger] t@.contains_key(k) && shorter(prefix@, p, 16)(
        k,
    ) implies false by {
        number_key(prefix@, k);
    }
    assert(is_numbered(t@, prefix@, shorter(prefix@, p, 16), rows_at(e, r@)));
    while w <= 20
        invariant
            16 <= w <= 21,
            a <= b <= e.len(),
            e == t.entries(),
            x == e.subrange(a as int, b as int),
            p == numbers(prefix@, lo as nat, opt_nat(hi)),
            is_listing(t@, under(prefix@), x),
            forall|j: int| 0 <= j < r.len() ==> (#[trigger] r@[j]) < e.len(),
            is_numbered(t@, prefix@, shorter(prefix@, p, w as nat), rows_at(e, r@)),
        decreases 21 - w,
    {
        let ghost start = r@;
        let mut i: usize = a;
        while i < b
            invariant
                16 <= w <= 20,
                a <= i <= b <= e.len(),
                e == t.entries(),
                x == e.subrange(a as int, b as int),
                p == numbers(prefix@, lo as nat, opt_nat(hi)),
                is_listing(t@, under(prefix@), x),
                start.len() <= r.len(),
                r@.take(start.len() as int) == start,
                forall|j: int| 0 <= j < r.len() ==> (#[trigger] r@[j]) < e.len(),
                forall|j: int|
                    start.len() <= j < r.len() ==> a <= (#[trigger] r@[j]) < i && as_long(
                        prefix@,
                        p,
                        w as nat,
                    )(e[r@[j] as int].0),
                forall|j: int, m: int| start.len() <= j < m < r.len() ==> r@[j] < r@[m],
                forall|n: int|
                    a <= n < i && as_long(prefix@, p, w as nat)((#[trigger] e[n]).0) ==> r@.contains(
                        n as usize,
                    ),
            decreases b - i,
        {
            let ghost before = r@;
            let ghost row = x[i - a];
            proof {
                assert(row == e[i as int]);
                assert(t@.contains_key(row.0) && under(prefix@)(row.0));
                lemma_under(prefix@, row.0);
            }
            let key = t.key_at(i).as_key();
            if key.len() - prefix.len() == w {
                if let Some(v) = read_numeral(
                    vstd::slice::slice_subrange(key, prefix.len(), key.len()),
                ) {
                    let below = match hi {
                        Some(h) => v < h,
                        None => true,
                    };
                    if lo <= v && below {
                        r.push(i);
                        assert(r@[before.len() as int] == i);
                        assert(r@.take(start.len() as int) =~= before.take(start.len() as int));
                    }
                }
            }
            proof {
                assert forall|n: int|
                    a <= n < i + 1 && as_long(prefix@, p, w as nat)(
                        (#[trigger] e[n]).0,
                    ) implies r@.contains(n as usize) by {
                    if n < i {
                        let j = choose|j: int| 0 <= j < before.len() && before[j] == n as usize;
                        assert(r@[j] == n as usize);
                    }
                }
            }
            i += 1;
        }
        proof {
            let q = as_long(prefix@, p, w as nat);
            let old_rows = rows_at(e, start);
            let rows = rows_at(e, r@);
            let n0 = start.len() as int;
            let s = shorter(prefix@, p, (w + 1) as nat);
            assert forall|j: int| 0 <= j < n0 implies #[trigger] rows[j] == old_rows[j] by {
                assert(r@.take(n0)[j] == r@[j]);
            }
            assert forall|j: int| 0 <= j < rows.len() implies t@.contains_key(#[trigger] rows[j].0)
                && s(rows[j].0) && t@[rows[j].0] == rows[j].1 && (j < n0 ==> shorter(
                prefix@,
                p,
                w as nat,
            )(rows[j].0)) && (j >= n0 ==> q(rows[j].0)) by {
                if j < n0 {
                    assert(rows[j] == old_rows[j]);
                    assert(t@.contains_key(old_rows[j].0));
                } else {
                    assert(q(e[r@[j] as int].0));
                    assert(x[r@[j] - a] == rows[j]);
                    assert(t@.contains_key(x[r@[j] - a].0));
                }
            }
            assert forall|j: int, m: int| 0 <= j < m < rows.len() implies #[trigger] precedes(
                prefix@,
                rows[j].0,
                rows[m].0,
            ) by {
                assert(s(rows[j].0) && s(rows[m].0));
                number_order(prefix@, rows[j].0, rows[m].0);
                if m < n0 {
                    assert(precedes(prefix@, old_rows[j].0, old_rows[m].0));
                } else if j >= n0 {
                    assert(x[r@[j] - a] == rows[j] && x[r@[m] - a] == rows[m]);
                    assert(lex_lt(x[r@[j] - a].0, x[r@[m] - a].0));
                }
            }
            assert forall|k: Seq<u8>| #[trigger] t@.contains_key(k) && s(k) implies exists|j: int|
                0 <= j < rows.len() && #[trigger] rows[j].0 == k by {
                if q(k) {
                    lemma_under(prefix@, k);
                    assert(under(prefix@)(k));
                    let n = choose|n: int| 0 <= n < x.len() && #[trigger] x[n].0 == k;
                    assert(e[n + a].0 == k);
                    let j = choose|j: int| 0 <= j < r@.len() && r@[j] == (n + a) as usize;
                    assert(rows[j].0 == k);
                } else {
                    assert(shorter(prefix@, p, w as nat)(k));
                    let j = choose|j: int| 0 <= j < old_rows.len() && #[trigger] old_rows[j].0 == k;
                    assert(rows[j].0 == k);
                }
            }
        }
        w += 1;
    }
    proof {
        let rows = rows_at(e, r@);
        assert(is_numbered(t@, prefix@, p, rows)) by {
            assert forall|k: Seq<u8>| #[trigger] t@.contains_key(k) && p(k) implies exists|i: int|
                0 <= i < rows.len() && #[trigger] rows[i].0 == k by {
                number_key(prefix@, k);
                assert(shorter(prefix@, p, w as nat)(k));
            }
            assert forall|i: int| 0 <= i < rows.len() implies t@.contains_key(#[trigger] rows[i].0)
                && p(rows[i].0) && t@[rows[i].0] == rows[i].1 by {
                assert(shorter(prefix@, p, w as nat)(rows[i].0));
            }
        }
        numbered_unique(t@, prefix@, lo as nat, opt_nat(hi), rows);
    }
    r
}

/// Whether bytes lie in `[lo, hi)`.
pub open spec fn in_span(s: Seq<u8>, lo: Seq<u8>, hi: Option<Seq<u8>>) -> bool {
    !lex_lt(s, lo) && (hi is Some ==> lex_lt(s, hi->0))
}

pub open spec fn opt_bytes(v: Option<Vec<u8>>) -> Option<Seq<u8>> {
    match v {
        Some(v) => Some(v@),
        None => None,
    }
}

/// Where a scan for the numbers of `[lo, hi)` ends: keys of 16 digits are in
/// order, longer ones stand among those that do not start with a zero.
pub open spec fn span_end(hi: Option<u64>) -> Option<Seq<u8>> {
    if hi is Some && hi->0 < 10_000_000_000_000_000 {
        Some(dec16(hi->0 as nat))
    } else {
        None
    }
}

/// Where it starts.
pub open spec fn span_start(lo: u64, hi: Option<u64>) -> Seq<u8> {
    if span_end(hi) is Some || lo < 1_000_000_000_000_000 {
        dec16(lo as nat)
    } else {
        seq![49u8]
    }
}

/// A span of the order of bytes that holds all numbers of `[lo, hi)` as keys
/// write them, for a scan.
pub fn number_span(lo: u64, hi: Option<u64>) -> (r: (Vec<u8>, Option<Vec<u8>>))
    ensures
        r.0@ == span_start(lo, hi),
        opt_bytes(r.1) == span_end(hi),
        forall|n: nat|
            lo <= n && (hi is Some ==> n < hi->0) ==> in_span(
                #[trigger] dec16(n),
                r.0@,
                opt_bytes(r.1),
            ),
{
    let mut from: Vec<u8> = Vec::new();
    proof {
        dec16_lead(lo as nat);
    }
    if let Some(h) = hi {
        if h < 10_000_000_000_000_000 {
            let mut to: Vec<u8> = Vec::new();
            push_dec16(&mut from, lo);
            push_dec16(&mut to, h);
            proof {
                assert(from@ =~= dec16(lo as nat));
                assert(to@ =~= dec16(h as nat));
                assert forall|n: nat| lo <= n && n < h implies in_span(
                    #[trigger] dec16(n),
                    from@,
                    Some(to@),
                ) by {
                    dec16_lead(n);
                    dec16_lead(h as nat);
                    dec16_order(n, lo as nat);
                    dec16_order(n, h as nat);
                }
            }
            return (from, Some(to));
        }
    }
    if lo < 1_000_000_000_000_000 {
        push_dec16(&mut from, lo);
        assert(from@ =~= dec16(lo as nat));
    } else {
        from.push(49);
        assert(from@ =~= seq![49u8]);
    }
    proof {
        assert forall|n: nat| lo <= n implies in_span(#[trigger] dec16(n), from@, None) by {
            let d = dec16(n);
            dec16_lead(n);
            if lo >= 1_000_000_000_000_000 {
                if lex_lt(d, from@) {
                    let i = choose|i: int| diverge(d, from@, i);
                    assert(false);
                }
            } else if n < 10_000_000_000_000_000 {
                dec16_order(n, lo as nat);
            } else if lex_lt(d, from@) {
                let i = choose|i: int| diverge(d, from@, i);
                if i > 0 {
                    assert(d[0] == from@[0]);
                }
            }
        }
    }
    (from, None)
}

} // verus!
