//! A table ordered by key bytes: the shape of every keyed collection in the
//! crate (stored records, filesystem nodes, extended attributes).
use vstd::prelude::*;

use crate::order::{
    after, copy_of, has_prefix, lemma_prefix_split, less, lex_asymmetric, lex_between,
    lex_irreflexive, lex_lt, lex_shared_prefix, lex_total, lex_transitive, same, starts_with,
};

verus! {

/// A key, ordered and compared by its bytes.
pub trait Key {
    spec fn key(&self) -> Seq<u8>;

    fn as_key(&self) -> (r: &[u8])
        ensures
            r@ == self.key(),
    ;

    fn copy_key(&self) -> (r: Self) where Self: Sized
        ensures
            r.key() == self.key(),
    ;
}

impl Key for Vec<u8> {
    open spec fn key(&self) -> Seq<u8> {
        self@
    }

    fn as_key(&self) -> (r: &[u8]) {
        self.as_slice()
    }

    fn copy_key(&self) -> (r: Self) {
        copy_of(self.as_slice())
    }
}

impl Key for String {
    open spec fn key(&self) -> Seq<u8> {
        vstd::utf8::encode_utf8(self@)
    }

    fn as_key(&self) -> (r: &[u8]) {
        self.as_str().as_bytes()
    }

    fn copy_key(&self) -> (r: Self) {
        self.clone()
    }
}

/// A value that can be copied.
pub trait Dup: View + Sized {
    fn dup(&self) -> (r: Self)
        ensures
            r@ == self@,
    ;
}

impl Dup for Vec<u8> {
    fn dup(&self) -> (r: Self) {
        copy_of(self.as_slice())
    }
}

impl Dup for String {
    fn dup(&self) -> (r: Self) {
        self.clone()
    }
}

/// The views of a sequence of values.
pub open spec fn views<T: View>(s: Seq<T>) -> Seq<T::V> {
    Seq::new(s.len(), |i: int| s[i]@)
}

pub fn dup_all<T: Dup>(v: &Vec<T>) -> (r: Vec<T>)
    ensures
        views(r@) == views(v@),
{
    let mut r: Vec<T> = Vec::new();
    let mut i: usize = 0;
    while i < v.len()
        invariant
            i <= v.len(),
            r.len() == i,
            forall|j: int| 0 <= j < i ==> (#[trigger] r@[j])@ == v@[j]@,
        decreases v.len() - i,
    {
        r.push(v[i].dup());
        i += 1;
    }
    assert(views(r@) =~= views(v@));
    r
}

/// `s` lists the entries of `m` whose key satisfies `p`: each once, in key
/// order.
pub open spec fn is_listing<V>(
    m: Map<Seq<u8>, V>,
    p: spec_fn(Seq<u8>) -> bool,
    s: Seq<(Seq<u8>, V)>,
) -> bool {
    &&& forall|i: int, j: int| 0 <= i < j < s.len() ==> #[trigger] lex_lt(s[i].0, s[j].0)
    &&& forall|i: int|
        0 <= i < s.len() ==> m.contains_key(#[trigger] s[i].0) && p(s[i].0) && m[s[i].0] == s[i].1
    &&& forall|k: Seq<u8>| #[trigger]
        m.contains_key(k) && p(k) ==> exists|i: int| 0 <= i < s.len() && #[trigger] s[i].0 == k
}

/// The listing of `m` over `p`.
pub open spec fn listing<V>(m: Map<Seq<u8>, V>, p: spec_fn(Seq<u8>) -> bool) -> Seq<(Seq<u8>, V)> {
    choose|s: Seq<(Seq<u8>, V)>| is_listing(m, p, s)
}

/// There is at most one listing of a map over a predicate.
pub proof fn listing_unique<V>(
    m: Map<Seq<u8>, V>,
    p: spec_fn(Seq<u8>) -> bool,
    s: Seq<(Seq<u8>, V)>,
)
    requires
        is_listing(m, p, s),
    ensures
        listing(m, p) == s,
{
    let t = listing(m, p);
    assert(is_listing(m, p, t));
    listing_agrees(m, p, s, t, 0);
}

proof fn listing_agrees<V>(
    m: Map<Seq<u8>, V>,
    p: spec_fn(Seq<u8>) -> bool,
    s: Seq<(Seq<u8>, V)>,
    t: Seq<(Seq<u8>, V)>,
    n: int,
)
    requires
        is_listing(m, p, s),
        is_listing(m, p, t),
        0 <= n <= s.len(),
        n <= t.len(),
        forall|i: int| 0 <= i < n ==> s[i] == t[i],
    ensures
        s == t,
    decreases s.len() - n,
{
    if n < s.len() {
        listing_head(m, p, s, t, n);
        if n < t.len() {
            listing_head(m, p, t, s, n);
            lex_total(s[n].0, t[n].0);
            if lex_lt(s[n].0, t[n].0) {
                lex_asymmetric(s[n].0, t[n].0);
            }
            assert(s[n] == t[n]);
            listing_agrees(m, p, s, t, n + 1);
        }
    } else if n < t.len() {
        listing_head(m, p, t, s, n);
    } else {
        assert(s =~= t);
    }
}

/// `s[n]` occurs in `t` at or after `n`.
proof fn listing_head<V>(
    m: Map<Seq<u8>, V>,
    p: spec_fn(Seq<u8>) -> bool,
    s: Seq<(Seq<u8>, V)>,
    t: Seq<(Seq<u8>, V)>,
    n: int,
)
    requires
        is_listing(m, p, s),
        is_listing(m, p, t),
        0 <= n < s.len(),
        n <= t.len(),
        forall|i: int| 0 <= i < n ==> s[i] == t[i],
    ensures
        n < t.len(),
        s[n].0 == t[n].0 || lex_lt(t[n].0, s[n].0),
{
    let k = s[n].0;
    assert(m.contains_key(k) && p(k));
    let i = choose|i: int| 0 <= i < t.len() && #[trigger] t[i].0 == k;
    if i < n {
        assert(s[i].0 == k);
        assert(lex_lt(s[i].0, s[n].0));
        lex_irreflexive(k);
    }
    if n < i {
        assert(lex_lt(t[n].0, t[i].0));
    }
}

/// A finite map has a listing over every predicate.
pub proof fn listing_exists<V>(m: Map<Seq<u8>, V>, p: spec_fn(Seq<u8>) -> bool)
    requires
        m.dom().finite(),
    ensures
        is_listing(m, p, listing(m, p)),
    decreases m.dom().len(),
{
    if m.dom().len() == 0 {
        assert(m.dom() =~= Set::empty());
        let s = Seq::<(Seq<u8>, V)>::empty();
        assert forall|k: Seq<u8>| #[trigger] m.contains_key(k) implies false by {
            assert(m.dom().contains(k));
        }
        assert(is_listing(m, p, s));
    } else {
        let k = m.dom().choose();
        let rest = m.remove(k);
        assert(m.dom().contains(k));
        listing_exists(rest, p);
        let s = listing(rest, p);
        if !p(k) {
            assert forall|x: Seq<u8>| #[trigger] m.contains_key(x) && p(x) implies exists|i: int|
                0 <= i < s.len() && #[trigger] s[i].0 == x by {
                assert(rest.contains_key(x));
            }
            assert(is_listing(m, p, s));
        } else {
            let i = split_at_key(s, k);
            let t = s.insert(i, (k, m[k]));
            assert forall|a: int, b: int| 0 <= a < b < t.len() implies #[trigger] lex_lt(
                t[a].0,
                t[b].0,
            ) by {
                let a0 = if a < i { a } else { a - 1 };
                let b0 = if b < i { b } else { b - 1 };
                if a != i && b != i {
                    assert(lex_lt(s[a0].0, s[b0].0));
                }
            }
            assert forall|a: int| 0 <= a < t.len() implies m.contains_key(#[trigger] t[a].0) && p(
                t[a].0,
            ) && m[t[a].0] == t[a].1 by {
                if a != i {
                    let a0 = if a < i { a } else { a - 1 };
                    assert(rest.contains_key(s[a0].0));
                }
            }
            assert forall|x: Seq<u8>| #[trigger] m.contains_key(x) && p(x) implies exists|j: int|
                0 <= j < t.len() && #[trigger] t[j].0 == x by {
                if x == k {
                    assert(t[i].0 == x);
                } else {
                    assert(rest.contains_key(x));
                    let j = choose|j: int| 0 <= j < s.len() && #[trigger] s[j].0 == x;
                    assert(t[if j < i { j } else { j + 1 }].0 == x);
                }
            }
            assert(is_listing(m, p, t));
        }
    }
}

/// A map with a full listing is finite.
proof fn listing_finite<V>(m: Map<Seq<u8>, V>, s: Seq<(Seq<u8>, V)>)
    requires
        is_listing(m, any_key(), s),
    ensures
        m.dom().finite(),
        m.dom().len() == s.len(),
{
    let keys = s.map_values(|e: (Seq<u8>, V)| e.0);
    vstd::seq_lib::seq_to_set_is_finite(keys);
    assert forall|k: Seq<u8>| m.dom().contains(k) implies keys.to_set().contains(k) by {
        assert(m.contains_key(k) && any_key()(k));
        let i = choose|i: int| 0 <= i < s.len() && #[trigger] s[i].0 == k;
        assert(keys[i] == k);
    }
    assert forall|k: Seq<u8>| keys.to_set().contains(k) implies m.dom().contains(k) by {
        let i = choose|i: int| 0 <= i < keys.len() && keys[i] == k;
        assert(m.contains_key(s[i].0));
    }
    assert(m.dom() =~= keys.to_set());
    assert forall|i: int, j: int| 0 <= i < keys.len() && 0 <= j < keys.len() && i != j implies keys[i]
        != keys[j] by {
        lex_irreflexive(keys[i]);
        if i < j {
            assert(lex_lt(s[i].0, s[j].0));
        } else {
            assert(lex_lt(s[j].0, s[i].0));
        }
    }
    keys.unique_seq_to_set();
}

/// Where an absent key belongs in a sorted sequence.
pub proof fn split_at_key<V>(s: Seq<(Seq<u8>, V)>, k: Seq<u8>) -> (i: int)
    requires
        forall|i: int, j: int| 0 <= i < j < s.len() ==> #[trigger] lex_lt(s[i].0, s[j].0),
        forall|i: int| 0 <= i < s.len() ==> (#[trigger] s[i]).0 != k,
    ensures
        0 <= i <= s.len(),
        forall|j: int| 0 <= j < i ==> lex_lt((#[trigger] s[j]).0, k),
        forall|j: int| i <= j < s.len() ==> lex_lt(k, (#[trigger] s[j]).0),
    decreases s.len(),
{
    if s.len() == 0 {
        0
    } else {
        let n = s.len() - 1;
        lex_total(s[n].0, k);
        if lex_lt(s[n].0, k) {
            assert forall|j: int| 0 <= j < s.len() implies lex_lt((#[trigger] s[j]).0, k) by {
                if j < n {
                    assert(lex_lt(s[j].0, s[n].0));
                    lex_transitive(s[j].0, s[n].0, k);
                }
            }
            s.len() as int
        } else {
            let t = s.drop_last();
            assert forall|i: int, j: int| 0 <= i < j < t.len() implies #[trigger] lex_lt(
                t[i].0,
                t[j].0,
            ) by {
                assert(lex_lt(s[i].0, s[j].0));
            }
            let i = split_at_key(t, k);
            assert forall|j: int| 0 <= j < i implies lex_lt((#[trigger] s[j]).0, k) by {
                assert(t[j] == s[j]);
            }
            assert forall|j: int| i <= j < s.len() implies lex_lt(k, (#[trigger] s[j]).0) by {
                if j < n {
                    assert(t[j] == s[j]);
                }
            }
            i
        }
    }
}

/// Any key.
pub open spec fn any_key() -> spec_fn(Seq<u8>) -> bool {
    |k: Seq<u8>| true
}

/// The keys that start with `prefix` and whose remainder lies in `[lo, hi)`.
pub open spec fn in_range(prefix: Seq<u8>, lo: Seq<u8>, hi: Option<Seq<u8>>) -> spec_fn(
    Seq<u8>,
) -> bool {
    |k: Seq<u8>|
        {
            &&& has_prefix(k, prefix)
            &&& !lex_lt(after(k, prefix.len() as int), lo)
            &&& hi is Some ==> lex_lt(after(k, prefix.len() as int), hi->0)
        }
}

pub open spec fn opt_view(b: Option<&[u8]>) -> Option<Seq<u8>> {
    match b {
        Some(b) => Some(b@),
        None => None,
    }
}

/// Every remainder: the whole of a prefix.
pub open spec fn under(prefix: Seq<u8>) -> spec_fn(Seq<u8>) -> bool {
    in_range(prefix, Seq::empty(), None)
}

pub proof fn lemma_under(prefix: Seq<u8>, k: Seq<u8>)
    ensures
        under(prefix)(k) == has_prefix(k, prefix),
{
    let e = Seq::<u8>::empty();
    if has_prefix(k, prefix) {
        let rest = after(k, prefix.len() as int);
        if lex_lt(rest, e) {
            let i = choose|i: int| crate::order::diverge(rest, e, i);
            assert(false);
        }
    }
}

/// Entries in strictly increasing key order, one per key.
#[derive(Debug)]
pub struct Table<K: Key, V: View> {
    rows: Vec<(K, V)>,
}

impl<K: Key, V: View> View for Table<K, V> {
    type V = Map<Seq<u8>, V::V>;

    closed spec fn view(&self) -> Map<Seq<u8>, V::V> {
        as_map(self.rows@)
    }
}

spec fn sorted<K: Key, V>(rows: Seq<(K, V)>) -> bool {
    forall|i: int, j: int|
        0 <= i < j < rows.len() ==> lex_lt((#[trigger] rows[i]).0.key(), (#[trigger] rows[j]).0.key())
}

spec fn holds<K: Key, V>(rows: Seq<(K, V)>, k: Seq<u8>) -> bool {
    exists|i: int| 0 <= i < rows.len() && #[trigger] rows[i].0.key() == k
}

spec fn index_of<K: Key, V>(rows: Seq<(K, V)>, k: Seq<u8>) -> int {
    choose|i: int| 0 <= i < rows.len() && #[trigger] rows[i].0.key() == k
}

spec fn as_map<K: Key, V: View>(rows: Seq<(K, V)>) -> Map<Seq<u8>, V::V> {
    Map::new(|k: Seq<u8>| holds(rows, k), |k: Seq<u8>| rows[index_of(rows, k)].1@)
}

proof fn index_unique<K: Key, V>(rows: Seq<(K, V)>, i: int)
    requires
        sorted(rows),
        0 <= i < rows.len(),
    ensures
        holds(rows, rows[i].0.key()),
        index_of(rows, rows[i].0.key()) == i,
{
    let k = rows[i].0.key();
    assert(holds(rows, k));
    let j = index_of(rows, k);
    assert(0 <= j < rows.len() && rows[j].0.key() == k);
    lex_irreflexive(k);
    if j < i {
        assert(lex_lt(rows[j].0.key(), rows[i].0.key()));
    } else if i < j {
        assert(lex_lt(rows[i].0.key(), rows[j].0.key()));
    }
}

proof fn map_at<K: Key, V: View>(rows: Seq<(K, V)>, i: int)
    requires
        sorted(rows),
        0 <= i < rows.len(),
    ensures
        as_map(rows).contains_key(rows[i].0.key()),
        as_map(rows)[rows[i].0.key()] == rows[i].1@,
{
    index_unique(rows, i);
}

proof fn lemma_inserted<K: Key, V: View>(rows: Seq<(K, V)>, i: int, row: (K, V))
    requires
        sorted(rows),
        0 <= i <= rows.len(),
        forall|j: int| 0 <= j < i ==> lex_lt(#[trigger] rows[j].0.key(), row.0.key()),
        forall|j: int| i <= j < rows.len() ==> lex_lt(row.0.key(), #[trigger] rows[j].0.key()),
    ensures
        sorted(rows.insert(i, row)),
        as_map(rows.insert(i, row)) == as_map(rows).insert(row.0.key(), row.1@),
{
    let grown = rows.insert(i, row);
    let k = row.0.key();
    assert forall|a: int, b: int| 0 <= a < b < grown.len() implies lex_lt(
        (#[trigger] grown[a]).0.key(),
        (#[trigger] grown[b]).0.key(),
    ) by {
        let a0 = if a < i { a } else { a - 1 };
        let b0 = if b < i { b } else { b - 1 };
        if a != i {
            assert(grown[a] == rows[a0]);
        }
        if b != i {
            assert(grown[b] == rows[b0]);
        }
    }
    assert forall|x: Seq<u8>| holds(grown, x) == (holds(rows, x) || x == k) by {
        if holds(rows, x) {
            let j = index_of(rows, x);
            assert(grown[if j < i { j } else { j + 1 }] == rows[j]);
        }
        if holds(grown, x) {
            let j = index_of(grown, x);
            if j != i {
                assert(grown[j] == rows[if j < i { j } else { j - 1 }]);
            }
        }
        assert(grown[i].0.key() == k);
    }
    let expect = as_map(rows).insert(k, row.1@);
    assert forall|x: Seq<u8>| holds(grown, x) implies as_map(grown)[x] == expect[x] by {
        let j = index_of(grown, x);
        map_at(grown, j);
        if j == i {
        } else {
            let j0 = if j < i { j } else { j - 1 };
            assert(grown[j] == rows[j0]);
            map_at(rows, j0);
            if x == k {
                assert(grown[i].0.key() == k);
                index_unique(grown, i);
            }
        }
    }
    assert(as_map(grown) =~= expect);
}

proof fn lemma_replaced<K: Key, V: View>(rows: Seq<(K, V)>, i: int, row: (K, V))
    requires
        sorted(rows),
        0 <= i < rows.len(),
        rows[i].0.key() == row.0.key(),
    ensures
        sorted(rows.update(i, row)),
        as_map(rows.update(i, row)) == as_map(rows).insert(row.0.key(), row.1@),
{
    let next = rows.update(i, row);
    let k = row.0.key();
    assert(forall|j: int| 0 <= j < next.len() ==> #[trigger] next[j].0.key() == rows[j].0.key());
    assert forall|a: int, b: int| 0 <= a < b < next.len() implies lex_lt(
        (#[trigger] next[a]).0.key(),
        (#[trigger] next[b]).0.key(),
    ) by {
        assert(next[a].0.key() == rows[a].0.key() && next[b].0.key() == rows[b].0.key());
    }
    assert forall|x: Seq<u8>| holds(next, x) == holds(rows, x) by {
        if holds(rows, x) {
            let j = index_of(rows, x);
            assert(next[j].0.key() == x);
        }
        if holds(next, x) {
            let j = index_of(next, x);
            assert(rows[j].0.key() == x);
        }
    }
    let expect = as_map(rows).insert(k, row.1@);
    index_unique(rows, i);
    assert forall|x: Seq<u8>| holds(next, x) implies as_map(next)[x] == expect[x] by {
        let j = index_of(next, x);
        map_at(next, j);
        map_at(rows, j);
        if x == k {
            assert(next[i].0.key() == k);
            index_unique(next, i);
        } else {
            assert(j != i);
        }
    }
    assert(as_map(next) =~= expect);
}

proof fn lemma_removed<K: Key, V: View>(rows: Seq<(K, V)>, i: int)
    requires
        sorted(rows),
        0 <= i < rows.len(),
    ensures
        sorted(rows.remove(i)),
        as_map(rows.remove(i)) == as_map(rows).remove(rows[i].0.key()),
{
    let next = rows.remove(i);
    let k = rows[i].0.key();
    assert forall|a: int, b: int| 0 <= a < b < next.len() implies lex_lt(
        (#[trigger] next[a]).0.key(),
        (#[trigger] next[b]).0.key(),
    ) by {
        assert(next[a] == rows[if a < i { a } else { a + 1 }]);
        assert(next[b] == rows[if b < i { b } else { b + 1 }]);
    }
    assert forall|x: Seq<u8>| holds(next, x) == (holds(rows, x) && x != k) by {
        if holds(rows, x) && x != k {
            let j = index_of(rows, x);
            assert(next[if j < i { j } else { j - 1 }] == rows[j]);
        }
        if holds(next, x) {
            let j = index_of(next, x);
            let j0 = if j < i { j } else { j + 1 };
            assert(next[j] == rows[j0]);
            index_unique(rows, i);
            index_unique(rows, j0);
        }
    }
    let expect = as_map(rows).remove(k);
    assert forall|x: Seq<u8>| holds(next, x) implies as_map(next)[x] == expect[x] by {
        let j = index_of(next, x);
        let j0 = if j < i { j } else { j + 1 };
        assert(next[j] == rows[j0]);
        map_at(next, j);
        map_at(rows, j0);
    }
    assert(as_map(next) =~= expect);
}

impl<K: Key, V: View> Table<K, V> {
    #[verifier::type_invariant]
    spec fn ordered(&self) -> bool {
        sorted(self.rows@)
    }

    /// The entries in key order.
    pub closed spec fn entries(&self) -> Seq<(Seq<u8>, V::V)> {
        Seq::new(self.rows@.len(), |i: int| (self.rows@[i].0.key(), self.rows@[i].1@))
    }

    proof fn lemma_entries(&self)
        requires
            sorted(self.rows@),
        ensures
            is_listing(self@, any_key(), self.entries()),
            listing(self@, any_key()) == self.entries(),
    {
        let s = self.entries();
        assert forall|i: int, j: int| 0 <= i < j < s.len() implies #[trigger] lex_lt(
            s[i].0,
            s[j].0,
        ) by {
            assert(s[i].0 == self.rows@[i].0.key() && s[j].0 == self.rows@[j].0.key());
        }
        assert forall|i: int| 0 <= i < s.len() implies self@.contains_key(#[trigger] s[i].0)
            && self@[s[i].0] == s[i].1 by {
            map_at(self.rows@, i);
        }
        assert forall|k: Seq<u8>| #[trigger] self@.contains_key(k) implies exists|i: int|
            0 <= i < s.len() && #[trigger] s[i].0 == k by {
            let i = index_of(self.rows@, k);
            assert(s[i].0 == k);
        }
        listing_unique(self@, any_key(), s);
    }

    pub fn new() -> (r: Self)
        ensures
            r@ == Map::<Seq<u8>, V::V>::empty(),
    {
        let r = Table { rows: Vec::new() };
        assert(r@ =~= Map::<Seq<u8>, V::V>::empty());
        r
    }

    /// Takes the rows out, leaving the table empty.
    fn take_rows(&mut self) -> (r: Vec<(K, V)>)
        ensures
            r@ == old(self).rows@,
    {
        let mut t = Table { rows: Vec::new() };
        core::mem::swap(self, &mut t);
        t.rows
    }

    pub fn len(&self) -> (n: usize)
        ensures
            n == self.entries().len(),
            is_listing(self@, any_key(), self.entries()),
            listing(self@, any_key()) == self.entries(),
            self@.dom().finite(),
            self@.dom().len() == n,
    {
        proof {
            use_type_invariant(self);
            self.lemma_entries();
            listing_finite(self@, self.entries());
        }
        self.rows.len()
    }

    pub fn key_at(&self, i: usize) -> (k: &K)
        requires
            i < self.entries().len(),
        ensures
            k.key() == self.entries()[i as int].0,
    {
        &self.rows[i].0
    }

    pub fn value_at(&self, i: usize) -> (v: &V)
        requires
            i < self.entries().len(),
        ensures
            v@ == self.entries()[i as int].1,
    {
        &self.rows[i].1
    }

    /// Index of the first entry whose key is not before `k`.
    pub fn lower_bound(&self, k: &[u8]) -> (n: usize)
        ensures
            n <= self.entries().len(),
            forall|i: int| 0 <= i < n ==> lex_lt(#[trigger] self.entries()[i].0, k@),
            forall|i: int|
                n <= i < self.entries().len() ==> !lex_lt(#[trigger] self.entries()[i].0, k@),
            is_listing(self@, any_key(), self.entries()),
            listing(self@, any_key()) == self.entries(),
    {
        proof {
            use_type_invariant(self);
            self.lemma_entries();
        }
        let mut lo: usize = 0;
        let mut hi: usize = self.rows.len();
        while lo < hi
            invariant
                sorted(self.rows@),
                lo <= hi <= self.rows@.len(),
                forall|i: int| 0 <= i < lo ==> lex_lt(#[trigger] self.entries()[i].0, k@),
                forall|i: int|
                    hi <= i < self.rows@.len() ==> !lex_lt(#[trigger] self.entries()[i].0, k@),
            decreases hi - lo,
        {
            let mid: usize = lo + (hi - lo) / 2;
            if less(self.rows[mid].0.as_key(), k) {
                proof {
                    assert forall|i: int| 0 <= i < mid + 1 implies lex_lt(
                        #[trigger] self.entries()[i].0,
                        k@,
                    ) by {
                        if i < mid {
                            assert(lex_lt(self.rows@[i].0.key(), self.rows@[mid as int].0.key()));
                            lex_transitive(
                                self.rows@[i].0.key(),
                                self.rows@[mid as int].0.key(),
                                k@,
                            );
                        }
                    }
                }
                lo = mid + 1;
            } else {
                proof {
                    assert forall|i: int| mid <= i < self.rows@.len() implies !lex_lt(
                        #[trigger] self.entries()[i].0,
                        k@,
                    ) by {
                        if mid < i && lex_lt(self.rows@[i].0.key(), k@) {
                            assert(lex_lt(self.rows@[mid as int].0.key(), self.rows@[i].0.key()));
                            lex_transitive(
                                self.rows@[mid as int].0.key(),
                                self.rows@[i].0.key(),
                                k@,
                            );
                        }
                    }
                }
                hi = mid;
            }
        }
        lo
    }

    /// The window of entries whose key starts with `prefix` and whose
    /// remainder lies in `[lo, hi)`.
    pub fn range(&self, prefix: &[u8], lo: &[u8], hi: Option<&[u8]>) -> (w: (usize, usize))
        ensures
            w.0 <= w.1 <= self.entries().len(),
            self.entries().subrange(w.0 as int, w.1 as int) == listing(
                self@,
                in_range(prefix@, lo@, opt_view(hi)),
            ),
            is_listing(
                self@,
                in_range(prefix@, lo@, opt_view(hi)),
                self.entries().subrange(w.0 as int, w.1 as int),
            ),
    {
        let mut from: Vec<u8> = copy_of(prefix);
        from.extend_from_slice(lo);
        assert(from@ =~= prefix@ + lo@);
        let a = self.lower_bound(from.as_slice());
        let n = self.len();
        let mut b: usize = a;
        let ghost p = in_range(prefix@, lo@, opt_view(hi));
        while b < n
            invariant_except_break
                forall|i: int| a <= i < b ==> p((#[trigger] self.entries()[i]).0),
            invariant
                a <= b <= n,
                n == self.entries().len(),
                from@ == prefix@ + lo@,
                p == in_range(prefix@, lo@, opt_view(hi)),
                forall|i: int| a <= i < n ==> !lex_lt(#[trigger] self.entries()[i].0, from@),
            ensures
                forall|i: int| a <= i < b ==> p((#[trigger] self.entries()[i]).0),
                b < n ==> !p(self.entries()[b as int].0),
            decreases n - b,
        {
            let k = self.key_at(b).as_key();
            if !starts_with(k, prefix) {
                break;
            }
            proof {
                lemma_prefix_split(k@, prefix@);
                lex_shared_prefix(prefix@, after(k@, prefix@.len() as int), lo@);
            }
            let rest = vstd::slice::slice_subrange(k, prefix.len(), k.len());
            if let Some(h) = hi {
                if !less(rest, h) {
                    break;
                }
            }
            b += 1;
        }
        proof {
            let all = self.entries();
            let s = all.subrange(a as int, b as int);
            assert forall|i: int| 0 <= i < a implies !p(#[trigger] all[i].0) by {
                let k = all[i].0;
                if has_prefix(k, prefix@) {
                    lemma_prefix_split(k, prefix@);
                    lex_shared_prefix(prefix@, after(k, prefix@.len() as int), lo@);
                }
            }
            assert forall|i: int| b <= i < n implies !p(#[trigger] all[i].0) by {
                let k = all[i].0;
                if p(k) && i > b {
                    let kb = all[b as int].0;
                    let rest = after(k, prefix@.len() as int);
                    lemma_prefix_split(k, prefix@);
                    assert(lex_lt(kb, k));
                    lex_asymmetric(kb, k);
                    lex_between(prefix@, lo@, kb, rest);
                    lemma_prefix_split(kb, prefix@);
                    let rb = after(kb, prefix@.len() as int);
                    lex_shared_prefix(prefix@, rb, lo@);
                    lex_shared_prefix(prefix@, rb, rest);
                    if hi is Some {
                        lex_transitive(rb, rest, hi->0@);
                    }
                    assert(p(kb));
                }
            }
            assert forall|i: int, j: int| 0 <= i < j < s.len() implies #[trigger] lex_lt(
                s[i].0,
                s[j].0,
            ) by {
                assert(lex_lt(all[a + i].0, all[a + j].0));
            }
            assert forall|i: int| 0 <= i < s.len() implies self@.contains_key(#[trigger] s[i].0)
                && p(s[i].0) && self@[s[i].0] == s[i].1 by {
                assert(self@.contains_key(all[a + i].0));
            }
            assert forall|k: Seq<u8>| #[trigger] self@.contains_key(k) && p(k) implies exists|i: int|
                0 <= i < s.len() && #[trigger] s[i].0 == k by {
                assert(any_key()(k));
                let i = choose|i: int| 0 <= i < all.len() && #[trigger] all[i].0 == k;
                assert(a <= i < b);
                assert(s[i - a].0 == k);
            }
            listing_unique(self@, p, s);
        }
        (a, b)
    }

    pub fn get(&self, k: &[u8]) -> (r: Option<&V>)
        ensures
            r is Some == self@.contains_key(k@),
            r is Some ==> r->0@ == self@[k@],
    {
        proof {
            use_type_invariant(self);
        }
        let i = self.lower_bound(k);
        if i < self.rows.len() && same(self.rows[i].0.as_key(), k) {
            proof {
                map_at(self.rows@, i as int);
            }
            Some(&self.rows[i].1)
        } else {
            proof {
                if holds(self.rows@, k@) {
                    let j = index_of(self.rows@, k@);
                    assert(self.entries()[j].0 == k@);
                    lex_irreflexive(k@);
                    assert(j >= i);
                    if j > i {
                        assert(lex_lt(self.rows@[i as int].0.key(), self.rows@[j].0.key()));
                        assert(self.entries()[i as int].0 == self.rows@[i as int].0.key());
                    }
                }
            }
            None
        }
    }

    pub fn contains(&self, k: &[u8]) -> (r: bool)
        ensures
            r == self@.contains_key(k@),
    {
        self.get(k).is_some()
    }

    pub fn insert(&mut self, k: K, v: V)
        ensures
            final(self)@ == old(self)@.insert(k.key(), v@),
    {
        proof {
            use_type_invariant(&*self);
        }
        let i = self.lower_bound(k.as_key());
        let ghost rows = self.rows@;
        let ghost row = (k, v);
        if i < self.rows.len() && same(self.rows[i].0.as_key(), k.as_key()) {
            proof {
                lemma_replaced(rows, i as int, row);
            }
            let mut taken: Vec<(K, V)> = self.take_rows();
            taken[i] = (k, v);
            *self = Table { rows: taken };
        } else {
            proof {
                assert forall|j: int| 0 <= j < i implies lex_lt(
                    #[trigger] rows[j].0.key(),
                    row.0.key(),
                ) by {
                    assert(self.entries()[j].0 == rows[j].0.key());
                }
                assert forall|j: int| i <= j < rows.len() implies lex_lt(
                    row.0.key(),
                    #[trigger] rows[j].0.key(),
                ) by {
                    assert(self.entries()[j].0 == rows[j].0.key());
                    lex_total(row.0.key(), rows[j].0.key());
                    if row.0.key() == rows[j].0.key() && j > i {
                        assert(lex_lt(rows[i as int].0.key(), rows[j].0.key()));
                        assert(self.entries()[i as int].0 == rows[i as int].0.key());
                    }
                }
                lemma_inserted(rows, i as int, row);
            }
            let mut taken: Vec<(K, V)> = self.take_rows();
            taken.insert(i, (k, v));
            *self = Table { rows: taken };
        }
    }

    pub fn remove(&mut self, k: &[u8]) -> (r: Option<V>)
        ensures
            final(self)@ == old(self)@.remove(k@),
            r is Some == old(self)@.contains_key(k@),
            r is Some ==> r->0@ == old(self)@[k@],
    {
        proof {
            use_type_invariant(&*self);
        }
        let ghost before = self@;
        let found = self.contains(k);
        let i = self.lower_bound(k);
        if !found {
            assert(before.remove(k@) =~= before);
            return None;
        }
        let ghost rows = self.rows@;
        proof {
            let j = index_of(rows, k@);
            assert(self.entries()[j].0 == rows[j].0.key());
            lex_irreflexive(k@);
            assert(j >= i);
            if j > i {
                assert(lex_lt(rows[i as int].0.key(), rows[j].0.key()));
                assert(self.entries()[i as int].0 == rows[i as int].0.key());
            }
            lemma_removed(rows, i as int);
            map_at(rows, i as int);
        }
        let mut taken: Vec<(K, V)> = self.take_rows();
        let row = taken.remove(i);
        *self = Table { rows: taken };
        Some(row.1)
    }


    /// The keys that start with `prefix`, in order.
    pub fn keys_under(&self, prefix: &[u8]) -> (r: Vec<K>)
        ensures
            r.len() == listing(self@, under(prefix@)).len(),
            is_listing(self@, under(prefix@), listing(self@, under(prefix@))),
            forall|i: int|
                0 <= i < r.len() ==> (#[trigger] r@[i]).key() == listing(
                    self@,
                    under(prefix@),
                )[i].0,
    {
        let none: Vec<u8> = Vec::new();
        assert(none@ =~= Seq::<u8>::empty());
        let (a, b) = self.range(prefix, none.as_slice(), None);
        let ghost l = listing(self@, under(prefix@));
        let mut r: Vec<K> = Vec::new();
        let mut i: usize = a;
        while i < b
            invariant
                a <= i <= b <= self.entries().len(),
                l == self.entries().subrange(a as int, b as int),
                r.len() == i - a,
                forall|j: int| 0 <= j < r.len() ==> (#[trigger] r@[j]).key() == l[j].0,
            decreases b - i,
        {
            let k = self.key_at(i);
            assert(l[i - a] == self.entries()[i as int]);
            r.push(k.copy_key());
            i += 1;
        }
        r
    }

    /// Drops every entry whose key starts with `prefix`.
    pub fn remove_under(&mut self, prefix: &[u8])
        ensures
            final(self)@ == without_prefix(old(self)@, prefix@),
    {
        let keys = self.keys_under(prefix);
        let ghost m = self@;
        let ghost l = listing(m, under(prefix@));
        let mut i: usize = 0;
        while i < keys.len()
            invariant
                i <= keys.len(),
                m == old(self)@,
                l == listing(m, under(prefix@)),
                is_listing(m, under(prefix@), l),
                keys.len() == l.len(),
                forall|j: int| 0 <= j < keys.len() ==> (#[trigger] keys@[j]).key() == l[j].0,
                forall|k: Seq<u8>| #[trigger]
                    self@.contains_key(k) <==> m.contains_key(k) && !(exists|j: int|
                        0 <= j < i && #[trigger] l[j].0 == k),
                forall|k: Seq<u8>| #[trigger] self@.contains_key(k) ==> self@[k] == m[k],
            decreases keys.len() - i,
        {
            let ghost before = self@;
            self.remove(keys[i].as_key());
            proof {
                let gone = l[i as int].0;
                assert forall|k: Seq<u8>| #[trigger]
                    self@.contains_key(k) <==> m.contains_key(k) && !(exists|j: int|
                        0 <= j < i + 1 && #[trigger] l[j].0 == k) by {
                    if m.contains_key(k) && !(exists|j: int| 0 <= j < i && #[trigger] l[j].0 == k) {
                        assert(before.contains_key(k));
                        if k != gone && (exists|j: int| 0 <= j < i + 1 && #[trigger] l[j].0 == k) {
                            let j = choose|j: int| 0 <= j < i + 1 && #[trigger] l[j].0 == k;
                            assert(j == i);
                        }
                        if k == gone {
                            assert(l[i as int].0 == k);
                        }
                    }
                    if exists|j: int| 0 <= j < i && #[trigger] l[j].0 == k {
                        let j = choose|j: int| 0 <= j < i && #[trigger] l[j].0 == k;
                        assert(0 <= j < i + 1 && l[j].0 == k);
                    }
                }
            }
            i += 1;
        }
        proof {
            let want = without_prefix(m, prefix@);
            assert forall|k: Seq<u8>| self@.contains_key(k) == want.contains_key(k) by {
                lemma_under(prefix@, k);
                if m.contains_key(k) && has_prefix(k, prefix@) {
                    assert(under(prefix@)(k));
                    let j = choose|j: int| 0 <= j < l.len() && #[trigger] l[j].0 == k;
                    assert(0 <= j < keys.len() && l[j].0 == k);
                }
                if exists|j: int| 0 <= j < keys.len() && #[trigger] l[j].0 == k {
                    let j = choose|j: int| 0 <= j < keys.len() && #[trigger] l[j].0 == k;
                    assert(under(prefix@)(l[j].0));
                }
            }
            assert(self@ =~= want);
        }
    }
}

/// `m` without the keys that start with `prefix`.
pub open spec fn without_prefix<V>(m: Map<Seq<u8>, V>, prefix: Seq<u8>) -> Map<Seq<u8>, V> {
    Map::new(|k: Seq<u8>| m.contains_key(k) && !has_prefix(k, prefix), |k: Seq<u8>| m[k])
}

impl<K: Key, V: Dup> Dup for Table<K, V> {
    fn dup(&self) -> (r: Self) {
        let mut r: Table<K, V> = Table::new();
        let n = self.len();
        let ghost l = self.entries();
        let mut i: usize = 0;
        while i < n
            invariant
                i <= n,
                n == l.len(),
                l == self.entries(),
                is_listing(self@, any_key(), l),
                forall|k: Seq<u8>| #[trigger]
                    r@.contains_key(k) <==> (exists|j: int| 0 <= j < i && #[trigger] l[j].0 == k),
                forall|j: int| 0 <= j < i ==> r@[(#[trigger] l[j]).0] == l[j].1,
            decreases n - i,
        {
            let ghost before = r@;
            let k = self.key_at(i).copy_key();
            r.insert(k, self.value_at(i).dup());
            proof {
                assert forall|x: Seq<u8>| #[trigger]
                    r@.contains_key(x) <==> (exists|j: int|
                        0 <= j < i + 1 && #[trigger] l[j].0 == x) by {
                    if x == l[i as int].0 {
                        assert(0 <= i < i + 1 && l[i as int].0 == x);
                    }
                    if exists|j: int| 0 <= j < i + 1 && #[trigger] l[j].0 == x {
                        let j = choose|j: int| 0 <= j < i + 1 && #[trigger] l[j].0 == x;
                        if j < i {
                            assert(before.contains_key(x));
                        }
                    }
                    if before.contains_key(x) {
                        let j = choose|j: int| 0 <= j < i && #[trigger] l[j].0 == x;
                        assert(0 <= j < i + 1 && l[j].0 == x);
                    }
                }
                assert forall|j: int| 0 <= j < i + 1 implies r@[(#[trigger] l[j]).0] == l[j].1 by {
                    if j < i {
                        assert(lex_lt(l[j].0, l[i as int].0));
                        lex_irreflexive(l[j].0);
                    }
                }
            }
            i += 1;
        }
        proof {
            assert forall|k: Seq<u8>| r@.contains_key(k) == self@.contains_key(k) by {
                if self@.contains_key(k) {
                    assert(any_key()(k));
                    let j = choose|j: int| 0 <= j < l.len() && #[trigger] l[j].0 == k;
                    assert(0 <= j < n && l[j].0 == k);
                }
            }
            assert forall|k: Seq<u8>| r@.contains_key(k) implies r@[k] == self@[k] by {
                let j = choose|j: int| 0 <= j < n && #[trigger] l[j].0 == k;
                assert(r@[l[j].0] == l[j].1);
            }
            assert(r@ =~= self@);
        }
        r
    }
}

} // verus!
