//! Numbers in keys: decimals padded to 16 digits, and 8-byte big-endian
//! integers.
use vstd::prelude::*;

use crate::order::{diverge, lex_lt, lex_same_length, lex_shared_prefix};

verus! {

/// The decimal digits of `v`, without leading zeros.
pub open spec fn digits(v: nat) -> Seq<u8>
    decreases v,
{
    if v < 10 {
        seq![(48 + v) as u8]
    } else {
        digits(v / 10).push((48 + v % 10) as u8)
    }
}

/// `n` zero digits.
pub open spec fn zeros(n: nat) -> Seq<u8> {
    Seq::new(n, |i: int| 48u8)
}

/// `s` padded with zeros on the left to at least `width`.
pub open spec fn padded(s: Seq<u8>, width: nat) -> Seq<u8> {
    if s.len() < width {
        zeros((width - s.len()) as nat) + s
    } else {
        s
    }
}

/// `v` in decimal, padded to at least 16 digits.
pub open spec fn dec16(v: nat) -> Seq<u8> {
    padded(digits(v), 16)
}

/// A signed number padded to at least 16 places, the sign counted.
pub open spec fn dec16_signed(v: int) -> Seq<u8> {
    if v < 0 {
        seq![0x2du8] + padded(digits((-v) as nat), 15)
    } else {
        dec16(v as nat)
    }
}

/// The last `n` decimal digits of `v`.
pub open spec fn fixed(v: nat, n: nat) -> Seq<u8>
    decreases n,
{
    if n == 0 {
        Seq::empty()
    } else {
        fixed(v / 10, (n - 1) as nat).push((48 + v % 10) as u8)
    }
}

pub open spec fn pow10(n: nat) -> nat
    decreases n,
{
    if n == 0 {
        1
    } else {
        10 * pow10((n - 1) as nat)
    }
}

pub proof fn fixed_len(v: nat, n: nat)
    ensures
        fixed(v, n).len() == n,
    decreases n,
{
    if n > 0 {
        fixed_len(v / 10, (n - 1) as nat);
    }
}

proof fn fixed_zero(n: nat)
    ensures
        fixed(0, n) == zeros(n),
    decreases n,
{
    if n > 0 {
        fixed_zero((n - 1) as nat);
        assert(0nat / 10 == 0);
        assert(fixed(0, n) =~= zeros(n));
    } else {
        assert(fixed(0, n) =~= zeros(n));
    }
}

/// A number below `10^n` padded to `n` digits is its last `n` digits.
proof fn padded_is_fixed(v: nat, n: nat)
    requires
        v < pow10(n),
        n >= 1,
    ensures
        digits(v).len() <= n,
        padded(digits(v), n) == fixed(v, n),
    decreases n,
{
    let m = (n - 1) as nat;
    if v < 10 {
        assert(v / 10 == 0 && v % 10 == v);
        fixed_zero(m);
        assert(padded(digits(v), n) =~= fixed(v, n));
    } else {
        assert(pow10(n) == 10 * pow10(m));
        assert(v / 10 < pow10(m));
        if m == 0 {
            assert(pow10(0) == 1);
            assert(false);
        }
        padded_is_fixed(v / 10, m);
        assert(padded(digits(v), n) =~= fixed(v, n));
    }
}

/// Fixed-width decimals sort by value.
pub proof fn fixed_order(v: nat, w: nat, n: nat)
    requires
        v < w < pow10(n),
    ensures
        lex_lt(fixed(v, n), fixed(w, n)),
    decreases n,
{
    if n == 0 {
        assert(pow10(0) == 1);
    } else {
        let m = (n - 1) as nat;
        assert(pow10(n) == 10 * pow10(m));
        fixed_len(v / 10, m);
        fixed_len(w / 10, m);
        let a = fixed(v / 10, m);
        let b = fixed(w / 10, m);
        let x = seq![(48 + v % 10) as u8];
        let y = seq![(48 + w % 10) as u8];
        assert(fixed(v, n) =~= a + x);
        assert(fixed(w, n) =~= b + y);
        if v / 10 < w / 10 {
            fixed_order(v / 10, w / 10, m);
            lex_same_length(a, b, x, y);
        } else {
            assert(v / 10 == w / 10);
            assert(v % 10 < w % 10);
            assert(diverge(x, y, 0));
            lex_shared_prefix(a, x, y);
        }
    }
}

pub open spec fn is_digit(b: u8) -> bool {
    48 <= b <= 57
}

pub open spec fn all_digits(s: Seq<u8>) -> bool {
    forall|i: int| 0 <= i < s.len() ==> is_digit(#[trigger] s[i])
}

/// The number that a run of digits stands for.
pub open spec fn dec_value(s: Seq<u8>) -> nat
    decreases s.len(),
{
    if s.len() == 0 {
        0
    } else {
        (dec_value(s.drop_last()) * 10 + (s.last() - 48)) as nat
    }
}

/// A run of digits stands for less than its power of ten.
proof fn dec_value_bound(s: Seq<u8>)
    requires
        all_digits(s),
    ensures
        dec_value(s) < pow10(s.len()),
    decreases s.len(),
{
    if s.len() > 0 {
        let t = s.drop_last();
        assert forall|i: int| 0 <= i < t.len() implies is_digit(#[trigger] t[i]) by {
            assert(t[i] == s[i]);
        }
        dec_value_bound(t);
        assert(pow10(s.len()) == 10 * pow10(t.len()));
        assert(is_digit(s[s.len() - 1]));
    }
}

/// The 64-bit number that bytes write down as keys do: in decimal, padded to 16
/// digits, without zeros beyond those.
#[verifier::opaque]
pub open spec fn numeral(s: Seq<u8>) -> Option<nat> {
    if all_digits(s) && dec_value(s) <= u64::MAX && s == dec16(dec_value(s)) {
        Some(dec_value(s))
    } else {
        None
    }
}

proof fn digits_value(v: nat)
    ensures
        all_digits(digits(v)),
        dec_value(digits(v)) == v,
        digits(v).len() > 0,
    decreases v,
{
    let s = digits(v);
    if v < 10 {
        assert(s.drop_last() =~= Seq::<u8>::empty());
        assert(dec_value(Seq::<u8>::empty()) == 0);
        assert(s.last() == (48 + v) as u8);
    } else {
        digits_value(v / 10);
        assert(s.drop_last() =~= digits(v / 10));
        assert(s.last() == (48 + v % 10) as u8);
        assert forall|i: int| 0 <= i < s.len() implies is_digit(#[trigger] s[i]) by {
            if i < s.len() - 1 {
                assert(s[i] == digits(v / 10)[i]);
            }
        }
    }
}

proof fn zeros_value(n: nat, s: Seq<u8>)
    requires
        all_digits(s),
    ensures
        all_digits(zeros(n) + s),
        dec_value(zeros(n) + s) == dec_value(s),
    decreases n + s.len(),
{
    let t = zeros(n) + s;
    assert forall|i: int| 0 <= i < t.len() implies is_digit(#[trigger] t[i]) by {
        if i >= n {
            assert(t[i] == s[i - n]);
        }
    }
    if s.len() > 0 {
        let r = s.drop_last();
        assert forall|i: int| 0 <= i < r.len() implies is_digit(#[trigger] r[i]) by {
            assert(r[i] == s[i]);
        }
        zeros_value(n, r);
        assert(t.drop_last() =~= zeros(n) + r);
        assert(t.last() == s.last());
    } else if n > 0 {
        zeros_value((n - 1) as nat, s);
        assert(t.drop_last() =~= zeros((n - 1) as nat) + s);
        assert(t.last() == 48);
    } else {
        assert(t =~= s);
    }
}

/// A number can be read back from its digits.
pub proof fn dec16_value(v: nat)
    ensures
        all_digits(dec16(v)),
        dec_value(dec16(v)) == v,
        dec16(v).len() >= 16,
        v < pow10(dec16(v).len()),
{
    digits_value(v);
    if digits(v).len() < 16 {
        zeros_value((16 - digits(v).len()) as nat, digits(v));
    }
    dec_value_bound(dec16(v));
}

/// A 64-bit number can be read back from its digits in a key.
pub proof fn numeral_of(v: nat)
    requires
        v <= u64::MAX,
    ensures
        numeral(dec16(v)) == Some(v),
        all_digits(dec16(v)),
        16 <= dec16(v).len() <= 20,
{
    reveal(numeral);
    dec16_value(v);
    digits_bound(v);
}

/// Bytes that write a number down are its digits.
pub proof fn numeral_digits(s: Seq<u8>)
    ensures
        numeral(s) is Some ==> numeral(s)->0 <= u64::MAX && s == dec16(numeral(s)->0),
{
    reveal(numeral);
}

/// The digits of a number in a key, by how many there are.
proof fn dec16_is_fixed(v: nat)
    ensures
        dec16(v) == fixed(v, dec16(v).len()),
{
    dec16_value(v);
    let n = dec16(v).len();
    padded_is_fixed(v, n);
    assert(padded(digits(v), n) == dec16(v));
}

/// Numbers in keys sort by length, then by their bytes.
pub proof fn dec16_order(v: nat, w: nat)
    ensures
        v < w ==> dec16(v).len() <= dec16(w).len(),
        dec16(v).len() == dec16(w).len() ==> lex_lt(dec16(v), dec16(w)) == (v < w),
        (dec16(v) == dec16(w)) == (v == w),
{
    dec16_value(v);
    dec16_value(w);
    dec16_is_fixed(v);
    dec16_is_fixed(w);
    let n = dec16(w).len();
    if v < w {
        padded_is_fixed(v, n);
        if dec16(v).len() == n {
            fixed_order(v, w, n);
            crate::order::lex_asymmetric(dec16(v), dec16(w));
        }
    } else if w < v {
        if dec16(v).len() == n {
            fixed_order(w, v, n);
            crate::order::lex_asymmetric(dec16(w), dec16(v));
        }
    } else {
        crate::order::lex_irreflexive(dec16(v));
    }
}

/// A number does not start with a zero.
proof fn digits_lead(v: nat)
    requires
        v > 0,
    ensures
        digits(v).len() > 0,
        digits(v)[0] > 48,
    decreases v,
{
    if v >= 10 {
        digits_lead(v / 10);
    }
}

/// Where keys pad: below 10^15 the first of 16 digits is a zero, from there on
/// none is, and below 10^16 there are 16 of them.
pub proof fn dec16_lead(v: nat)
    ensures
        v < 1_000_000_000_000_000 ==> dec16(v)[0] == 48,
        v >= 1_000_000_000_000_000 ==> dec16(v)[0] > 48,
        v < 10_000_000_000_000_000 ==> dec16(v).len() == 16,
        dec16(v).len() >= 16,
{
    reveal_with_fuel(pow10, 17);
    digits_value(v);
    dec_value_bound(digits(v));
    if v < 1_000_000_000_000_000 {
        padded_is_fixed(v, 15);
        assert(dec16(v)[0] == zeros((16 - digits(v).len()) as nat)[0]);
    } else {
        digits_lead(v);
        if digits(v).len() < 16 {
            pow10_grows(digits(v).len(), 15);
        }
    }
    if v < 10_000_000_000_000_000 {
        padded_is_fixed(v, 16);
    }
}

proof fn pow10_grows(a: nat, b: nat)
    requires
        a <= b,
    ensures
        pow10(a) <= pow10(b),
    decreases b - a,
{
    if a < b {
        pow10_grows(a + 1, b);
        assert(pow10(a + 1) == 10 * pow10(a));
    }
}

/// A run of digits is its number in as many digits.
proof fn run_is_fixed(s: Seq<u8>)
    requires
        all_digits(s),
    ensures
        s == fixed(dec_value(s), s.len()),
        dec_value(s) < pow10(s.len()),
    decreases s.len(),
{
    dec_value_bound(s);
    if s.len() > 0 {
        let t = s.drop_last();
        assert forall|i: int| 0 <= i < t.len() implies is_digit(#[trigger] t[i]) by {
            assert(t[i] == s[i]);
        }
        run_is_fixed(t);
        let d = s.last();
        assert(is_digit(s[s.len() - 1]));
        let v = dec_value(s);
        assert(v / 10 == dec_value(t) && v % 10 == d - 48);
    }
    assert(s =~= fixed(dec_value(s), s.len()));
}

/// Which runs of digits are numbers as keys write them.
proof fn numeral_form(s: Seq<u8>)
    requires
        all_digits(s),
        s.len() >= 16,
    ensures
        (s == dec16(dec_value(s))) == (s.len() == 16 || s[0] != 48),
{
    let v = dec_value(s);
    let n = s.len();
    run_is_fixed(s);
    padded_is_fixed(v, n);
    if n > 16 {
        let head = seq![s[0]];
        let rest = s.drop_first();
        if s[0] == 48 {
            assert(zeros(1) + rest =~= s);
            assert forall|i: int| 0 <= i < rest.len() implies is_digit(#[trigger] rest[i]) by {
                assert(rest[i] == s[i + 1]);
            }
            zeros_value(1, rest);
            dec_value_bound(rest);
            padded_is_fixed(v, (n - 1) as nat);
            assert(dec16(v).len() < n);
        } else {
            assert(padded(digits(v), n) == s);
            if digits(v).len() < n {
                assert(padded(digits(v), n)[0] == 48);
            }
        }
    }
}

/// The decimal digits of `v`.
pub fn to_digits(v: u64) -> (r: Vec<u8>)
    ensures
        r@ == digits(v as nat),
        1 <= r.len() <= 20,
    decreases v,
{
    if v < 10 {
        let mut r: Vec<u8> = Vec::new();
        r.push(48 + v as u8);
        assert(r@ =~= digits(v as nat));
        r
    } else {
        let mut r = to_digits(v / 10);
        let ghost head = r@;
        r.push(48 + (v % 10) as u8);
        proof {
            digits_bound(v as nat);
        }
        assert(r@ =~= digits(v as nat));
        r
    }
}

/// A 64-bit number has at most 20 digits.
proof fn digits_bound(v: nat)
    requires
        v <= u64::MAX,
    ensures
        digits(v).len() <= 20,
{
    reveal_with_fuel(pow10, 21);
    assert(pow10(20) == 100_000_000_000_000_000_000nat);
    padded_is_fixed(v, 20);
}

/// Appends `s` padded with zeros to at least `width`.
fn push_padded(out: &mut Vec<u8>, s: &Vec<u8>, width: usize)
    ensures
        final(out)@ == old(out)@ + padded(s@, width as nat),
{
    let ghost start = out@;
    let ghost pad: nat = if s.len() < width {
        (width - s.len()) as nat
    } else {
        0
    };
    let mut n: usize = s.len();
    while n < width
        invariant
            s.len() <= n,
            n <= width || n == s.len(),
            out@ == start + zeros((n - s.len()) as nat),
        decreases width - n,
    {
        out.push(48);
        n += 1;
        assert(out@ =~= start + zeros((n - s.len()) as nat));
    }
    out.extend_from_slice(s.as_slice());
    assert(out@ =~= start + padded(s@, width as nat));
}

/// Appends `v` in decimal, padded to at least 16 digits.
pub fn push_dec16(out: &mut Vec<u8>, v: u64)
    ensures
        final(out)@ == old(out)@ + dec16(v as nat),
{
    let d = to_digits(v);
    push_padded(out, &d, 16);
}

/// Appends a signed number padded to at least 16 places.
pub fn push_dec16_signed(out: &mut Vec<u8>, v: i64)
    ensures
        final(out)@ == old(out)@ + dec16_signed(v as int),
{
    let ghost start = out@;
    if v >= 0 {
        push_dec16(out, v as u64);
    } else {
        out.push(0x2d);
        let m: u64 = if v == i64::MIN {
            0x8000_0000_0000_0000
        } else {
            (-v) as u64
        };
        let d = to_digits(m);
        push_padded(out, &d, 15);
        assert(out@ =~= start + dec16_signed(v as int));
    }
}

/// Reads a number as keys write it.
pub fn read_numeral(s: &[u8]) -> (r: Option<u64>)
    ensures
        match r {
            Some(v) => numeral(s@) == Some(v as nat),
            None => numeral(s@) is None,
        },
{
    let ghost d = s@;
    proof {
        reveal(numeral);
        if numeral(d) is Some {
            numeral_of(dec_value(d));
        }
    }
    if s.len() < 16 || s.len() > 20 || (s.len() > 16 && s[0] == 48) {
        proof {
            if all_digits(d) && d.len() >= 16 {
                numeral_form(d);
            }
        }
        return None;
    }
    let mut v: u64 = 0;
    let mut i: usize = 0;
    while i < s.len()
        invariant
            i <= s.len() <= 20,
            d == s@,
            all_digits(d.take(i as int)),
            v == dec_value(d.take(i as int)),
        decreases s.len() - i,
    {
        let b = s[i];
        let ghost t = d.take(i as int);
        let ghost u = d.take(i + 1);
        proof {
            assert(u.drop_last() =~= t);
            assert(u.last() == b);
        }
        if b < 48 || b > 57 {
            proof {
                reveal(numeral);
                assert(!is_digit(d[i as int]));
            }
            return None;
        }
        let c: u64 = (b - 48) as u64;
        proof {
            assert forall|j: int| 0 <= j < u.len() implies is_digit(#[trigger] u[j]) by {
                if j < t.len() {
                    assert(u[j] == t[j]);
                }
            }
        }
        if v > (u64::MAX - c) / 10 {
            proof {
                reveal(numeral);
                if all_digits(d) {
                    prefix_value(d, i + 1);
                }
            }
            return None;
        }
        v = v * 10 + c;
        i += 1;
    }
    proof {
        assert(d.take(i as int) =~= d);
        numeral_form(d);
    }
    Some(v)
}

/// The digits up to a place stand for no more than all of them.
proof fn prefix_value(s: Seq<u8>, n: int)
    requires
        all_digits(s),
        0 <= n <= s.len(),
    ensures
        dec_value(s.take(n)) <= dec_value(s),
    decreases s.len() - n,
{
    if n < s.len() {
        prefix_value(s, n + 1);
        let u = s.take(n + 1);
        assert(u.drop_last() =~= s.take(n));
        assert(is_digit(s[n]));
        assert(u.last() == s[n]);
    } else {
        assert(s.take(n) =~= s);
    }
}

/// The last `n` bytes of `v`, most significant first.
pub open spec fn be(v: nat, n: nat) -> Seq<u8>
    decreases n,
{
    if n == 0 {
        Seq::empty()
    } else {
        be(v / 256, (n - 1) as nat).push((v % 256) as u8)
    }
}

/// The last `n` bytes of `v`, least significant first.
pub open spec fn le(v: nat, n: nat) -> Seq<u8>
    decreases n,
{
    if n == 0 {
        Seq::empty()
    } else {
        seq![(v % 256) as u8] + le(v / 256, (n - 1) as nat)
    }
}

/// The number that bytes stand for, most significant first.
pub open spec fn be_value(s: Seq<u8>) -> nat
    decreases s.len(),
{
    if s.len() == 0 {
        0
    } else {
        be_value(s.drop_last()) * 256 + s.last() as nat
    }
}

pub open spec fn pow256(n: nat) -> nat
    decreases n,
{
    if n == 0 {
        1
    } else {
        256 * pow256((n - 1) as nat)
    }
}

proof fn be_roundtrip(v: nat, n: nat)
    requires
        v < pow256(n),
    ensures
        be(v, n).len() == n,
        be_value(be(v, n)) == v,
    decreases n,
{
    if n > 0 {
        let m = (n - 1) as nat;
        assert(pow256(n) == 256 * pow256(m));
        be_roundtrip(v / 256, m);
        assert(be(v, n).drop_last() =~= be(v / 256, m));
    }
}

/// The value in a cell of 8 bytes; any other length reads as 0.
pub open spec fn cell_value(s: Seq<u8>) -> nat {
    if s.len() == 8 {
        be_value(s)
    } else {
        0
    }
}

/// A 64-bit number survives the trip through its 8 bytes.
pub proof fn be8_roundtrip(v: u64)
    ensures
        be(v as nat, 8).len() == 8,
        cell_value(be(v as nat, 8)) == v,
{
    reveal_with_fuel(pow256, 9);
    be_roundtrip(v as nat, 8);
}

proof fn be_value_bound(s: Seq<u8>)
    ensures
        be_value(s) < pow256(s.len()),
    decreases s.len(),
{
    if s.len() > 0 {
        be_value_bound(s.drop_last());
        assert(pow256(s.len()) == 256 * pow256((s.len() - 1) as nat));
    }
}

/// A cell holds a 64-bit number.
pub proof fn cell_bound(s: Seq<u8>)
    ensures
        cell_value(s) <= u64::MAX,
{
    reveal_with_fuel(pow256, 9);
    be_value_bound(s);
}

/// `v` as `n` bytes, most significant first.
fn be_bytes_n(v: u64, n: usize) -> (r: Vec<u8>)
    ensures
        r@ == be(v as nat, n as nat),
    decreases n,
{
    if n == 0 {
        let r: Vec<u8> = Vec::new();
        assert(r@ =~= be(v as nat, 0));
        r
    } else {
        let mut r = be_bytes_n(v / 256, n - 1);
        r.push((v % 256) as u8);
        r
    }
}

/// `v` as 8 bytes, most significant first.
pub fn be_bytes(v: u64) -> (r: Vec<u8>)
    ensures
        r@ == be(v as nat, 8),
{
    be_bytes_n(v, 8)
}

/// The number in a cell of 8 bytes; any other length reads as 0.
pub fn cell(s: &[u8]) -> (v: u64)
    ensures
        v == cell_value(s@),
{
    if s.len() != 8 {
        return 0;
    }
    let mut v: u64 = 0;
    let mut i: usize = 0;
    while i < 8
        invariant
            i <= 8,
            s.len() == 8,
            v == be_value(s@.take(i as int)),
        decreases 8 - i,
    {
        proof {
            let t = s@.take(i as int);
            assert(s@.take(i + 1).drop_last() =~= t);
            be_value_bound(t);
            reveal_with_fuel(pow256, 9);
        }
        v = v * 256 + s[i] as u64;
        i += 1;
    }
    assert(s@.take(8) =~= s@);
    v
}

} // verus!
