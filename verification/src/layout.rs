//! The key space: which keys can meet and which cannot.
use vstd::prelude::*;
use vstd::string::*;

use crate::digits::{dec16, dec16_order, is_digit, numeral_of};
use crate::kv::{
    compactions_prefix, jobs_prefix, m_key_of, r_key_of, r_prefix_of, seq_key,
    snap_prefix_of, ts_key_of,
};
use crate::numbered::{number_key, number_of, number_written};
use crate::order::{has_prefix, lemma_prefix_of_concat};
use crate::text::{utf8, SLASH};

verus! {

/// The bytes of the fixed parts of keys.
pub proof fn fixed_parts()
    ensures
        utf8("tail"@) == seq![0x74u8, 0x61, 0x69, 0x6c],
        utf8("trim"@) == seq![0x74u8, 0x72, 0x69, 0x6d],
        utf8("fork"@) == seq![0x66u8, 0x6f, 0x72, 0x6b],
        utf8("fence"@) == seq![0x66u8, 0x65, 0x6e, 0x63, 0x65],
        utf8("deleted"@) == seq![0x64u8, 0x65, 0x6c, 0x65, 0x74, 0x65, 0x64],
        utf8("forks/"@) == seq![0x66u8, 0x6f, 0x72, 0x6b, 0x73, 0x2f],
        utf8("rollback/"@) == seq![0x72u8, 0x6f, 0x6c, 0x6c, 0x62, 0x61, 0x63, 0x6b, 0x2f],
{
    reveal_strlit("tail");
    reveal_strlit("trim");
    reveal_strlit("fork");
    reveal_strlit("fence");
    reveal_strlit("deleted");
    reveal_strlit("forks/");
    reveal_strlit("rollback/");
    vstd::utf8::is_ascii_chars_encode_utf8("tail"@);
    vstd::utf8::is_ascii_chars_encode_utf8("trim"@);
    vstd::utf8::is_ascii_chars_encode_utf8("fork"@);
    vstd::utf8::is_ascii_chars_encode_utf8("fence"@);
    vstd::utf8::is_ascii_chars_encode_utf8("deleted"@);
    vstd::utf8::is_ascii_chars_encode_utf8("forks/"@);
    vstd::utf8::is_ascii_chars_encode_utf8("rollback/"@);
    assert(utf8("tail"@) =~= seq![0x74u8, 0x61, 0x69, 0x6c]);
    assert(utf8("trim"@) =~= seq![0x74u8, 0x72, 0x69, 0x6d]);
    assert(utf8("fork"@) =~= seq![0x66u8, 0x6f, 0x72, 0x6b]);
    assert(utf8("fence"@) =~= seq![0x66u8, 0x65, 0x6e, 0x63, 0x65]);
    assert(utf8("deleted"@) =~= seq![0x64u8, 0x65, 0x6c, 0x65, 0x74, 0x65, 0x64]);
    assert(utf8("forks/"@) =~= seq![0x66u8, 0x6f, 0x72, 0x6b, 0x73, 0x2f]);
    assert(utf8("rollback/"@) =~= seq![0x72u8, 0x6f, 0x6c, 0x6c, 0x62, 0x61, 0x63, 0x6b, 0x2f]);
}

/// The bytes that the store-wide keys and prefixes begin with.
pub proof fn store_parts()
    ensures
        seq_key() == seq![0x67u8, 0x2f, 0x73, 0x65, 0x71],
        utf8("snap/"@) == seq![0x73u8, 0x6e, 0x61, 0x70, 0x2f],
        compactions_prefix().len() == 14,
        compactions_prefix()[0] == 0x6a,
        compactions_prefix()[2] == 0x63,
        jobs_prefix().len() == 7,
        jobs_prefix()[0] == 0x6a,
        jobs_prefix()[2] == 0x6a,
{
    reveal_strlit("g/seq");
    reveal_strlit("snap/");
    reveal_strlit("j/compactions/");
    reveal_strlit("j/jobs/");
    vstd::utf8::is_ascii_chars_encode_utf8("g/seq"@);
    vstd::utf8::is_ascii_chars_encode_utf8("snap/"@);
    vstd::utf8::is_ascii_chars_encode_utf8("j/compactions/"@);
    vstd::utf8::is_ascii_chars_encode_utf8("j/jobs/"@);
    assert(seq_key() =~= seq![0x67u8, 0x2f, 0x73, 0x65, 0x71]);
    assert(utf8("snap/"@) =~= seq![0x73u8, 0x6e, 0x61, 0x70, 0x2f]);
}

/// The first byte tells the classes of keys apart.
pub proof fn classes(s: Seq<u8>, v: nat, ts: int, field: Seq<u8>)
    ensures
        r_key_of(s, v)[0] == 0x72,
        r_key_of(s, v).len() > 0,
        r_prefix_of(s)[0] == 0x72,
        m_key_of(s, field)[0] == 0x6d,
        m_key_of(s, field).len() == 3 + s.len() + field.len(),
        ts_key_of(s, ts, v)[0] == 0x69,
        ts_key_of(s, ts, v).len() > 0,
        seq_key()[0] == 0x67,
        snap_prefix_of(s)[0] == 0x73,
{
    store_parts();
}

/// A key that starts with a prefix has its first byte.
pub proof fn prefix_class(k: Seq<u8>, p: Seq<u8>)
    requires
        has_prefix(k, p),
        p.len() > 0,
    ensures
        k.len() > 0,
        k[0] == p[0],
{
    assert(k.subrange(0, p.len() as int)[0] == p[0]);
}

/// A short field of a stream does not stand in its own fork registry.
pub proof fn own_field_no_pin(s: Seq<u8>, field: Seq<u8>)
    requires
        field.len() < 6,
    ensures
        !has_prefix(m_key_of(s, field), m_key_of(s, utf8("forks/"@))),
{
    fixed_parts();
}

/// A key that ends in the digits of a version is no field that ends otherwise.
pub proof fn field_no_window(s: Seq<u8>, field: Seq<u8>)
    requires
        field.len() > 0,
        !is_digit(field.last()),
    ensures
        forall|p: Seq<u8>| (#[trigger] number_of(p, m_key_of(s, field))) is None,
{
    let k = m_key_of(s, field);
    assert forall|p: Seq<u8>| (#[trigger] number_of(p, k)) is None by {
        if number_of(p, k) is Some {
            let v = number_of(p, k)->0;
            number_key(p, k);
            numeral_of(v);
            assert(k.last() == field.last());
            assert(k.last() == dec16(v)[dec16(v).len() - 1]);
        }
    }
}

/// Fields that end in different bytes belong to different keys.
pub proof fn fields_differ(s: Seq<u8>, f: Seq<u8>, x: Seq<u8>, g: Seq<u8>)
    requires
        f.len() > 0,
        g.len() > 0,
        f.last() != g.last(),
    ensures
        m_key_of(s, f) != m_key_of(x, g),
{
    assert(m_key_of(s, f).last() == f.last());
    assert(m_key_of(x, g).last() == g.last());
}

/// What stands before the digits of a number is the same, where it ends in a
/// slash.
pub proof fn same_stem(p: Seq<u8>, v: nat, q: Seq<u8>)
    requires
        v <= u64::MAX,
        p.len() > 0,
        q.len() > 0,
        p.last() == SLASH,
        q.last() == SLASH,
        number_of(q, p + dec16(v)) is Some,
    ensures
        p == q,
{
    let k = p + dec16(v);
    let w = number_of(q, k)->0;
    number_key(q, k);
    numeral_of(v);
    numeral_of(w);
    if p.len() < q.len() {
        assert(k[q.len() - 1] == SLASH);
        assert(is_digit(dec16(v)[q.len() - 1 - p.len()]));
    }
    if q.len() < p.len() {
        assert(k[p.len() - 1] == SLASH);
        assert(is_digit(dec16(w)[p.len() - 1 - q.len()]));
    }
    assert(p =~= k.take(p.len() as int));
    assert(q =~= k.take(q.len() as int));
}

/// The key of a record holds its version.
pub proof fn record_own(s: Seq<u8>, v: nat)
    requires
        v <= u64::MAX,
    ensures
        number_of(r_prefix_of(s), r_key_of(s, v)) == Some(v),
        has_prefix(r_key_of(s, v), r_prefix_of(s)),
{
    number_written(r_prefix_of(s), v);
}

/// A record is one of one stream's own.
pub proof fn record_under(s: Seq<u8>, v: nat, x: Seq<u8>)
    requires
        v <= u64::MAX,
        number_of(r_prefix_of(x), r_key_of(s, v)) is Some,
    ensures
        s == x,
{
    let p = r_prefix_of(s);
    let q = r_prefix_of(x);
    same_stem(p, v, q);
    assert(p.len() == s.len() + 3 && q.len() == x.len() + 3);
    assert forall|i: int| 0 <= i < x.len() implies s[i] == x[i] by {
        assert(p[i + 2] == s[i] && q[i + 2] == x[i]);
    }
    assert(s =~= x);
}

/// Two records are one only at one version of one stream.
pub proof fn record_key_injective(s: Seq<u8>, v: nat, w: nat)
    ensures
        (r_key_of(s, v) == r_key_of(s, w)) == (v == w),
{
    lemma_prefix_of_concat(r_prefix_of(s), dec16(v));
    lemma_prefix_of_concat(r_prefix_of(s), dec16(w));
    dec16_order(v, w);
}

} // verus!
