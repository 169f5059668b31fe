//! How numbers, keys and answers are written.
use vstd::prelude::*;
use vstd::string::*;

use crate::digits::{be, be_value, cell_value, dec16, dec16_signed, digits, le, numeral_of, zeros};
use crate::envelope::{expectation, is_json, unsigned, ExpectedVersion, Version};
use crate::error::{error_text, number_text, Error};
use crate::kv::{
    compactions_prefix, deleted_key, fork_key, forks_field, jobs_prefix, last_part_from, m_key_of,
    r_key_of, rollback_field, seq_key, snap_prefix_of, suffix_of, tail_key, trim_key, ts_key_of,
    Db, ValueView,
};
use crate::order::{after, diverge, has_prefix, has_suffix, lex_lt};
use crate::stamp::clock_ms;
use crate::store::{fence_key, number_cell, write_all, WriteView};
use crate::text::{utf8, SLASH};
use crate::wire::{base64_text, held, writes, Wire};

verus! {

// ---- numbers --------------------------------------------------------------

/// Decimal digits: the last one is the remainder by ten, those before it are
/// the digits of the quotient; a number below ten has one.
pub proof fn digits_are_decimal(v: nat)
    ensures
        digits(v).len() >= 1,
        digits(v)[digits(v).len() - 1] == 0x30 + v % 10,
        v >= 10 ==> digits(v).take(digits(v).len() - 1) == digits(v / 10),
        v < 10 ==> digits(v).len() == 1,
{
    if v >= 10 {
        assert(digits(v).take(digits(v).len() - 1) =~= digits(v / 10));
    }
}

/// A number in a key is its decimal digits, with zeros before them up to sixteen
/// places.
pub proof fn key_number_is_padded(v: nat)
    ensures
        digits(v).len() >= 16 ==> dec16(v) == digits(v),
        digits(v).len() < 16 ==> dec16(v).len() == 16 && dec16(v).skip(16 - digits(v).len())
            == digits(v) && forall|i: int|
            0 <= i < 16 - digits(v).len() ==> #[trigger] dec16(v)[i] == 0x30,
{
    if digits(v).len() < 16 {
        assert(dec16(v).skip(16 - digits(v).len()) =~= digits(v));
    }
}

/// A time in a key: as a number, with a minus sign in the place of the first
/// digit where it is negative.
pub proof fn key_time_is_padded(v: int)
    ensures
        v >= 0 ==> dec16_signed(v) == dec16(v as nat),
        v < 0 && digits((-v) as nat).len() <= 15 ==> dec16_signed(v).len() == 16,
        v < 0 ==> dec16_signed(v)[0] == 0x2d && dec16_signed(v).len() >= 1 + digits(
            (-v) as nat,
        ).len() && dec16_signed(v).skip(dec16_signed(v).len() - digits((-v) as nat).len())
            == digits((-v) as nat),
{
    if v < 0 {
        let d = digits((-v) as nat);
        let s = dec16_signed(v);
        assert(s.skip(s.len() - d.len()) =~= d);
    }
}

/// Big-endian bytes: the last one is the remainder by 256, those before it are
/// the bytes of the quotient; and the number that bytes stand for is read the
/// same way.
pub proof fn big_endian(v: nat, n: nat, s: Seq<u8>, b: u8)
    ensures
        be(v, 0).len() == 0,
        be(v, n + 1) == be(v / 256, n).push((v % 256) as u8),
        be_value(Seq::empty()) == 0,
        be_value(s.push(b)) == be_value(s) * 256 + b,
{
    assert(s.push(b).drop_last() =~= s);
}

/// Little-endian bytes: the first one is the remainder by 256, those behind it
/// are the bytes of the quotient.
pub proof fn little_endian(v: nat, n: nat)
    ensures
        le(v, 0).len() == 0,
        le(v, n + 1).len() == le(v / 256, n).len() + 1,
        le(v, n + 1)[0] == v % 256,
        le(v, n + 1).skip(1) == le(v / 256, n),
{
    assert(le(v, n + 1).skip(1) =~= le(v / 256, n));
}

/// A number in a record is eight bytes, most significant first; other bytes
/// count as 0.
pub proof fn number_record(v: u64, s: Seq<u8>)
    ensures
        number_cell(v as nat) == ValueView::Bytes(be(v as nat, 8)),
        be(v as nat, 8).len() == 8,
        cell_value(be(v as nat, 8)) == v,
        s.len() != 8 ==> cell_value(s) == 0,
{
    crate::digits::be8_roundtrip(v);
}

// ---- order ----------------------------------------------------------------

/// Bytes are ordered by the first one in which they differ; what goes on behind
/// the end of the other comes later.
pub proof fn bytes_are_ordered(p: Seq<u8>, x: u8, y: u8, a: Seq<u8>, b: Seq<u8>)
    ensures
        lex_lt(p, p.push(x) + a),
        !lex_lt(p.push(x) + a, p),
        x < y ==> lex_lt(p.push(x) + a, p.push(y) + b),
        x > y ==> !lex_lt(p.push(x) + a, p.push(y) + b),
        !lex_lt(p, p),
{
    let n = p.len() as int;
    let l = p.push(x) + a;
    let r = p.push(y) + b;
    assert forall|j: int| 0 <= j < n implies p[j] == l[j] && p[j] == r[j] by {}
    assert(l[n] == x && r[n] == y);
    assert(diverge(p, l, n));
    crate::order::lex_asymmetric(p, l);
    if x < y {
        assert(diverge(l, r, n));
    }
    if x > y {
        assert(diverge(r, l, n));
        crate::order::lex_asymmetric(r, l);
    }
    crate::order::lex_irreflexive(p);
}

/// What begins or ends with some bytes, and what follows them.
pub proof fn bytes_begin_and_end(s: Seq<u8>, p: Seq<u8>, k: Seq<u8>)
    ensures
        has_prefix(p + s, p),
        after(p + s, p.len() as int) == s,
        has_prefix(k, p) ==> k == p + after(k, p.len() as int),
        has_suffix(s + p, p),
        has_suffix(k, p) ==> k == k.take(k.len() - p.len()) + p,
{
    crate::order::lemma_prefix_of_concat(p, s);
    if has_prefix(k, p) {
        crate::order::lemma_prefix_split(k, p);
    }
    assert((s + p).subrange(s.len() as int, (s + p).len() as int) =~= p);
    assert(after(p + s, p.len() as int) =~= s);
    if has_suffix(k, p) {
        assert(k =~= k.take(k.len() - p.len()) + p) by {
            assert forall|i: int| k.len() - p.len() <= i < k.len() implies k[i] == p[i - (k.len()
                - p.len())] by {
                assert(k.subrange(k.len() - p.len(), k.len() as int)[i - (k.len() - p.len())]
                    == k[i]);
            }
        }
    }
}

// ---- keys -----------------------------------------------------------------

/// Where the records of a stream and of the store stand.
pub proof fn keys_are_laid_out(s: Seq<u8>, v: nat, ts: int, child: Seq<u8>)
    ensures
        r_key_of(s, v) == utf8("r/"@) + s + utf8("/"@) + dec16(v),
        ts_key_of(s, ts, v) == utf8("i/"@) + s + utf8("/"@) + dec16_signed(ts) + utf8("/"@)
            + dec16(v),
        tail_key(s) == utf8("m/"@) + s + utf8("/tail"@),
        trim_key(s) == utf8("m/"@) + s + utf8("/trim"@),
        fork_key(s) == utf8("m/"@) + s + utf8("/fork"@),
        fence_key(s) == utf8("m/"@) + s + utf8("/fence"@),
        deleted_key(s) == utf8("m/"@) + s + utf8("/deleted"@),
        m_key_of(s, forks_field(child)) == utf8("m/"@) + s + utf8("/forks/"@) + child,
        m_key_of(s, rollback_field(v)) == utf8("m/"@) + s + utf8("/rollback/"@) + dec16(v),
        snap_prefix_of(s) == utf8("snap/"@) + s + utf8("/"@),
        compactions_prefix() == utf8("j/compactions/"@),
        jobs_prefix() == utf8("j/jobs/"@),
        seq_key() == utf8("g/seq"@),
{
    slash_fields();
    reveal_strlit("r/");
    reveal_strlit("i/");
    reveal_strlit("m/");
    reveal_strlit("/");
    vstd::utf8::is_ascii_chars_encode_utf8("r/"@);
    vstd::utf8::is_ascii_chars_encode_utf8("i/"@);
    vstd::utf8::is_ascii_chars_encode_utf8("m/"@);
    vstd::utf8::is_ascii_chars_encode_utf8("/"@);
    assert(utf8("r/"@) =~= seq![0x72u8, SLASH]);
    assert(utf8("i/"@) =~= seq![0x69u8, SLASH]);
    assert(utf8("m/"@) =~= seq![0x6du8, SLASH]);
    assert(utf8("/"@) =~= seq![SLASH]);
    assert(r_key_of(s, v) =~= utf8("r/"@) + s + utf8("/"@) + dec16(v));
    assert(ts_key_of(s, ts, v) =~= utf8("i/"@) + s + utf8("/"@) + dec16_signed(ts) + utf8("/"@)
        + dec16(v));
    assert(tail_key(s) =~= utf8("m/"@) + s + utf8("/tail"@));
    assert(trim_key(s) =~= utf8("m/"@) + s + utf8("/trim"@));
    assert(fork_key(s) =~= utf8("m/"@) + s + utf8("/fork"@));
    assert(fence_key(s) =~= utf8("m/"@) + s + utf8("/fence"@));
    assert(deleted_key(s) =~= utf8("m/"@) + s + utf8("/deleted"@));
    assert(m_key_of(s, forks_field(child)) =~= utf8("m/"@) + s + utf8("/forks/"@) + child);
    assert(m_key_of(s, rollback_field(v)) =~= utf8("m/"@) + s + utf8("/rollback/"@) + dec16(v));
    assert(snap_prefix_of(s) =~= utf8("snap/"@) + s + utf8("/"@));
}

proof fn slash_fields()
    ensures
        utf8("/tail"@) == seq![SLASH] + utf8("tail"@),
        utf8("/trim"@) == seq![SLASH] + utf8("trim"@),
        utf8("/fork"@) == seq![SLASH] + utf8("fork"@),
        utf8("/fence"@) == seq![SLASH] + utf8("fence"@),
        utf8("/deleted"@) == seq![SLASH] + utf8("deleted"@),
        utf8("/forks/"@) == seq![SLASH] + utf8("forks/"@),
        utf8("/rollback/"@) == seq![SLASH] + utf8("rollback/"@),
{
    crate::layout::fixed_parts();
    reveal_strlit("/tail");
    reveal_strlit("/trim");
    reveal_strlit("/fork");
    reveal_strlit("/fence");
    reveal_strlit("/deleted");
    reveal_strlit("/forks/");
    reveal_strlit("/rollback/");
    vstd::utf8::is_ascii_chars_encode_utf8("/tail"@);
    vstd::utf8::is_ascii_chars_encode_utf8("/trim"@);
    vstd::utf8::is_ascii_chars_encode_utf8("/fork"@);
    vstd::utf8::is_ascii_chars_encode_utf8("/fence"@);
    vstd::utf8::is_ascii_chars_encode_utf8("/deleted"@);
    vstd::utf8::is_ascii_chars_encode_utf8("/forks/"@);
    vstd::utf8::is_ascii_chars_encode_utf8("/rollback/"@);
    assert(utf8("/tail"@) =~= seq![SLASH] + utf8("tail"@));
    assert(utf8("/trim"@) =~= seq![SLASH] + utf8("trim"@));
    assert(utf8("/fork"@) =~= seq![SLASH] + utf8("fork"@));
    assert(utf8("/fence"@) =~= seq![SLASH] + utf8("fence"@));
    assert(utf8("/deleted"@) =~= seq![SLASH] + utf8("deleted"@));
    assert(utf8("/forks/"@) =~= seq![SLASH] + utf8("forks/"@));
    assert(utf8("/rollback/"@) =~= seq![SLASH] + utf8("rollback/"@));
}

/// The version is read back from the key of a record.
pub proof fn version_is_read_from_key(s: Seq<u8>, v: nat)
    requires
        v <= u64::MAX,
    ensures
        suffix_of(r_key_of(s, v)) == Some(v),
{
    let k = r_key_of(s, v);
    let i = s.len() + 3;
    numeral_of(v);
    assert(k[i - 1] == SLASH);
    assert forall|j: int| i <= j < k.len() implies k[j] != SLASH by {
        assert(k[j] == dec16(v)[j - i]);
        assert(crate::digits::is_digit(dec16(v)[j - i]));
    }
    last_part_from(k, i as int);
    assert(k.skip(i as int) =~= dec16(v));
}

// ---- writes ---------------------------------------------------------------

/// Writes take effect in order: a put leaves its value under its key, a
/// deletion leaves nothing there, and neither touches another key.
pub proof fn writes_take_effect(db: Db, ws: Seq<WriteView>, k: Seq<u8>, v: ValueView, x: Seq<u8>)
    ensures
        write_all(db, Seq::empty()) == db,
        ({
            let before = write_all(db, ws);
            let put = write_all(db, ws.push(WriteView::Put { key: k, value: v }));
            let gone = write_all(db, ws.push(WriteView::Delete { key: k }));
            &&& put.contains_key(k) && put[k] == v
            &&& !gone.contains_key(k)
            &&& x != k ==> put.contains_key(x) == before.contains_key(x) && gone.contains_key(x)
                == before.contains_key(x)
            &&& x != k && before.contains_key(x) ==> put[x] == before[x] && gone[x] == before[x]
        }),
{
    assert(ws.push(WriteView::Put { key: k, value: v }).drop_last() =~= ws);
    assert(ws.push(WriteView::Delete { key: k }).drop_last() =~= ws);
}

// ---- answers --------------------------------------------------------------

/// What a writer that saw a tail expects: exactly that version, or no stream.
pub proof fn writer_expects_what_it_saw(v: Version)
    ensures
        expectation(Some(v)) == ExpectedVersion::Exact(v),
        expectation(None) == ExpectedVersion::NoStream,
{
}

/// Stored bytes are taken for JSON exactly if they begin with a brace.
pub proof fn json_begins_with_brace(b: Seq<u8>)
    ensures
        b.len() == 0 ==> !is_json(b),
        b.len() > 0 ==> (is_json(b) <==> b[0] == 0x7b),
{
}

/// What an error reads as.
pub proof fn errors_read_as(e: Error)
    ensures
        match e {
            Error::VersionConflict { stream, expected, actual } => error_text(e)
                == "version conflict on '"@ + stream@ + "': expected "@ + (match expected {
                ExpectedVersion::Any => "Any"@,
                ExpectedVersion::NoStream => "NoStream"@,
                ExpectedVersion::Exact(v) => "Exact("@ + number_text(v as nat) + ")"@,
            }) + ", actual "@ + (match actual {
                Some(v) => "Some("@ + number_text(v as nat) + ")"@,
                None => "None"@,
            }),
            Error::FenceMismatch { stream, current_token } => error_text(e) == "fence mismatch on '"@
                + stream@ + "': current token is '"@ + current_token@ + "'"@,
            Error::Backend(t) => error_text(e) == "backend: "@ + t@,
            Error::Encoding(t) => error_text(e) == "encoding: "@ + t@,
            Error::Bincode(t) => error_text(e) == "encoding: "@ + t@,
            Error::InvalidInput(t) => error_text(e) == t@,
        },
{
}

/// A number in a text is its decimal digits.
pub proof fn number_reads_as_digits(v: nat, i: int)
    ensures
        number_text(v).len() == digits(v).len(),
        0 <= i < digits(v).len() ==> number_text(v)[i] == digits(v)[i] as char,
{
}

/// A byte field is base64 text in a format for people, and the bytes themselves
/// in another.
pub proof fn byte_field_suits_format(human_readable: bool, bytes: Seq<u8>, w: Wire)
    requires
        writes(human_readable, bytes, w),
    ensures
        w is Text <==> human_readable,
        human_readable ==> w->Text_0@ == base64_text(bytes),
        !human_readable ==> w->Raw_0@ == bytes && held(w) == Some(bytes),
{
}

/// A clock reading in milliseconds, and 0 for a time before the epoch.
pub proof fn clock_counts_from_epoch(millis: u128)
    ensures
        clock_ms(None) == 0,
        millis <= i64::MAX ==> clock_ms(Some(millis)) == millis,
{
}

/// A signed number is written in two's complement.
pub proof fn signed_number_is_twos_complement(v: i64)
    ensures
        v >= 0 ==> unsigned(v) == v,
        v < 0 ==> unsigned(v) == v + 0x1_0000_0000_0000_0000,
{
}

} // verus!
