//! Wire format of delta batches and segments: zstd over bincode.
use vstd::prelude::*;
use vstd::string::*;

use crate::digits::le;
use crate::envelope::{binary_error_text, counted, Event, NewEvent, NewEventView};
use crate::error::{says, Error};
use crate::sqlite::{Delta, DeltaView, Frame, FrameView, Ltx, LtxView};
use crate::table::{views, Dup};
use crate::text::same_text;

verus! {

#[verifier::external_type_specification]
#[verifier::external_body]
pub struct ExIoError(std::io::Error);

/// A delta as a plain tuple of its fields.
pub type PlainDelta = (u64, u32, u32, Seq<(u32, Seq<u8>)>);

/// A segment as a plain tuple of its fields.
pub type PlainLtx = (u64, u64, u32, u32, Seq<(u32, Seq<u8>)>);

pub open spec fn plain_frames(s: Seq<FrameView>) -> Seq<(u32, Seq<u8>)> {
    Seq::new(s.len(), |i: int| (s[i].pgno, s[i].data))
}

pub open spec fn plain_delta(d: DeltaView) -> PlainDelta {
    (d.txid, d.page_size, d.db_size, plain_frames(d.pages))
}

pub open spec fn plain_deltas(ds: Seq<DeltaView>) -> Seq<PlainDelta> {
    Seq::new(ds.len(), |i: int| plain_delta(ds[i]))
}

/// The frames that pairs stand for.
pub open spec fn framed(s: Seq<(u32, Seq<u8>)>) -> Seq<FrameView> {
    Seq::new(s.len(), |i: int| FrameView { pgno: s[i].0, data: s[i].1 })
}

pub open spec fn delta_from(p: PlainDelta) -> DeltaView {
    DeltaView { txid: p.0, page_size: p.1, db_size: p.2, pages: framed(p.3) }
}

pub open spec fn deltas_from(ps: Seq<PlainDelta>) -> Seq<DeltaView> {
    Seq::new(ps.len(), |i: int| delta_from(ps[i]))
}

pub open spec fn ltx_from(p: PlainLtx) -> LtxView {
    LtxView { txid_start: p.0, txid_end: p.1, page_size: p.2, db_size: p.3, pages: framed(p.4) }
}

proof fn frames_roundtrip(s: Seq<FrameView>)
    ensures
        framed(plain_frames(s)) == s,
{
    assert(framed(plain_frames(s)) =~= s);
}

proof fn deltas_roundtrip(ds: Seq<DeltaView>)
    ensures
        deltas_from(plain_deltas(ds)) == ds,
{
    assert forall|i: int| 0 <= i < ds.len() implies #[trigger] delta_from(plain_delta(ds[i]))
        == ds[i] by {
        frames_roundtrip(ds[i].pages);
    }
    assert(deltas_from(plain_deltas(ds)) =~= ds);
}

pub open spec fn pair_views(v: Seq<(u32, Vec<u8>)>) -> Seq<(u32, Seq<u8>)> {
    Seq::new(v.len(), |i: int| (v[i].0, v[i].1@))
}

pub open spec fn tuple_views(v: Seq<(u64, u32, u32, Vec<(u32, Vec<u8>)>)>) -> Seq<PlainDelta> {
    Seq::new(v.len(), |i: int| (v[i].0, v[i].1, v[i].2, pair_views(v[i].3@)))
}

fn to_pairs(frames: &Vec<Frame>) -> (r: Vec<(u32, Vec<u8>)>)
    ensures
        pair_views(r@) == plain_frames(views(frames@)),
{
    let mut r: Vec<(u32, Vec<u8>)> = Vec::new();
    let mut i: usize = 0;
    while i < frames.len()
        invariant
            i <= frames.len(),
            r.len() == i,
            forall|j: int|
                0 <= j < i ==> (#[trigger] r@[j]).0 == frames@[j].pgno && r@[j].1@
                    == frames@[j].data@,
        decreases frames.len() - i,
    {
        r.push((frames[i].pgno, frames[i].data.dup()));
        i += 1;
    }
    assert(pair_views(r@) =~= plain_frames(views(frames@)));
    r
}

fn from_pairs(pairs: Vec<(u32, Vec<u8>)>) -> (r: Vec<Frame>)
    ensures
        views(r@) == framed(pair_views(pairs@)),
{
    let mut r: Vec<Frame> = Vec::new();
    let mut i: usize = 0;
    while i < pairs.len()
        invariant
            i <= pairs.len(),
            r.len() == i,
            forall|j: int|
                0 <= j < i ==> (#[trigger] r@[j])@ == (FrameView {
                    pgno: pairs@[j].0,
                    data: pairs@[j].1@,
                }),
        decreases pairs.len() - i,
    {
        r.push(Frame { pgno: pairs[i].0, data: pairs[i].1.dup() });
        i += 1;
    }
    assert(views(r@) =~= framed(pair_views(pairs@)));
    r
}

fn to_tuples(deltas: &Vec<Delta>, start: usize, end: usize) -> (r: Vec<
    (u64, u32, u32, Vec<(u32, Vec<u8>)>),
>)
    requires
        start <= end <= deltas.len(),
    ensures
        tuple_views(r@) == plain_deltas(views(deltas@).subrange(start as int, end as int)),
{
    let mut r: Vec<(u64, u32, u32, Vec<(u32, Vec<u8>)>)> = Vec::new();
    let mut i: usize = start;
    let ghost ds = views(deltas@).subrange(start as int, end as int);
    while i < end
        invariant
            start <= i <= end <= deltas.len(),
            ds == views(deltas@).subrange(start as int, end as int),
            r.len() == i - start,
            forall|j: int|
                0 <= j < i - start ==> (
                (#[trigger] r@[j]).0,
                r@[j].1,
                r@[j].2,
                pair_views(r@[j].3@),
                ) == plain_delta(ds[j]),
        decreases end - i,
    {
        let d = &deltas[i];
        assert(ds[i - start] == d@);
        r.push((d.txid, d.page_size, d.db_size, to_pairs(&d.pages)));
        i += 1;
    }
    assert(tuple_views(r@) =~= plain_deltas(ds));
    r
}

/// Pages one after the other: a 4-byte number and bytes each.
pub open spec fn pages_form(pages: Seq<(u32, Seq<u8>)>) -> Seq<u8>
    decreases pages.len(),
{
    if pages.len() == 0 {
        Seq::empty()
    } else {
        pages_form(pages.drop_last()) + le(pages.last().0 as nat, 4) + counted(pages.last().1)
    }
}

/// A delta as bytes: its numbers, little-endian, and its pages after their
/// number.
pub open spec fn delta_form(d: PlainDelta) -> Seq<u8> {
    le(d.0 as nat, 8) + le(d.1 as nat, 4) + le(d.2 as nat, 4) + le(d.3.len(), 8) + pages_form(d.3)
}

/// Deltas one after the other.
pub open spec fn deltas_form(ds: Seq<PlainDelta>) -> Seq<u8>
    decreases ds.len(),
{
    if ds.len() == 0 {
        Seq::empty()
    } else {
        deltas_form(ds.drop_last()) + delta_form(ds.last())
    }
}

/// A list of deltas as bytes: their number, then each of them.
pub open spec fn batch_form(ds: Seq<PlainDelta>) -> Seq<u8> {
    le(ds.len(), 8) + deltas_form(ds)
}

/// What `bincode::deserialize` finds in bytes: a list of deltas, or an error.
pub uninterp spec fn bincode_batch_in(bytes: Seq<u8>) -> Option<
    Seq<(u64, u32, u32, Seq<(u32, Seq<u8>)>)>,
>;

/// A segment as bytes: its numbers, little-endian, and its pages after their
/// number.
pub open spec fn segment_form(l: LtxView) -> Seq<u8> {
    le(l.txid_start as nat, 8) + le(l.txid_end as nat, 8) + le(l.page_size as nat, 4) + le(
        l.db_size as nat,
        4,
    ) + le(l.pages.len(), 8) + pages_form(plain_frames(l.pages))
}

/// What `bincode::deserialize` finds in bytes: a segment, or an error.
pub uninterp spec fn bincode_segment_in(bytes: Seq<u8>) -> Option<
    (u64, u64, u32, u32, Seq<(u32, Seq<u8>)>),
>;

/// What `zstd::stream::encode_all` makes of bytes at a level.
pub uninterp spec fn zstd_frame(raw: Seq<u8>, level: int) -> Seq<u8>;

/// What `zstd::stream::decode_all` finds in bytes, or an error.
pub uninterp spec fn zstd_content(data: Seq<u8>) -> Option<Seq<u8>>;

/// `bincode::serialize` on a list of deltas: numbers of fixed width,
/// little-endian, and 64-bit lengths before lists. With no size limit and
/// every length known it does not fail.
#[verifier::external_body]
fn serialize_batch(ds: &Vec<(u64, u32, u32, Vec<(u32, Vec<u8>)>)>) -> (r: Result<
    Vec<u8>,
    Box<bincode::ErrorKind>,
>)
    ensures
        r is Ok,
        r->Ok_0@ == batch_form(tuple_views(ds@)),
{
    bincode::serialize(ds)
}

/// `bincode::deserialize` into a list of deltas. Bytes that
/// `bincode::serialize` made from such a list give it back.
#[verifier::external_body]
fn deserialize_batch(bytes: &[u8]) -> (r: Result<
    Vec<(u64, u32, u32, Vec<(u32, Vec<u8>)>)>,
    Box<bincode::ErrorKind>,
>)
    ensures
        match r {
            Ok(v) => bincode_batch_in(bytes@) == Some(tuple_views(v@)),
            Err(_) => bincode_batch_in(bytes@) is None,
        },
        forall|ds: Seq<PlainDelta>|
            bytes@ == #[trigger] batch_form(ds) ==> r is Ok && tuple_views(r->Ok_0@) == ds,
{
    bincode::deserialize(bytes)
}

/// `bincode::serialize` on the fields of a segment, one after the other:
/// numbers of fixed width, little-endian, and 64-bit lengths before lists.
/// With no size limit and every length known it does not fail.
#[verifier::external_body]
fn serialize_segment(
    txid_start: u64,
    txid_end: u64,
    page_size: u32,
    db_size: u32,
    pages: &Vec<(u32, Vec<u8>)>,
) -> (r: Result<Vec<u8>, Box<bincode::ErrorKind>>)
    ensures
        r is Ok,
        r->Ok_0@ == le(txid_start as nat, 8) + le(txid_end as nat, 8) + le(page_size as nat, 4)
            + le(db_size as nat, 4) + le(pages@.len(), 8) + pages_form(pair_views(pages@)),
{
    bincode::serialize(&(txid_start, txid_end, page_size, db_size, pages))
}

/// `bincode::deserialize` into the fields of a segment. Bytes that
/// `bincode::serialize` made from such fields give them back.
#[verifier::external_body]
fn deserialize_segment(bytes: &[u8]) -> (r: Result<
    (u64, u64, u32, u32, Vec<(u32, Vec<u8>)>),
    Box<bincode::ErrorKind>,
>)
    ensures
        match r {
            Ok(v) => bincode_segment_in(bytes@) == Some((v.0, v.1, v.2, v.3, pair_views(v.4@))),
            Err(_) => bincode_segment_in(bytes@) is None,
        },
        forall|l: LtxView|
            bytes@ == #[trigger] segment_form(l) ==> r is Ok && r->Ok_0.0 == l.txid_start
                && r->Ok_0.1 == l.txid_end && r->Ok_0.2 == l.page_size && r->Ok_0.3 == l.db_size
                && pair_views(r->Ok_0.4@) == plain_frames(l.pages),
{
    bincode::deserialize(bytes)
}

/// `zstd::stream::encode_all`: the bytes as one zstd frame. Reading from a
/// slice and writing to a vector do not fail, and a level out of range is
/// clamped; want of memory is left aside, as for any allocation.
#[verifier::external_body]
fn zstd_encode(raw: &[u8], level: i32) -> (r: Result<Vec<u8>, std::io::Error>)
    ensures
        r is Ok,
        r->Ok_0@ == zstd_frame(raw@, level as int),
{
    zstd::stream::encode_all(raw, level)
}

/// `zstd::stream::decode_all`: the contents of zstd frames. A frame that
/// `zstd::stream::encode_all` made gives back what went into it.
#[verifier::external_body]
fn zstd_decode(data: &[u8]) -> (r: Result<Vec<u8>, std::io::Error>)
    ensures
        match r {
            Ok(raw) => zstd_content(data@) == Some(raw@),
            Err(_) => zstd_content(data@) is None,
        },
        forall|raw: Seq<u8>, level: int|
            data@ == #[trigger] zstd_frame(raw, level) ==> r is Ok && r->Ok_0@ == raw,
{
    zstd::stream::decode_all(data)
}

/// The text that `std::io::Error` displays. Nothing is stated of it.
#[verifier::external_body]
fn io_error_text(e: &std::io::Error) -> String {
    e.to_string()
}

fn codec(text: &str) -> (e: Error)
    ensures
        says(e, "codec: "@ + text@),
{
    let mut msg = "codec: ".to_owned();
    msg.append(text);
    Error::InvalidInput(msg)
}

/// Compression level of packed objects.
pub const LEVEL: i32 = 3;

fn compress(raw: &[u8]) -> (r: Result<Vec<u8>, Error>)
    ensures
        match r {
            Ok(b) => b@ == zstd_frame(raw@, LEVEL as int),
            Err(_) => false,
        },
{
    match zstd_encode(raw, LEVEL) {
        Ok(b) => Ok(b),
        Err(e) => Err(codec(io_error_text(&e).as_str())),
    }
}

fn decompress(data: &[u8]) -> (r: Result<Vec<u8>, Error>)
    ensures
        match r {
            Ok(raw) => zstd_content(data@) == Some(raw@),
            Err(e) => zstd_content(data@) is None && e is InvalidInput,
        },
        forall|raw: Seq<u8>, level: int|
            data@ == #[trigger] zstd_frame(raw, level) ==> r is Ok && r->Ok_0@ == raw,
{
    match zstd_decode(data) {
        Ok(b) => Ok(b),
        Err(e) => Err(codec(io_error_text(&e).as_str())),
    }
}

/// The packed form of a list of deltas.
pub open spec fn packed(ds: Seq<DeltaView>) -> Seq<u8> {
    zstd_frame(batch_form(plain_deltas(ds)), LEVEL as int)
}

/// The packed form of a segment.
pub open spec fn packed_ltx(l: LtxView) -> Seq<u8> {
    zstd_frame(segment_form(l), LEVEL as int)
}

/// The deltas that packed bytes hold, if they hold any.
pub open spec fn unpacked(data: Seq<u8>) -> Option<Seq<DeltaView>> {
    match zstd_content(data) {
        Some(raw) => match bincode_batch_in(raw) {
            Some(ps) => Some(deltas_from(ps)),
            None => None,
        },
        None => None,
    }
}

/// The segment that packed bytes hold, if they hold one.
pub open spec fn unpacked_ltx(data: Seq<u8>) -> Option<LtxView> {
    match zstd_content(data) {
        Some(raw) => match bincode_segment_in(raw) {
            Some(p) => Some(ltx_from(p)),
            None => None,
        },
        None => None,
    }
}

/// Packs `deltas[start..end]`.
pub fn pack(deltas: &Vec<Delta>, start: usize, end: usize) -> (r: Result<Vec<u8>, Error>)
    requires
        start <= end <= deltas.len(),
    ensures
        match r {
            Ok(b) => b@ == packed(views(deltas@).subrange(start as int, end as int)),
            Err(_) => false,
        },
{
    let tuples = to_tuples(deltas, start, end);
    match serialize_batch(&tuples) {
        Ok(raw) => compress(raw.as_slice()),
        Err(e) => Err(codec(binary_error_text(&e).as_str())),
    }
}

/// Unpacks a list of deltas; what [`pack`] packed comes back.
pub fn unpack(data: &[u8]) -> (r: Result<Vec<Delta>, Error>)
    ensures
        match r {
            Ok(ds) => unpacked(data@) == Some(views(ds@)),
            Err(e) => unpacked(data@) is None && e is InvalidInput,
        },
        forall|ds: Seq<DeltaView>|
            data@ == #[trigger] packed(ds) ==> r is Ok && views(r->Ok_0@) == ds,
{
    let raw = match decompress(data) {
        Ok(raw) => raw,
        Err(e) => return Err(e),
    };
    let plain = match deserialize_batch(raw.as_slice()) {
        Ok(p) => p,
        Err(e) => return Err(codec(binary_error_text(&e).as_str())),
    };
    let ghost ps = tuple_views(plain@);
    let mut out: Vec<Delta> = Vec::new();
    let mut rest: Vec<(u64, u32, u32, Vec<(u32, Vec<u8>)>)> = plain;
    let ghost all = rest@;
    let n: usize = rest.len();
    let mut i: usize = 0;
    while i < n
        invariant
            i <= n,
            n == all.len(),
            rest@ == all.skip(i as int),
            ps == tuple_views(all),
            out.len() == i,
            forall|j: int| 0 <= j < i ==> (#[trigger] out@[j])@ == delta_from(ps[j]),
        decreases n - i,
    {
        let (txid, page_size, db_size, pairs) = rest.remove(0);
        proof {
            assert(rest@ =~= all.skip(i + 1));
            assert(ps[i as int] == (txid, page_size, db_size, pair_views(pairs@)));
        }
        out.push(Delta { txid, page_size, db_size, pages: from_pairs(pairs) });
        i += 1;
    }
    proof {
        assert(views(out@) =~= deltas_from(ps));
        assert forall|ds: Seq<DeltaView>| data@ == #[trigger] packed(ds) implies views(out@)
            == ds by {
            deltas_roundtrip(ds);
        }
    }
    Ok(out)
}

/// Packs a segment.
pub fn pack_ltx(l: &Ltx) -> (r: Result<Vec<u8>, Error>)
    ensures
        match r {
            Ok(b) => b@ == packed_ltx(l@),
            Err(_) => false,
        },
{
    let pairs = to_pairs(&l.pages);
    match serialize_segment(l.txid_start, l.txid_end, l.page_size, l.db_size, &pairs) {
        Ok(raw) => compress(raw.as_slice()),
        Err(e) => Err(codec(binary_error_text(&e).as_str())),
    }
}

/// Unpacks a segment; what [`pack_ltx`] packed comes back.
pub fn unpack_ltx(data: &[u8]) -> (r: Result<Ltx, Error>)
    ensures
        match r {
            Ok(l) => unpacked_ltx(data@) == Some(l@),
            Err(e) => unpacked_ltx(data@) is None && e is InvalidInput,
        },
        forall|l: LtxView| data@ == #[trigger] packed_ltx(l) ==> r is Ok && r->Ok_0@ == l,
{
    let raw = match decompress(data) {
        Ok(raw) => raw,
        Err(e) => return Err(e),
    };
    match deserialize_segment(raw.as_slice()) {
        Ok((txid_start, txid_end, page_size, db_size, pairs)) => {
            let ghost pv = pair_views(pairs@);
            let l = Ltx { txid_start, txid_end, page_size, db_size, pages: from_pairs(pairs) };
            proof {
                assert forall|x: LtxView| data@ == #[trigger] packed_ltx(x) implies l@ == x by {
                    assert(raw@ == segment_form(x));
                    frames_roundtrip(x.pages);
                }
            }
            Ok(l)
        },
        Err(e) => Err(codec(binary_error_text(&e).as_str())),
    }
}

// ---- batching -------------------------------------------------------------

/// Event type of a packed batch of deltas.
pub const TXB: &'static str = "txb";

/// Target size of a batch before packing, so that a sync of any size fits the
/// store's per-record cap.
pub const TXB_CHUNK: u64 = 0x8_0000;

/// The serialized size of a run of pages: number and length-prefixed bytes.
pub open spec fn pages_size(s: Seq<FrameView>) -> nat
    decreases s.len(),
{
    if s.len() == 0 {
        0
    } else {
        pages_size(s.drop_last()) + 12 + s.last().data.len()
    }
}

/// The serialized size of a delta: its fixed fields, the page count, the
/// pages.
pub open spec fn delta_size(d: DeltaView) -> nat {
    24 + pages_size(d.pages)
}

pub open spec fn batch_size(ds: Seq<DeltaView>) -> nat
    decreases ds.len(),
{
    if ds.len() == 0 {
        0
    } else {
        batch_size(ds.drop_last()) + delta_size(ds.last())
    }
}

/// One more delta: in the last batch, or in a batch of its own where the last
/// would grow past the target.
pub open spec fn grown(bs: Seq<Seq<DeltaView>>, d: DeltaView) -> Seq<Seq<DeltaView>> {
    if bs.len() == 0 || batch_size(bs.last()) + delta_size(d) > TXB_CHUNK {
        bs.push(seq![d])
    } else {
        bs.drop_last().push(bs.last().push(d))
    }
}

/// The batches of a run of deltas.
pub open spec fn batches(ds: Seq<DeltaView>) -> Seq<Seq<DeltaView>>
    decreases ds.len(),
{
    if ds.len() == 0 {
        Seq::empty()
    } else {
        grown(batches(ds.drop_last()), ds.last())
    }
}

pub open spec fn flat(bs: Seq<Seq<DeltaView>>) -> Seq<DeltaView>
    decreases bs.len(),
{
    if bs.len() == 0 {
        Seq::empty()
    } else {
        flat(bs.drop_last()) + bs.last()
    }
}

/// Batching keeps every delta, in order; no batch is empty; a batch over the
/// target holds one delta alone.
pub proof fn batches_partition(ds: Seq<DeltaView>)
    ensures
        flat(batches(ds)) == ds,
        forall|i: int|
            0 <= i < batches(ds).len() ==> (#[trigger] batches(ds)[i]).len() > 0 && (batches(
                ds,
            )[i].len() == 1 || batch_size(batches(ds)[i]) <= TXB_CHUNK),
    decreases ds.len(),
{
    if ds.len() > 0 {
        let rest = ds.drop_last();
        let d = ds.last();
        batches_partition(rest);
        let bs = batches(rest);
        let next = batches(ds);
        if bs.len() == 0 || batch_size(bs.last()) + delta_size(d) > TXB_CHUNK {
            assert(next.drop_last() =~= bs);
            assert(next.last() == seq![d]);
            assert(flat(next) == flat(bs) + seq![d]);
            assert(flat(next) =~= flat(bs).push(d));
            assert(ds =~= rest.push(d));
        } else {
            assert(bs[bs.len() - 1].len() > 0);
            assert(next.drop_last() =~= bs.drop_last());
            assert(bs.last().push(d).drop_last() =~= bs.last());
            assert(next.last() == bs.last().push(d));
            assert(flat(next) == flat(bs.drop_last()) + bs.last().push(d));
            assert(flat(bs) == flat(bs.drop_last()) + bs.last());
            assert(flat(next) =~= flat(bs).push(d));
            assert(ds =~= rest.push(d));
        }
        assert forall|i: int| 0 <= i < next.len() implies (#[trigger] next[i]).len() > 0 && (
        next[i].len() == 1 || batch_size(next[i]) <= TXB_CHUNK) by {
            if i < next.len() - 1 {
                assert(next[i] == bs[i]);
            }
        }
    } else {
        assert(flat(batches(ds)) =~= ds);
    }
}

/// The serialized size of a delta, or one more than the target where it is
/// over it.
fn capped_size(d: &Delta) -> (r: u64)
    ensures
        r == (if delta_size(d@) > TXB_CHUNK {
            TXB_CHUNK + 1
        } else {
            delta_size(d@) as int
        }),
{
    let ghost s = views(d.pages@);
    let mut n: u64 = 24;
    let mut i: usize = 0;
    assert(s.take(0) =~= Seq::<FrameView>::empty());
    while i < d.pages.len()
        invariant
            i <= d.pages.len(),
            s == views(d.pages@),
            n == 24 + pages_size(s.take(i as int)),
            n <= TXB_CHUNK,
        decreases d.pages.len() - i,
    {
        let len: usize = d.pages[i].data.len();
        proof {
            assert(s.take(i + 1).drop_last() =~= s.take(i as int));
            assert(s.take(i + 1).last() == d.pages@[i as int]@);
            pages_size_prefix(s, i + 1);
        }
        if len as u64 > TXB_CHUNK || n + 12 + len as u64 > TXB_CHUNK {
            return TXB_CHUNK + 1;
        }
        n = n + 12 + len as u64;
        i += 1;
    }
    assert(s.take(i as int) =~= s);
    n
}

proof fn pages_size_prefix(s: Seq<FrameView>, n: int)
    requires
        0 <= n <= s.len(),
    ensures
        pages_size(s.take(n)) <= pages_size(s),
    decreases s.len() - n,
{
    if n < s.len() {
        pages_size_prefix(s, n + 1);
        assert(s.take(n + 1).drop_last() =~= s.take(n));
    } else {
        assert(s.take(n) =~= s);
    }
}

/// `e` is the event of a packed batch.
pub open spec fn is_batch_event(e: NewEventView, batch: Seq<DeltaView>) -> bool {
    &&& e.event_type == "txb"@
    &&& e.data == packed(batch)
    &&& e.metadata == Seq::<(Seq<char>, Seq<u8>)>::empty()
}

/// The events that carry a run of deltas: one packed batch each.
pub fn encode_deltas(deltas: &Vec<Delta>) -> (r: Result<Vec<NewEvent>, Error>)
    ensures
        match r {
            Ok(events) => events.len() == batches(views(deltas@)).len() && forall|i: int|
                0 <= i < events.len() ==> is_batch_event(
                    (#[trigger] events@[i])@,
                    batches(views(deltas@))[i],
                ),
            Err(_) => false,
        },
{
    let ghost ds = views(deltas@);
    let mut events: Vec<NewEvent> = Vec::new();
    let mut start: usize = 0;
    let mut size: u64 = 0;
    let mut i: usize = 0;
    assert(ds.take(0) =~= Seq::<DeltaView>::empty());
    while i < deltas.len()
        invariant
            start <= i <= deltas.len(),
            ds == views(deltas@),
            start < i <==> i > 0,
            size <= TXB_CHUNK + 1,
            i > 0 ==> batches(ds.take(i as int)).len() == events.len() + 1 && batches(
                ds.take(i as int),
            ).last() == ds.subrange(start as int, i as int) && (size == batch_size(
                ds.subrange(start as int, i as int),
            ) || (size > TXB_CHUNK && batch_size(ds.subrange(start as int, i as int))
                > TXB_CHUNK)),
            i == 0 ==> events.len() == 0 && size == 0,
            forall|j: int|
                0 <= j < events.len() ==> is_batch_event(
                    (#[trigger] events@[j])@,
                    batches(ds.take(i as int))[j],
                ),
        decreases deltas.len() - i,
    {
        let n = capped_size(&deltas[i]);
        let ghost bs = batches(ds.take(i as int));
        let ghost d = deltas@[i as int]@;
        proof {
            assert(ds.take(i + 1).drop_last() =~= ds.take(i as int));
            assert(ds.take(i + 1).last() == d);
        }
        if start < i && size + n > TXB_CHUNK {
            match pack(deltas, start, i) {
                Ok(data) => events.push(NewEvent::new(TXB, data)),
                Err(e) => return Err(e),
            }
            start = i;
            size = n;
            proof {
                assert(ds.subrange(start as int, i + 1) =~= seq![d]);
                assert(seq![d].drop_last() =~= Seq::<DeltaView>::empty());
                assert(batch_size(seq![d]) == delta_size(d)) by {
                    reveal_with_fuel(batch_size, 2);
                }
            }
        } else {
            proof {
                if i == 0 {
                    assert(ds.subrange(start as int, i + 1) =~= seq![d]);
                    assert(seq![d].drop_last() =~= Seq::<DeltaView>::empty());
                    assert(batch_size(seq![d]) == delta_size(d)) by {
                        reveal_with_fuel(batch_size, 2);
                    }
                } else {
                    assert(ds.subrange(start as int, i + 1) =~= ds.subrange(
                        start as int,
                        i as int,
                    ).push(d));
                    assert(ds.subrange(start as int, i + 1).drop_last() =~= ds.subrange(
                        start as int,
                        i as int,
                    ));
                }
            }
            size = size + n;
        }
        i += 1;
    }
    assert(ds.take(i as int) =~= ds);
    if start < deltas.len() {
        match pack(deltas, start, deltas.len()) {
            Ok(data) => events.push(NewEvent::new(TXB, data)),
            Err(e) => return Err(e),
        }
    }
    Ok(events)
}

/// What an event of the stream carries.
#[derive(Debug)]
pub enum Carried {
    Deltas(Vec<Delta>),
    /// One delta in the JSON form of older records, which the caller reads.
    Json,
}

/// Decodes the [`Delta`]s carried by one stream event: every delta of a packed
/// batch, one for a legacy JSON event, none for unknown types.
pub fn delta_events(e: &Event) -> (r: Result<Carried, Error>)
    ensures
        if e@.event_type == "txb"@ {
            match r {
                Ok(c) => c is Deltas && unpacked(e@.data) == Some(views(c->Deltas_0@)),
                Err(x) => unpacked(e@.data) is None && x is InvalidInput,
            }
        } else if e@.event_type == "tx"@ {
            r == Ok::<Carried, Error>(Carried::Json)
        } else {
            r is Ok && r->Ok_0 is Deltas && r->Ok_0->Deltas_0.len() == 0
        },
        forall|ds: Seq<DeltaView>|
            e@.event_type == "txb"@ && e@.data == #[trigger] packed(ds) ==> r is Ok && views(
                r->Ok_0->Deltas_0@,
            ) == ds,
{
    if same_text(e.event_type.as_str(), TXB) {
        match unpack(e.data.as_slice()) {
            Ok(ds) => Ok(Carried::Deltas(ds)),
            Err(e) => Err(e),
        }
    } else if same_text(e.event_type.as_str(), "tx") {
        Ok(Carried::Json)
    } else {
        Ok(Carried::Deltas(Vec::new()))
    }
}

} // verus!
