//! Events: what a caller appends, what is stored, what is read back.
use vstd::prelude::*;
use vstd::string::*;

use crate::digits::le;
use crate::error::Error;
use crate::stamp::{is_id, new_id, now_ms};
use crate::table::{views, Dup};
use crate::text::utf8;

verus! {

/// Per-stream event version: contiguous, starting at 0.
pub type Version = u64;

/// Optimistic-concurrency expectation for an append.
#[derive(Debug, Clone, Copy, PartialEq, Eq, Structural)]
pub enum ExpectedVersion {
    Any,
    NoStream,
    Exact(Version),
}

/// What a writer at `tail` expects of the stream.
pub open spec fn expectation(tail: Option<Version>) -> ExpectedVersion {
    match tail {
        Some(v) => ExpectedVersion::Exact(v),
        None => ExpectedVersion::NoStream,
    }
}

/// What a writer at `tail` expects of the stream.
pub fn expected(tail: Option<Version>) -> (r: ExpectedVersion)
    ensures
        r == expectation(tail),
{
    match tail {
        Some(v) => ExpectedVersion::Exact(v),
        None => ExpectedVersion::NoStream,
    }
}

/// The version that restored state is current through: the last event's, or
/// the snapshot's where there is no event since.
pub fn restored_through(last: Option<Version>, snapshot: Option<Version>) -> (r: Option<Version>)
    ensures
        r == (if last is Some {
            last
        } else {
            snapshot
        }),
{
    match last {
        Some(v) => Some(v),
        None => snapshot,
    }
}

/// An event to append.
#[derive(Debug)]
pub struct NewEvent {
    pub event_type: String,
    pub data: Vec<u8>,
    pub metadata: Vec<(String, Vec<u8>)>,
}

/// Named byte strings that travel with an event.
pub type Headers = Seq<(Seq<char>, Seq<u8>)>;

pub struct NewEventView {
    pub event_type: Seq<char>,
    pub data: Seq<u8>,
    pub metadata: Headers,
}

impl View for NewEvent {
    type V = NewEventView;

    open spec fn view(&self) -> NewEventView {
        NewEventView {
            event_type: self.event_type@,
            data: self.data@,
            metadata: views(self.metadata@),
        }
    }
}

impl Dup for (String, Vec<u8>) {
    fn dup(&self) -> (r: Self) {
        (self.0.clone(), self.1.dup())
    }
}

impl Dup for NewEvent {
    fn dup(&self) -> (r: Self) {
        NewEvent {
            event_type: self.event_type.clone(),
            data: self.data.dup(),
            metadata: crate::table::dup_all(&self.metadata),
        }
    }
}

impl NewEvent {
    pub fn new(event_type: &str, data: Vec<u8>) -> (r: Self)
        ensures
            r@ == (NewEventView {
                event_type: event_type@,
                data: data@,
                metadata: Seq::empty(),
            }),
    {
        let r = NewEvent { event_type: event_type.to_owned(), data, metadata: Vec::new() };
        assert(r@.metadata =~= Seq::empty());
        r
    }
}

/// Stored form of an event.
#[derive(Debug)]
pub struct Envelope {
    pub id: String,
    pub event_type: String,
    pub version: Version,
    /// Global sequence counter value at commit. Monotone within a stream's
    /// commit order; may duplicate across concurrently committing streams.
    pub seq: u64,
    pub data: Vec<u8>,
    pub metadata: Vec<(String, Vec<u8>)>,
    pub ts_ms: i64,
}

pub struct EnvelopeView {
    pub id: Seq<char>,
    pub event_type: Seq<char>,
    pub version: Version,
    pub seq: u64,
    pub data: Seq<u8>,
    pub metadata: Headers,
    pub ts_ms: i64,
}

impl View for Envelope {
    type V = EnvelopeView;

    open spec fn view(&self) -> EnvelopeView {
        EnvelopeView {
            id: self.id@,
            event_type: self.event_type@,
            version: self.version,
            seq: self.seq,
            data: self.data@,
            metadata: views(self.metadata@),
            ts_ms: self.ts_ms,
        }
    }
}

impl Dup for Envelope {
    fn dup(&self) -> (r: Self) {
        Envelope {
            id: self.id.clone(),
            event_type: self.event_type.clone(),
            version: self.version,
            seq: self.seq,
            data: self.data.dup(),
            metadata: crate::table::dup_all(&self.metadata),
            ts_ms: self.ts_ms,
        }
    }
}

/// The envelope of a new event, identified by `id` and dated `ts_ms`.
pub open spec fn enveloped(
    e: NewEventView,
    id: Seq<char>,
    version: Version,
    seq: u64,
    ts_ms: i64,
) -> EnvelopeView {
    EnvelopeView {
        id,
        event_type: e.event_type,
        version,
        seq,
        data: e.data,
        metadata: e.metadata,
        ts_ms,
    }
}

/// What distinguishes one making of an envelope from another: a fresh
/// identifier and the time.
#[derive(Debug)]
pub struct Stamp {
    pub id: String,
    pub now_ms: i64,
}

pub struct StampView {
    pub id: Seq<char>,
    pub now_ms: i64,
}

impl View for Stamp {
    type V = StampView;

    open spec fn view(&self) -> StampView {
        StampView { id: self.id@, now_ms: self.now_ms }
    }
}

impl Dup for Stamp {
    fn dup(&self) -> (r: Self) {
        Stamp { id: self.id.clone(), now_ms: self.now_ms }
    }
}

impl Stamp {
    /// A fresh identifier and the time on the clock.
    pub fn fresh() -> (r: Self)
        ensures
            is_id(r.id@),
    {
        Stamp { id: new_id(), now_ms: now_ms() }
    }

    /// `n` fresh stamps.
    pub fn fresh_many(n: usize) -> (r: Vec<Stamp>)
        ensures
            r.len() == n,
            forall|i: int| 0 <= i < n ==> is_id((#[trigger] views(r@)[i]).id),
    {
        let mut r: Vec<Stamp> = Vec::new();
        let mut i: usize = 0;
        while i < n
            invariant
                i <= n,
                r.len() == i,
                forall|j: int| 0 <= j < i ==> is_id((#[trigger] r@[j]).id@),
            decreases n - i,
        {
            r.push(Stamp::fresh());
            i += 1;
        }
        r
    }
}

impl Envelope {
    /// The envelope of `e` at `version`; its sequence is assigned at commit.
    pub fn new(e: NewEvent, version: Version) -> (r: Self)
        ensures
            is_id(r.id@),
            r@ == enveloped(e@, r.id@, version, 0, r.ts_ms),
    {
        Envelope::stamped(e, version, 0, Stamp::fresh())
    }

    pub fn stamped(e: NewEvent, version: Version, seq: u64, stamp: Stamp) -> (r: Self)
        ensures
            r@ == enveloped(e@, stamp.id@, version, seq, stamp.now_ms),
    {
        Envelope {
            id: stamp.id,
            event_type: e.event_type,
            version,
            seq,
            data: e.data,
            metadata: e.metadata,
            ts_ms: stamp.now_ms,
        }
    }

    /// Stored bytes: the binary form, without the cost of base64 and JSON for
    /// bulk payloads.
    pub fn encode(&self) -> (r: Result<Vec<u8>, Error>)
        ensures
            r is Ok,
            r->Ok_0@ == binary_form(self@),
            r->Ok_0.len() > 0 && r->Ok_0@[0] == utf8(self.id@).len() % 256,
    {
        match to_binary(
            &self.id,
            &self.event_type,
            self.version,
            self.seq,
            &self.data,
            &self.metadata,
            self.ts_ms,
        ) {
            Ok(b) => {
                assert(le(utf8(self.id@).len(), 8).len() > 0);
                assert(b@[0] == le(utf8(self.id@).len(), 8)[0]);
                Ok(b)
            },
            Err(e) => Err(Error::Bincode(binary_error_text(&e))),
        }
    }

    /// Reads stored bytes back. A leading `{` marks the JSON form of older
    /// records, which the caller reads.
    pub fn decode(bytes: &[u8]) -> (r: Result<Stored, Error>)
        ensures
            is_json(bytes@) ==> r == Ok::<Stored, Error>(Stored::Json),
            !is_json(bytes@) ==> match r {
                Ok(s) => s is Binary && binary_read(bytes@) == Some(s->Binary_0@),
                Err(e) => e is Bincode && binary_read(bytes@) is None,
            },
            forall|e: EnvelopeView|
                !is_json(bytes@) && bytes@ == #[trigger] binary_form(e) ==> r is Ok
                    && r->Ok_0->Binary_0@ == e,
    {
        if bytes.len() > 0 && bytes[0] == 0x7b {
            return Ok(Stored::Json);
        }
        match from_binary(bytes) {
            Ok((id, event_type, version, seq, data, metadata, ts_ms)) => {
                let e = Envelope { id, event_type, version, seq, data, metadata, ts_ms };
                Ok(Stored::Binary(e))
            },
            Err(e) => Err(Error::Bincode(binary_error_text(&e))),
        }
    }
}

/// What stored bytes turn out to be.
#[derive(Debug)]
pub enum Stored {
    /// The JSON form of records from before the binary one.
    Json,
    Binary(Envelope),
}

pub open spec fn is_json(bytes: Seq<u8>) -> bool {
    bytes.len() > 0 && bytes[0] == 0x7b
}

/// Bytes after their number, as a little-endian 64-bit number.
pub open spec fn counted(b: Seq<u8>) -> Seq<u8> {
    le(b.len(), 8) + b
}

/// Pairs one after the other, a text and bytes each.
pub open spec fn pairs_form(m: Seq<(Seq<char>, Seq<u8>)>) -> Seq<u8>
    decreases m.len(),
{
    if m.len() == 0 {
        Seq::empty()
    } else {
        pairs_form(m.drop_last()) + counted(utf8(m.last().0)) + counted(m.last().1)
    }
}

/// A signed number in two's complement.
pub open spec fn unsigned(v: i64) -> nat {
    if v < 0 {
        (v + u64::MAX + 1) as nat
    } else {
        v as nat
    }
}

/// The binary form of an envelope: its fields in order, numbers in 8
/// little-endian bytes, texts, bytes and lists after their length.
pub open spec fn binary_form(e: EnvelopeView) -> Seq<u8> {
    counted(utf8(e.id)) + counted(utf8(e.event_type)) + le(e.version as nat, 8) + le(
        e.seq as nat,
        8,
    ) + counted(e.data) + le(e.metadata.len(), 8) + pairs_form(e.metadata) + le(
        unsigned(e.ts_ms),
        8,
    )
}

/// The envelope that bytes hold in binary form, if they hold one.
pub open spec fn binary_read(bytes: Seq<u8>) -> Option<EnvelopeView> {
    match bincode_fields(bytes) {
        Some((id, event_type, version, seq, data, metadata, ts_ms)) => Some(
            EnvelopeView { id, event_type, version, seq, data, metadata, ts_ms },
        ),
        None => None,
    }
}

#[verifier::external_type_specification]
#[verifier::external_body]
pub struct ExErrorKind(bincode::ErrorKind);

/// What `bincode::deserialize` finds in bytes: the fields of an envelope, or
/// an error.
pub uninterp spec fn bincode_fields(bytes: Seq<u8>) -> Option<
    (Seq<char>, Seq<char>, u64, u64, Seq<u8>, Seq<(Seq<char>, Seq<u8>)>, i64),
>;

/// `bincode::serialize` on the fields of an envelope, one after the other:
/// numbers of fixed width, little-endian, and 64-bit lengths before texts,
/// bytes and lists. With no size limit and every length known it does not
/// fail.
#[verifier::external_body]
fn to_binary(
    id: &String,
    event_type: &String,
    version: u64,
    seq: u64,
    data: &Vec<u8>,
    metadata: &Vec<(String, Vec<u8>)>,
    ts_ms: i64,
) -> (r: Result<Vec<u8>, Box<bincode::ErrorKind>>)
    ensures
        r is Ok,
        r->Ok_0@ == binary_form(
            EnvelopeView {
                id: id@,
                event_type: event_type@,
                version,
                seq,
                data: data@,
                metadata: views(metadata@),
                ts_ms,
            },
        ),
{
    bincode::serialize(&(id, event_type, version, seq, data, metadata, ts_ms))
}

/// `bincode::deserialize` into the fields of an envelope. Bytes that
/// `bincode::serialize` made from such fields give those fields back.
#[verifier::external_body]
fn from_binary(bytes: &[u8]) -> (r: Result<
    (String, String, u64, u64, Vec<u8>, Vec<(String, Vec<u8>)>, i64),
    Box<bincode::ErrorKind>,
>)
    ensures
        match r {
            Ok(f) => bincode_fields(bytes@) == Some(
                (f.0@, f.1@, f.2, f.3, f.4@, views(f.5@), f.6),
            ),
            Err(_) => bincode_fields(bytes@) is None,
        },
        forall|e: EnvelopeView|
            bytes@ == #[trigger] binary_form(e) ==> r is Ok && r->Ok_0.0@ == e.id && r->Ok_0.1@
                == e.event_type && r->Ok_0.2 == e.version && r->Ok_0.3 == e.seq && r->Ok_0.4@
                == e.data && views(r->Ok_0.5@) == e.metadata && r->Ok_0.6 == e.ts_ms,
{
    bincode::deserialize(bytes)
}

/// The text that `bincode::ErrorKind` displays. Nothing is stated of it.
#[verifier::external_body]
pub(crate) fn binary_error_text(e: &bincode::ErrorKind) -> String {
    e.to_string()
}

/// A decoded event.
#[derive(Debug)]
pub struct Event {
    pub id: String,
    pub event_type: String,
    pub version: Version,
    /// Global sequence counter value at commit.
    pub global_seq: u64,
    pub data: Vec<u8>,
    pub metadata: Vec<(String, Vec<u8>)>,
    pub ts_ms: i64,
}

/// An event is seen as the envelope that it came from.
impl View for Event {
    type V = EnvelopeView;

    open spec fn view(&self) -> EnvelopeView {
        EnvelopeView {
            id: self.id@,
            event_type: self.event_type@,
            version: self.version,
            seq: self.global_seq,
            data: self.data@,
            metadata: views(self.metadata@),
            ts_ms: self.ts_ms,
        }
    }
}

impl Dup for Event {
    fn dup(&self) -> (r: Self) {
        Event {
            id: self.id.clone(),
            event_type: self.event_type.clone(),
            version: self.version,
            global_seq: self.global_seq,
            data: self.data.dup(),
            metadata: crate::table::dup_all(&self.metadata),
            ts_ms: self.ts_ms,
        }
    }
}

impl Event {
    pub fn from_parts(e: Envelope) -> (r: Self)
        ensures
            r@ == e@,
    {
        Event {
            id: e.id,
            event_type: e.event_type,
            version: e.version,
            global_seq: e.seq,
            data: e.data,
            metadata: e.metadata,
            ts_ms: e.ts_ms,
        }
    }
}

} // verus!
