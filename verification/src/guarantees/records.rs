//! Records are seen whole: nothing that they hold is left out of contracts.
use vstd::prelude::*;

use crate::envelope::{Envelope, Event, NewEvent, Stamp};
use crate::fork::ForkRef;
use crate::fuse::{
    BlockRef, Content, ContentView, Data, DataView, Delta, DeltaView, FsImage, Node, NodeMeta,
    NodeView,
};
use crate::fuse::mirror::StateEntry;
use crate::fuse::ops::Handle;
use crate::jobs::{JobEvent, JobEventView, JobStatus, JobStatusView};
use crate::kv::{Value, ValueView};
use crate::snapshot::{CompactionRecord, SnapshotRecord};
use crate::sqlite::{DbImage, Frame, Ltx, LtxBuilder, Manifest, SegmentRef};
use crate::store::{Op, OpView, Write, WriteView};
use crate::table::views;
use crate::text::utf8;

verus! {

/// Events, stored or new, and their stamps.
pub proof fn events_are_seen_whole(n: NewEvent, v: Envelope, e: Event, s: Stamp)
    ensures
        n@.event_type == n.event_type@,
        n@.data == n.data@,
        n@.metadata == views(n.metadata@),
        v@.id == v.id@,
        v@.event_type == v.event_type@,
        v@.version == v.version,
        v@.seq == v.seq,
        v@.data == v.data@,
        v@.metadata == views(v.metadata@),
        v@.ts_ms == v.ts_ms,
        e@.id == e.id@,
        e@.event_type == e.event_type@,
        e@.version == e.version,
        e@.seq == e.global_seq,
        e@.data == e.data@,
        e@.metadata == views(e.metadata@),
        e@.ts_ms == e.ts_ms,
        s@.id == s.id@,
        s@.now_ms == s.now_ms,
{
}

/// Fork points, snapshots, compactions and jobs.
pub proof fn bookkeeping_is_seen_whole(
    f: ForkRef,
    s: SnapshotRecord,
    c: CompactionRecord,
    j: JobEvent,
    t: JobStatus,
)
    ensures
        f@.stream == f.stream@,
        f@.at_version == f.at_version,
        s@.through_version == s.through_version,
        s@.ts_ms == s.ts_ms,
        s@.state == s.state@,
        c@.stream == c.stream@,
        c@.through_version == c.through_version,
        c@.events_compacted == c.events_compacted,
        c@.ts_ms == c.ts_ms,
        c@.job_id is Some <==> c.job_id is Some,
        c.job_id is Some ==> c@.job_id->0 == c.job_id->0@,
        match j {
            JobEvent::Requested { job_id, stream, ts_ms } => j@ == (JobEventView::Requested {
                job_id: job_id@,
                stream: stream@,
                ts_ms,
            }),
            JobEvent::Claimed { job_id, worker, ts_ms } => j@ == (JobEventView::Claimed {
                job_id: job_id@,
                worker: worker@,
                ts_ms,
            }),
            JobEvent::Failed { job_id, error, ts_ms } => j@ == (JobEventView::Failed {
                job_id: job_id@,
                error: error@,
                ts_ms,
            }),
        },
        match t {
            JobStatus::Pending => t@ == JobStatusView::Pending,
            JobStatus::Claimed { worker } => t@ == (JobStatusView::Claimed { worker: worker@ }),
            JobStatus::Completed => t@ == JobStatusView::Completed,
            JobStatus::Failed { error } => t@ == (JobStatusView::Failed { error: error@ }),
        },
{
}

/// Records of the store, what is written of them, and the operations of a
/// transaction.
pub proof fn writes_are_seen_whole(v: Value, w: Write, o: Op)
    ensures
        match v {
            Value::Bytes(b) => v@ == ValueView::Bytes(b@),
            Value::Event(e) => v@ == ValueView::Event(e@),
            Value::Tail(t) => v@ == ValueView::Tail(t),
            Value::Fork(f) => v@ == ValueView::Fork(f@),
            Value::Snapshot(s) => v@ == ValueView::Snapshot(s@),
            Value::Compaction(c) => v@ == ValueView::Compaction(c@),
            Value::Job(j) => v@ == ValueView::Job(j@),
        },
        match w {
            Write::Put { key, value } => w@ == (WriteView::Put { key: key@, value: value@ }),
            Write::Delete { key } => w@ == (WriteView::Delete { key: key@ }),
        },
        match o {
            Op::Append { stream, expected, events } => o@ == (OpView::Append {
                stream: stream@,
                expected,
                events: views(events@),
            }),
            Op::Fence { stream, token } => o@ is Fence && o@->Fence_stream == stream@ && (
            o@->token is Some <==> token is Some) && (token is Some ==> o@->token->0 == token->0@),
        },
{
}

/// Nodes of a volume, their metadata and content.
pub proof fn nodes_are_seen_whole(m: NodeMeta, b: BlockRef, c: Content, d: Data, n: Node, i: FsImage)
    ensures
        m@.mode == m.mode,
        m@.uid == m.uid,
        m@.gid == m.gid,
        m@.mtime_ms == m.mtime_ms,
        m@.xattrs == m.xattrs@,
        b@.hash == b.hash@,
        b@.len == b.len,
        match c {
            Content::Inline(x) => c@ == ContentView::Inline(x@),
            Content::Blocks { blocks, size } => c@ == (ContentView::Blocks {
                blocks: views(blocks@),
                size,
            }),
        },
        match d {
            Data::Inline(x) => d@ == DataView::Inline(x@),
            Data::Blocks(x) => d@ == DataView::Blocks(views(x@)),
        },
        match n {
            Node::File { content, meta } => n@ == (NodeView::File {
                content: content@,
                meta: meta@,
            }),
            Node::Dir { meta } => n@ == (NodeView::Dir { meta: meta@ }),
            Node::Symlink { target, meta } => n@ == (NodeView::Symlink {
                target: target@,
                meta: meta@,
            }),
        },
        i@ == i.nodes@,
{
}

/// The deltas of a volume.
pub proof fn deltas_are_seen_whole(d: Delta)
    ensures
        match d {
            Delta::Write { path, offset, data } => d@ == (DeltaView::Write {
                path: utf8(path@),
                offset,
                data: data@,
            }),
            Delta::Mkdir { path } => d@ == (DeltaView::Mkdir { path: utf8(path@) }),
            Delta::Remove { path } => d@ == (DeltaView::Remove { path: utf8(path@) }),
            Delta::Rename { from, to } => d@ == (DeltaView::Rename {
                from: utf8(from@),
                to: utf8(to@),
            }),
            Delta::Symlink { path, target } => d@ == (DeltaView::Symlink {
                path: utf8(path@),
                target: target@,
            }),
            Delta::SetAttr { path, mode, uid, gid, mtime_ms } => d@ == (DeltaView::SetAttr {
                path: utf8(path@),
                mode,
                uid,
                gid,
                mtime_ms,
            }),
            Delta::SetXattr { path, name, value } => d@ is SetXattr && d@->SetXattr_path == utf8(
                path@,
            ) && d@->name == utf8(name@) && (d@->value is Some <==> value is Some) && (value is Some
                ==> d@->value->0 == value->0@),
        },
{
}

/// Open handles, and what a mirror knows of a path.
pub proof fn handles_are_seen_whole(h: Handle, e: StateEntry)
    ensures
        h@.ino == h.ino,
        h@.extents == views(h.extents@),
        e@.size == e.size,
        e@.mtime_ms == e.mtime_ms,
        e@.mode == e.mode,
        e@.target is Some <==> e.target is Some,
        e.target is Some ==> e@.target->0 == e.target->0@,
        e@.content is Some <==> e.content is Some,
        e.content is Some ==> e@.content->0 == e.content->0@,
{
}

/// What is kept of a database.
pub proof fn databases_are_seen_whole(
    f: Frame,
    d: crate::sqlite::Delta,
    l: Ltx,
    s: SegmentRef,
    m: Manifest,
    i: DbImage,
    b: LtxBuilder,
)
    ensures
        f@.pgno == f.pgno,
        f@.data == f.data@,
        d@.txid == d.txid,
        d@.page_size == d.page_size,
        d@.db_size == d.db_size,
        d@.pages == views(d.pages@),
        l@.txid_start == l.txid_start,
        l@.txid_end == l.txid_end,
        l@.page_size == l.page_size,
        l@.db_size == l.db_size,
        l@.pages == views(l.pages@),
        s@.path == s.path@,
        s@.txid_start == s.txid_start,
        s@.txid_end == s.txid_end,
        s@.page_size == s.page_size,
        s@.db_size == s.db_size,
        m@.segments == views(m.segments@),
        m@.retire == views(m.retire@),
        i@.page_size == i.page_size,
        i@.db_size == i.db_size,
        i@.txid == i.txid,
        i@.pages == i.pages@,
        b@.base == b.base,
        b@.txid_start == b.txid_start,
        b@.txid_end == b.txid_end,
        b@.page_size == b.page_size,
        b@.db_size == b.db_size,
        b@.pages == b.pages@,
{
}

} // verus!
