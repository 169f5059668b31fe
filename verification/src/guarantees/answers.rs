//! How answers stand for outcomes.
use vstd::prelude::*;
use vstd::string::*;

use crate::envelope::{EnvelopeView, Event, StampView, Version};
use crate::error::{says, Error};
use crate::fuse::{Delta, DeltaView, Nodes};
use crate::fuse::fs::{entry_views, path_bytes, Errno, FileType};
use crate::fuse::mirror::path_views;
use crate::fuse::ops::{deltas_are, opt_name, path_is};
use crate::fuse::store::{all_cached, awaits_block, overlaps, whole_cached};
use crate::jobs::{opt_status, JobStatus};
use crate::kv::{answers, Db, Fault};
use crate::reader::opt_key;
use crate::snapshot::{opt_text, CompactionRecord};
use crate::sqlite::{CheckpointOpts, ManifestView};
use crate::sqlite::checkpoint::Publication;
use crate::stamp::is_id;
use crate::store::{opt_str, stamps_for};
use crate::store::compaction::{compact_outcome, compact_stamped};
use crate::store::retention::name_bytes;
use crate::table::views;
use crate::text::utf8;

verus! {

/// A rejected input is answered with its text.
pub proof fn rejection_carries_text(e: Error, text: Seq<char>)
    ensures
        says(e, text) <==> (e matches Error::InvalidInput(t) && t@ == text),
{
}

/// A read is answered with the events it found, all of them and in order, or
/// with the fault it met: a cycle of forks names the stream, and a record of the
/// wrong kind cannot be decoded.
pub proof fn read_is_answered(r: Result<Vec<Event>, Error>, outcome: Result<Seq<EnvelopeView>, Fault>)
    requires
        answers(r, outcome),
    ensures
        r is Ok <==> outcome is Ok,
        r is Ok ==> r->Ok_0@.len() == outcome->Ok_0.len() && forall|i: int|
            0 <= i < r->Ok_0@.len() ==> (#[trigger] r->Ok_0@[i])@ == outcome->Ok_0[i],
        r is Err && outcome->Err_0 is BadRecord ==> r->Err_0 is Encoding,
        r is Err && outcome->Err_0 is Cycle ==> r->Err_0 is InvalidInput && utf8(
            r->Err_0->InvalidInput_0@,
        ) == utf8("fork cycle at '"@) + outcome->Err_0->stream + utf8("'"@),
{
    if r is Ok {
        assert forall|i: int| 0 <= i < r->Ok_0@.len() implies (#[trigger] r->Ok_0@[i])@
            == outcome->Ok_0[i] by {
            assert(views(r->Ok_0@)[i] == r->Ok_0@[i]@);
        }
    }
}

/// A run of values is seen value by value.
pub proof fn values_are_seen_in_order<T: View>(s: Seq<T>, i: int)
    ensures
        views(s).len() == s.len(),
        0 <= i < s.len() ==> views(s)[i] == s[i]@,
{
}

/// Names and paths are seen as their bytes, in order.
pub proof fn names_are_seen_as_bytes(v: Seq<String>, es: Seq<(String, FileType)>, i: int)
    ensures
        name_bytes(v).len() == v.len(),
        path_views(v).len() == v.len(),
        path_bytes(v).len() == v.len(),
        entry_views(es).len() == es.len(),
        0 <= i < v.len() ==> name_bytes(v)[i] == utf8(v[i]@) && path_views(v)[i] == utf8(v[i]@)
            && path_bytes(v)[i] == utf8(v[i]@),
        0 <= i < es.len() ==> entry_views(es)[i] == (utf8(es[i].0@), es[i].1),
{
}

/// What may be missing is seen as missing, or as what it is.
pub proof fn options_are_seen(
    text: Option<String>,
    name: Option<&str>,
    key: Option<Vec<u8>>,
    status: Option<JobStatus>,
)
    ensures
        opt_text(text) is None <==> text is None,
        text is Some ==> opt_text(text) == Some(text->0@),
        opt_name(name) is None <==> name is None,
        name is Some ==> opt_name(name) == Some(name->0@),
        opt_str(name) == opt_name(name),
        opt_key(key) is None <==> key is None,
        key is Some ==> opt_key(key) == Some(key->0@),
        opt_status(status) is None <==> status is None,
        status is Some ==> opt_status(status) == Some(status->0@),
{
}

/// A request that leads to a path is answered with that path, and one that
/// fails with the error.
pub proof fn path_is_answered(r: Result<String, Errno>, want: Result<Seq<u8>, Errno>)
    requires
        path_is(r, want),
    ensures
        r is Ok <==> want is Ok,
        r is Ok ==> utf8(r->Ok_0@) == want->Ok_0,
        r is Err ==> r->Err_0 == want->Err_0,
{
}

/// A request that changes a path is answered with the path and exactly the
/// deltas wanted, or with the error.
pub proof fn deltas_are_answered(
    r: Result<(String, Vec<Delta>), Errno>,
    path: Result<Seq<u8>, Errno>,
    want: spec_fn(Seq<u8>) -> Seq<DeltaView>,
)
    requires
        deltas_are(r, path, want),
    ensures
        r is Ok <==> path is Ok,
        r is Err ==> r->Err_0 == path->Err_0,
        r is Ok ==> ({
            let (p, ds) = r->Ok_0;
            &&& utf8(p@) == path->Ok_0
            &&& ds@.len() == want(path->Ok_0).len()
            &&& forall|i: int|
                0 <= i < ds@.len() ==> (#[trigger] ds@[i])@ == want(path->Ok_0)[i]
        }),
{
    if r is Ok {
        let (p, ds) = r->Ok_0;
        assert forall|i: int| 0 <= i < ds@.len() implies (#[trigger] ds@[i])@ == want(
            path->Ok_0,
        )[i] by {
            assert(views(ds@)[i] == ds@[i]@);
        }
    }
}

/// A publication has the manifest and the deletions that it was made for, and
/// covers the version of its checkpoint.
pub proof fn publication_is_for_checkpoint(
    p: Publication,
    next: (ManifestView, Seq<Seq<char>>),
    through: Version,
    opts: CheckpointOpts,
)
    requires
        p.publishes(next, through, opts),
    ensures
        p.manifest@ == next.0,
        views(p.delete@) == next.1,
        p.through == through,
        p.purge_below is Some <==> opts.purge,
        opts.purge && through < u64::MAX ==> p.purge_below == Some((through + 1) as Version),
{
}

/// A compaction is stamped with an id of its own and some time.
pub proof fn compaction_is_stamped(
    before: Db,
    after: Db,
    stream: Seq<char>,
    s: Seq<EnvelopeView>,
    job_id: Option<Seq<char>>,
    state: Seq<u8>,
    r: Result<CompactionRecord, Error>,
)
    requires
        compact_stamped(before, after, stream, s, job_id, state, r),
    ensures
        exists|id: Seq<char>, ts_ms: i64|
            id.len() == 26 && #[trigger] compact_outcome(
                before,
                after,
                stream,
                s,
                job_id,
                state,
                id,
                ts_ms,
                r,
            ),
        r is Ok ==> s.len() > 0 && r->Ok_0@.through_version == s[s.len() - 1].version,
        r is Err ==> after == before,
{
    let (id, ts_ms) = choose|id: Seq<char>, ts_ms: i64|
        is_id(id) && #[trigger] compact_outcome(
            before,
            after,
            stream,
            s,
            job_id,
            state,
            id,
            ts_ms,
            r,
        );
    assert(id.len() == 26 && compact_outcome(
        before,
        after,
        stream,
        s,
        job_id,
        state,
        id,
        ts_ms,
        r,
    ));
}

/// An id has 26 digits of base 32, and a batch has a stamp with one per event.
pub proof fn ids_are_base32(stamps: Seq<StampView>, n: nat, i: int, j: int)
    requires
        stamps_for(stamps, n),
    ensures
        stamps.len() == n,
        0 <= i < n ==> stamps[i].id.len() == 26,
        0 <= i < n && 0 <= j < 26 ==> ({
            let c = stamps[i].id[j];
            ('0' <= c <= '9' || 'A' <= c <= 'Z') && c != 'I' && c != 'L' && c != 'O' && c != 'U'
        }),
{
    if 0 <= i < n {
        assert(is_id(stamps[i].id));
        if 0 <= j < 26 {
            assert(crate::stamp::is_symbol(stamps[i].id[j]));
        }
    }
}

/// A write that waits asks for a block of the file that is not at hand; one that
/// goes ahead has all of them.
pub proof fn write_waits_for_missing_block(
    nodes: Nodes,
    cache: Map<Seq<u8>, Seq<u8>>,
    path: Seq<u8>,
    hash: Seq<char>,
)
    ensures
        awaits_block(nodes, cache, path, hash) ==> {
            &&& nodes.contains_key(path) && nodes[path] is File && nodes[path]->File_content is Blocks
            &&& !cache.contains_key(utf8(hash))
            &&& exists|i: int|
                0 <= i < nodes[path]->File_content->blocks.len() && (
                #[trigger] nodes[path]->File_content->blocks[i]).hash == hash
        },
        awaits_block(nodes, cache, path, hash) ==> !whole_cached(nodes, cache, path),
{
    if awaits_block(nodes, cache, path, hash) {
        let blocks = nodes[path]->File_content->blocks;
        let size = nodes[path]->File_content.size();
        let i = choose|i: int|
            0 <= i < blocks.len() && #[trigger] overlaps(blocks, i, 0, size) && all_cached(
                blocks,
                cache,
                i,
                0,
                size,
            ) && !cache.contains_key(utf8(blocks[i].hash)) && hash == blocks[i].hash;
        assert(nodes[path]->File_content->blocks[i].hash == hash);
        assert(overlaps(blocks, i, 0, size));
    }
}

} // verus!
