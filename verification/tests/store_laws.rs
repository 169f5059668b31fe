//! The store's promises on concrete values, with given stamps.

use slog::envelope::Stamp;
use slog::jobs::{fold, JobEvent, JobStatus};
use slog::kv::{Records, Value};
use slog::reader::EventStoreReader;
use slog::table::{Dup, Table};
use slog::{
    Aggregate, CompactionRecord, Error, Event, EventStore, ExpectedVersion, NewEvent, PageLimit,
    VersionRange,
};

fn ev(data: &str) -> NewEvent {
    NewEvent::new("e", data.as_bytes().to_vec())
}

fn stamp(now_ms: i64) -> Stamp {
    Stamp { id: format!("id-{now_ms}"), now_ms }
}

/// One event at each of the given times.
fn timed(store: &mut EventStore, stream: &str, times: &[i64]) {
    for t in times {
        let events = vec![ev("x")];
        store
            .append_stamped(
                stream,
                ExpectedVersion::Any,
                None,
                None,
                events,
                vec![stamp(*t)],
                true,
            )
            .unwrap();
    }
}

fn versions(events: &[Event]) -> Vec<u64> {
    events.iter().map(|e| e.version).collect()
}

#[test]
fn a_batch_takes_the_later_of_clock_and_tail_time() {
    let mut store = EventStore::open_in_memory();
    timed(&mut store, "s", &[50, 20, 90]);
    let events = store.read_stream("s", VersionRange::all()).unwrap();
    assert_eq!(events.iter().map(|e| e.ts_ms).collect::<Vec<_>>(), [50, 50, 90]);
    assert_eq!(events.iter().map(|e| e.global_seq).collect::<Vec<_>>(), [1, 2, 3]);
    assert_eq!(events[1].id, "id-20");
    assert_eq!(store.check_tail("s").unwrap(), Some((2, 90)));
}

#[test]
fn seek_finds_the_first_event_at_or_after_a_time() {
    let mut store = EventStore::open_in_memory();
    timed(&mut store, "s", &[10, 30, 30, 70]);
    assert_eq!(store.seek_timestamp("s", 0).unwrap(), Some(0));
    assert_eq!(store.seek_timestamp("s", 30).unwrap(), Some(1));
    assert_eq!(store.seek_timestamp("s", 31).unwrap(), Some(3));
    assert_eq!(store.seek_timestamp("s", 71).unwrap(), None);
}

#[test]
fn appends_leave_other_streams_alone() {
    let mut store = EventStore::open_in_memory();
    timed(&mut store, "a", &[1, 2]);
    let before = store.read_stream("a", VersionRange::all()).unwrap();
    timed(&mut store, "b", &[3]);
    store.append_at("b", 0, ExpectedVersion::Any, vec![ev("y")]).unwrap();
    let after = store.read_stream("a", VersionRange::all()).unwrap();
    assert_eq!(format!("{before:?}"), format!("{after:?}"));
    assert_eq!(store.read_stream("b", VersionRange::all()).unwrap()[0].data, b"y");
}

#[test]
fn pages_continue_where_the_last_one_stopped() {
    let mut store = EventStore::open_in_memory();
    timed(&mut store, "s", &[1, 2, 3, 4, 5]);
    let mut from = Some(0);
    let mut seen = Vec::new();
    while let Some(v) = from {
        let limit = PageLimit { max_count: 2, max_bytes: 100 };
        let (page, cursor) = store.read_page("s", v, limit).unwrap();
        seen.extend(versions(&page));
        from = cursor;
    }
    assert_eq!(seen, [0, 1, 2, 3, 4]);
}

#[test]
fn ranges_split_a_read() {
    let mut store = EventStore::open_in_memory();
    timed(&mut store, "s", &[1, 2, 3, 4, 5]);
    store.fork("s", 2, "f").unwrap();
    timed(&mut store, "f", &[9, 9]);
    let all = versions(&store.read_history("f", VersionRange::all()).unwrap());
    for k in 0..=all.len() as u64 {
        let mut parts = versions(&store.read_history("f", VersionRange::between(0, k)).unwrap());
        parts.extend(versions(&store.read_history("f", VersionRange::from(k)).unwrap()));
        assert_eq!(parts, all);
    }
}

#[test]
fn a_deleted_stream_shows_what_forks_pin() {
    let mut store = EventStore::open_in_memory();
    timed(&mut store, "s", &[1, 2, 3]);
    store.fork("s", 1, "near").unwrap();
    store.fork("s", 2, "far").unwrap();
    store.delete_stream("s").unwrap();
    assert_eq!(versions(&store.read_stream("s", VersionRange::all()).unwrap()), [0, 1, 2]);
    store.delete_stream("far").unwrap();
    assert_eq!(versions(&store.read_stream("s", VersionRange::all()).unwrap()), [0, 1]);
    store.delete_stream("near").unwrap();
    assert!(store.read_stream("s", VersionRange::all()).unwrap().is_empty());
}

#[test]
fn fork_pins_are_found_for_names_with_slashes() {
    let mut store = EventStore::open_in_memory();
    timed(&mut store, "s", &[1, 2, 3]);
    store.fork("s", 1, "team/child").unwrap();
    store.delete_stream("s").unwrap();
    assert_eq!(versions(&store.read_stream("s", VersionRange::all()).unwrap()), [0, 1]);
    assert_eq!(store.purge_below("s", 10).unwrap(), 1);
    assert_eq!(
        versions(&store.read_history("team/child", VersionRange::all()).unwrap()),
        [0, 1]
    );
}

#[test]
fn a_purge_of_many_events_runs_in_chunks() {
    let mut store = EventStore::open_in_memory();
    for _ in 0..3 {
        let events = (0..900).map(|_| ev("x")).collect();
        store.append("s", ExpectedVersion::Any, events).unwrap();
    }
    let (deleted, next) = store.purge_chunk("s", 0, 2600).unwrap().unwrap();
    assert_eq!((deleted, next), (1024, 1024));
    assert_eq!(store.purge_below("s", 2600).unwrap(), 1576);
    assert_eq!(store.purge_below("s", 2600).unwrap(), 0);
    let left = versions(&store.read_stream("s", VersionRange::all()).unwrap());
    assert_eq!((left.len(), left[0]), (100, 2600));
}

#[test]
fn writes_replay_to_the_same_records() {
    let mut store = EventStore::open_in_memory();
    let mut copy: Records = Table::new();
    timed(&mut store, "s", &[1, 2, 3]);
    store.fork("s", 1, "c").unwrap();
    store.trim_below("s", 1).unwrap();
    store.delete_stream("c").unwrap();
    for w in store.take_writes() {
        match w {
            slog::store::Write::Put { key, value } => {
                copy.insert(key, value);
            }
            slog::store::Write::Delete { key } => {
                copy.remove(&key);
            }
        }
    }
    assert!(store.take_writes().is_empty());
    assert_eq!(format!("{copy:?}"), format!("{:?}", store.db()));
}

/// Counts events, and saves the count.
struct Count(u64);

impl Aggregate for Count {
    fn initial() -> Self {
        Count(0)
    }

    fn apply(&mut self, _event: &Event) {
        self.0 += 1;
    }

    fn snapshot(&self) -> Result<Vec<u8>, Error> {
        Ok(self.0.to_be_bytes().to_vec())
    }

    fn restore(state: &[u8]) -> Result<Self, Error> {
        match state.try_into() {
            Ok(bytes) => Ok(Count(u64::from_be_bytes(bytes))),
            Err(_) => Err(slog::aggregate::no_restore()),
        }
    }
}

#[test]
fn a_snapshot_stands_for_the_events_it_covers() {
    let mut store = EventStore::open_in_memory();
    timed(&mut store, "s", &[1, 2, 3]);
    store.compact::<Count>("s").unwrap();
    timed(&mut store, "s", &[4, 5]);
    let (count, version) = store.rehydrate::<Count>("s").unwrap();
    assert_eq!((count.0, version), (5, Some(4)));
    assert_eq!(store.compaction_backlog("s").unwrap(), 2);
    // The snapshot carries what retention has removed.
    store.purge_below("s", 3).unwrap();
    let (count, _) = store.rehydrate::<Count>("s").unwrap();
    assert_eq!(count.0, 5);
}

#[test]
fn the_last_published_snapshot_is_the_latest() {
    let mut store = EventStore::open_in_memory();
    timed(&mut store, "s", &[1]);
    for (i, state) in ["first", "second"].iter().enumerate() {
        let record = CompactionRecord {
            stream: "s".to_string(),
            through_version: 0,
            events_compacted: 1,
            job_id: None,
            ts_ms: i as i64,
        };
        let id = format!("{i}");
        store.publish_snapshot_as("s", record, state.as_bytes().to_vec(), &id).unwrap();
    }
    let snap = store.latest_snapshot("s").unwrap().unwrap();
    assert_eq!((snap.state.as_slice(), snap.ts_ms), (&b"second"[..], 1));
    let e = store.compact::<Count>("empty").unwrap_err();
    assert_eq!(e.message(), "'empty' has no events to compact");
}

#[test]
fn a_job_is_claimed_once() {
    let mut store = EventStore::open_in_memory();
    store.write_job(JobEvent::requested("j".into(), "s".into()), "1");
    store.claim_as("j", JobEvent::claimed("j".into(), "w1".into()), "2").unwrap();
    let again = JobEvent::claimed("j".into(), "w2".into());
    let e = store.claim_as("j", again, "3").unwrap_err();
    assert_eq!(e.message(), "job 'j' is not claimable: Some(Claimed { worker: \"w1\" })");
    assert_eq!(
        store.job_status("j").unwrap(),
        Some(JobStatus::Claimed { worker: "w1".into() })
    );
    let e = store.claim_compaction("unknown", "w").unwrap_err();
    assert_eq!(e.message(), "job 'unknown' is not claimable: None");
    assert_eq!(fold(&Vec::new()), None);
    let failed = vec![
        JobEvent::requested("j".into(), "s".into()),
        JobEvent::failed("j".into(), "out".into()),
    ];
    assert_eq!(fold(&failed), Some(JobStatus::Failed { error: "out".into() }));
}

#[test]
fn followers_get_each_event_once_and_in_order() {
    let mut store = EventStore::open_in_memory();
    timed(&mut store, "s", &[1, 2]);
    let reader = EventStoreReader::over(store.db().dup());
    let (first, cursor) = reader.follow_stream("s", 1, None).unwrap();
    assert_eq!(versions(&first), [1]);
    timed(&mut store, "s", &[3, 4]);
    let reader = EventStoreReader::over(store.db().dup());
    let (second, cursor) = reader.follow_stream("s", 1, cursor).unwrap();
    assert_eq!(versions(&second), [2, 3]);
    let (third, _) = reader.follow_stream("s", 1, cursor).unwrap();
    assert!(third.is_empty());
}

#[test]
fn readers_leave_marker_events_out_of_history() {
    let mut store = EventStore::open_in_memory();
    let marker = NewEvent::new("$mark", Vec::new());
    store.append("s", ExpectedVersion::Any, vec![ev("a"), marker, ev("b")]).unwrap();
    let reader = EventStoreReader::over(store.db().dup());
    assert_eq!(versions(&reader.read_history("s", VersionRange::all()).unwrap()), [0, 2]);
    assert_eq!(versions(&reader.read_stream("s", VersionRange::all()).unwrap()), [0, 1, 2]);
    assert_eq!(reader.stream_version("s").unwrap(), Some(2));
    assert!(reader.latest_snapshot("s").unwrap().is_none());
    assert!(reader.compaction_records().unwrap().is_empty());
}

#[test]
fn tables_keep_their_keys_in_order() {
    let mut db: Records = Table::new();
    for key in ["b", "a", "ab", "c"] {
        db.insert(key.as_bytes().to_vec(), Value::Bytes(Vec::new()));
    }
    assert_eq!(db.keys_under(b"a"), [b"a".to_vec(), b"ab".to_vec()]);
    db.remove_under(b"a");
    assert_eq!(db.keys_under(b""), [b"b".to_vec(), b"c".to_vec()]);
}

#[test]
fn deletion_stays() {
    let mut store = EventStore::open_in_memory();
    timed(&mut store, "s", &[1]);
    store.delete_stream("s").unwrap();
    timed(&mut store, "s", &[2]);
    assert!(store.read_stream("s", VersionRange::all()).unwrap().is_empty());
    assert!(store.append("s", ExpectedVersion::NoStream, vec![ev("x")]).is_err());
    assert!(store.list_streams().unwrap().is_empty());
}

#[test]
fn aggregates_may_do_without_snapshots() {
    assert_eq!(
        slog::aggregate::no_snapshot().message(),
        "aggregate does not implement snapshot()"
    );
    assert_eq!(
        slog::aggregate::no_restore().message(),
        "aggregate does not implement restore()"
    );
}

/// An append that has read the tail, the fence and the counter makes the same
/// changes as one that holds everything.
#[test]
fn appends_need_few_records() {
    let mut store = EventStore::open_in_memory();
    timed(&mut store, "other", &[1, 2]);
    timed(&mut store, "s", &[3]);
    store.fence("s", Some("w")).unwrap();
    let mut part: Records = Table::new();
    for key in ["m/s/tail", "m/s/fence", "g/seq"] {
        part.insert(key.as_bytes().to_vec(), store.db().get(key.as_bytes()).unwrap().dup());
    }
    let mut whole: Records = store.db().dup();
    let mut small = EventStore::over(part);
    let append = |s: &mut EventStore| {
        let events = vec![ev("x"), ev("y")];
        let stamps = vec![stamp(4), stamp(5)];
        s.append_stamped("s", ExpectedVersion::Exact(0), None, Some("w"), events, stamps, true)
            .unwrap()
    };
    assert_eq!(append(&mut store), append(&mut small));
    for w in small.take_writes() {
        match w {
            slog::store::Write::Put { key, value } => {
                whole.insert(key, value);
            }
            slog::store::Write::Delete { key } => {
                whole.remove(&key);
            }
        }
    }
    assert_eq!(format!("{whole:?}"), format!("{:?}", store.db()));
}

/// What a fork inherits cannot be replaced, what lies past the fork point can.
#[test]
fn pinned_versions_are_not_replaced() {
    let mut store = EventStore::open_in_memory();
    timed(&mut store, "s", &[1, 2, 3, 4]);
    store.fork("s", 1, "c").unwrap();
    let before = store.read_history("c", VersionRange::all()).unwrap();
    for v in [0, 1] {
        let e = store.append_at("s", v, ExpectedVersion::Any, vec![ev("y")]).unwrap_err();
        assert_eq!(e.message(), format!("version {v} is pinned by a live fork"));
    }
    store.append_at("s", 2, ExpectedVersion::Any, vec![ev("z")]).unwrap();
    let after = store.read_history("c", VersionRange::all()).unwrap();
    assert_eq!(format!("{before:?}"), format!("{after:?}"));
    assert_eq!(store.read_stream("s", VersionRange::all()).unwrap()[2].data, b"z");
    // Once the fork is gone nothing is pinned.
    store.delete_stream("c").unwrap();
    store.append_at("s", 0, ExpectedVersion::Any, vec![ev("y")]).unwrap();
}

/// Through the fork point a history is the parent's, above it the fork's own.
#[test]
fn a_fork_adds_nothing_below_its_fork_point() {
    let mut store = EventStore::open_in_memory();
    timed(&mut store, "s", &[1, 2, 3]);
    store.fork("s", 2, "c").unwrap();
    timed(&mut store, "c", &[9]);
    store.append_at("c", 1, ExpectedVersion::Any, vec![ev("own"), ev("own")]).unwrap();
    let history = store.read_history("c", VersionRange::all()).unwrap();
    assert_eq!(versions(&history), [0, 1, 2, 3]);
    assert!(history.iter().all(|e| e.data == b"x"));
    assert_eq!(versions(&store.read_history("c", VersionRange::between(1, 2)).unwrap()), [1]);
}

/// A stream keeps to itself beside one that is named below it.
#[test]
fn streams_named_below_others_are_their_own() {
    let mut store = EventStore::open_in_memory();
    timed(&mut store, "a", &[10, 20]);
    timed(&mut store, "a/b", &[30, 40, 50]);
    timed(&mut store, "a/0000000000000001", &[60]);
    assert_eq!(versions(&store.read_stream("a", VersionRange::all()).unwrap()), [0, 1]);
    assert_eq!(versions(&store.read_stream("a/b", VersionRange::all()).unwrap()), [0, 1, 2]);
    assert_eq!(store.seek_timestamp("a", 25).unwrap(), None);
    assert_eq!(store.seek_timestamp("a/b", 35).unwrap(), Some(1));
    let record = CompactionRecord {
        stream: "a/b".to_string(),
        through_version: 1,
        events_compacted: 2,
        job_id: None,
        ts_ms: 7,
    };
    store.publish_snapshot_as("a/b", record, b"state".to_vec(), "id").unwrap();
    assert!(store.latest_snapshot("a").unwrap().is_none());
    assert_eq!(store.latest_snapshot("a/b").unwrap().unwrap().state, b"state");
    assert_eq!(store.purge_below("a", 10).unwrap(), 2);
    assert_eq!(versions(&store.read_stream("a/b", VersionRange::all()).unwrap()), [0, 1, 2]);
    assert_eq!(
        versions(&store.read_stream("a/0000000000000001", VersionRange::all()).unwrap()),
        [0]
    );
}

/// A purge starts past what live forks pin.
#[test]
fn a_purge_starts_past_the_pins() {
    let mut store = EventStore::open_in_memory();
    timed(&mut store, "s", &[1, 2, 3, 4]);
    assert_eq!(store.first_purgeable("s"), Some(0));
    store.fork("s", 1, "c").unwrap();
    assert_eq!(store.first_purgeable("s"), Some(2));
    assert_eq!(store.purge_below("s", 3).unwrap(), 1);
    assert_eq!(versions(&store.read_stream("s", VersionRange::all()).unwrap()), [0, 1, 3]);
}

/// A job that a compaction record answers is complete, claimed or not.
#[test]
fn a_completed_job_cannot_be_claimed() {
    let mut store = EventStore::open_in_memory();
    timed(&mut store, "s", &[1]);
    store.write_job(JobEvent::requested("j".into(), "s".into()), "1");
    let record = CompactionRecord {
        stream: "s".to_string(),
        through_version: 0,
        events_compacted: 1,
        job_id: Some("j".to_string()),
        ts_ms: 5,
    };
    store.publish_snapshot_as("s", record, b"state".to_vec(), "r1").unwrap();
    assert_eq!(store.job_status("j").unwrap(), Some(JobStatus::Completed));
    let e = store.claim_compaction("j", "w").unwrap_err();
    assert_eq!(e.message(), "job 'j' is not claimable: Some(Completed)");
}

/// A publication adds its own compaction record to those there were.
#[test]
fn a_publication_adds_one_record() {
    let mut store = EventStore::open_in_memory();
    timed(&mut store, "s", &[1, 2, 3]);
    for (id, v) in [("b", 0), ("c", 1), ("a", 2)] {
        let record = CompactionRecord {
            stream: "s".to_string(),
            through_version: v,
            events_compacted: v + 1,
            job_id: None,
            ts_ms: 5,
        };
        store.publish_snapshot_as("s", record, Vec::new(), id).unwrap();
    }
    let through: Vec<u64> =
        store.compaction_records().unwrap().iter().map(|r| r.through_version).collect();
    assert_eq!(through, [2, 0, 1]);
    assert_eq!(store.latest_snapshot("s").unwrap().unwrap().through_version, 2);
}

/// An append in place is read back at whatever version it starts.
#[test]
fn appends_at_any_version_are_read_back() {
    let wide = 10_000_000_000_000_000;
    let mut store = EventStore::open_in_memory();
    let info = store.append_at("s", wide, ExpectedVersion::Any, vec![ev("w")]).unwrap();
    assert_eq!((info.first_version, info.last_version), (wide, wide));
    let all = store.read_stream("s", VersionRange::all()).unwrap();
    assert_eq!((all[0].version, all[0].data.as_slice()), (wide, &b"w"[..]));
    assert_eq!(store.stream_version("s").unwrap(), Some(wide));

    // Versions of any width come in order.
    store.append_at("s", 5, ExpectedVersion::Any, vec![ev("a")]).unwrap();
    store.append_at("s", wide - 1, ExpectedVersion::Any, vec![ev("b"), ev("c")]).unwrap();
    store.append_at("s", u64::MAX, ExpectedVersion::Any, vec![ev("z")]).unwrap();
    let order = [5, wide - 1, wide, u64::MAX];
    assert_eq!(versions(&store.read_stream("s", VersionRange::all()).unwrap()), order);
    assert_eq!(versions(&store.read_history("s", VersionRange::all()).unwrap()), order);
    assert_eq!(
        versions(&store.read_stream("s", VersionRange::between(6, wide + 1)).unwrap()),
        [wide - 1, wide]
    );
    let reader = EventStoreReader::over(store.db().dup());
    assert_eq!(versions(&reader.follow_stream("s", 6, Some(wide - 1)).unwrap().0), order[2..]);
    let (page, cursor) =
        store.read_page("s", 0, PageLimit { max_count: 2, max_bytes: 100 }).unwrap();
    assert_eq!((versions(&page), cursor), (vec![5, wide - 1], Some(wide)));

    // No version follows the last one.
    let e = store.append("s", ExpectedVersion::Any, vec![ev("y")]).unwrap_err();
    assert_eq!(e.message(), "versions exhausted");

    // Rollback windows, forks and purges reach there, too.
    store.trim("s", u64::MAX, 0).unwrap();
    assert_eq!(versions(&store.read_stream("s", VersionRange::all()).unwrap()), order[..3]);
    store.fork("s", wide - 1, "f").unwrap();
    assert_eq!(
        versions(&store.read_history("f", VersionRange::all()).unwrap()),
        [5, wide - 1]
    );
    assert_eq!(store.purge_below("s", wide + 1).unwrap(), 1);
    assert_eq!(versions(&store.read_stream("s", VersionRange::all()).unwrap()), [5, wide - 1]);
}

/// Times of any width are found.
#[test]
fn seeks_find_late_times() {
    let late = 10_000_000_000_000_000;
    let mut store = EventStore::open_in_memory();
    timed(&mut store, "s", &[9, late, late, late + 5]);
    assert_eq!(store.seek_timestamp("s", -4).unwrap(), Some(0));
    assert_eq!(store.seek_timestamp("s", 10).unwrap(), Some(1));
    assert_eq!(store.seek_timestamp("s", late + 1).unwrap(), Some(3));
    assert_eq!(store.seek_timestamp("s", late + 6).unwrap(), None);
}

/// A tail of a stream yields its own events only.
#[test]
fn a_tail_leaves_out_streams_named_below() {
    let mut store = EventStore::open_in_memory();
    timed(&mut store, "a", &[1]);
    timed(&mut store, "a/b", &[2, 3, 4]);
    let reader = EventStoreReader::over(store.db().dup());
    assert_eq!(versions(&reader.follow_stream("a", 0, None).unwrap().0), [0]);
    assert_eq!(versions(&reader.follow_stream("a/b", 0, None).unwrap().0), [0, 1, 2]);
}

/// Only forks pin: a stream that is named in the registry of another holds no
/// pin on it.
#[test]
fn a_stream_named_like_a_registry_is_no_pin() {
    let mut store = EventStore::open_in_memory();
    timed(&mut store, "x", &[1, 2, 3]);
    timed(&mut store, "x/forks", &[4, 5, 6]);
    store.trim_below("x/forks", 2).unwrap();
    store.fence("x/forks", Some("12345678")).unwrap();
    assert_eq!(store.first_purgeable("x"), Some(0));
    store.append_at("x", 0, ExpectedVersion::Any, vec![ev("y")]).unwrap();
    assert_eq!(store.read_stream("x", VersionRange::all()).unwrap()[0].data, b"y");
    store.delete_stream("x").unwrap();
    assert!(store.read_stream("x", VersionRange::all()).unwrap().is_empty());
}

/// What a parent takes on after a fork does not show in the child.
#[test]
fn parent_appends_stay_out_of_the_child() {
    let mut store = EventStore::open_in_memory();
    timed(&mut store, "s", &[1, 2, 3]);
    store.fork("s", 1, "c").unwrap();
    timed(&mut store, "c", &[4]);
    let before = store.read_history("c", VersionRange::all()).unwrap();
    timed(&mut store, "s", &[5, 6]);
    store.append_at("s", 2, ExpectedVersion::Any, vec![ev("y")]).unwrap();
    let after = store.read_history("c", VersionRange::all()).unwrap();
    assert_eq!(format!("{before:?}"), format!("{after:?}"));
    assert_eq!(versions(&after), [0, 1, 2]);
}

/// The error of a failed restore is the aggregate's own.
#[test]
fn a_failed_restore_says_why() {
    let mut store = EventStore::open_in_memory();
    timed(&mut store, "s", &[1]);
    let record = CompactionRecord {
        stream: "s".to_string(),
        through_version: 0,
        events_compacted: 1,
        job_id: None,
        ts_ms: 5,
    };
    store.publish_snapshot_as("s", record, b"short".to_vec(), "id").unwrap();
    let e = match store.rehydrate::<Count>("s") {
        Err(e) => e,
        Ok(_) => panic!("restored"),
    };
    assert_eq!(e.message(), "aggregate does not implement restore()");
}
