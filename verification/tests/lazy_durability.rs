//! Durability split from commit: tickets, group commit, ts-index opt-out.

use slog::kv::Value;
use slog::store::{after_commit, await_seq, AfterCommit, CommitReply, CommitTicket, Wait, Write};
use slog::table::{Dup, Table};
use slog::{EventStore, ExpectedVersion, NewEvent, VersionRange};

fn ev(data: &str) -> NewEvent {
    NewEvent::new("test", data.as_bytes().to_vec())
}

/// Lazy appends commit without waiting for object storage; awaiting their
/// tickets later is the group-commit primitive: one shared WAL flush lands
/// them all, and a fresh opener then sees every batch.
#[test]
fn lazy_appends_share_one_durability_barrier() {
    let mut store = EventStore::open_in_memory();
    let mut bucket: Table<Vec<u8>, Value> = Table::new();

    let mut tickets: Vec<CommitTicket> = Vec::new();
    for i in 0..20u64 {
        let info = store
            .append(&format!("g{}", i % 4), ExpectedVersion::Any, vec![ev(&format!("e{i}"))])
            .unwrap();
        for w in store.take_writes() {
            match w {
                Write::Put { key, value } => {
                    bucket.insert(key, value);
                }
                Write::Delete { key } => {
                    bucket.remove(&key);
                }
            }
        }
        match after_commit(info, 0, CommitReply::Committed(i + 1)) {
            AfterCommit::Done(ticket) => tickets.push(ticket),
            other => panic!("{other:?}"),
        }
    }
    let highest = tickets.iter().map(|t| t.seq).max().unwrap();
    assert!(matches!(await_seq(highest, false, highest), Wait::Durable));
    for t in &tickets {
        assert!(matches!(await_seq(highest, false, t.seq), Wait::Durable));
    }
    assert_eq!(tickets[3].info.first_version, tickets[3].info.last_version);
    drop(store);

    let store2 = EventStore::over(bucket.dup());
    for s in 0..4 {
        let events = store2.read_stream(&format!("g{s}"), VersionRange::all()).unwrap();
        assert_eq!(events.len(), 5);
    }
}

/// Applications that never seek by time do not need a second key per event.
#[test]
fn unindexed_appends_skip_the_time_index() {
    let mut store = EventStore::open_in_memory();
    store
        .commit_appends("s", ExpectedVersion::NoStream, None, Some("w"), vec![ev("a")], false)
        .unwrap();
    assert!(store.db().keys_under(b"i/").is_empty(), "unindexed append wrote ts keys");
    assert!(store.seek_timestamp("s", 0).unwrap().is_none());

    store.append("t", ExpectedVersion::NoStream, vec![ev("b")]).unwrap();
    assert!(!store.db().keys_under(b"i/").is_empty(), "default append lost its ts key");
}
