use slog::envelope::{Envelope, Stored};
use slog::kv::{Records, Value};
use slog::store::{
    after_commit, await_seq, AfterCommit, CommitReply, Wait, Write, COMMIT_RETRIES,
};
use slog::table::{Dup, Table};
use slog::wire::{from_wire, Wire};
use slog::{Error, EventStore, ExpectedVersion, NewEvent, PageLimit, VersionRange};

fn ev(data: &str) -> NewEvent {
    NewEvent::new("test", data.as_bytes().to_vec())
}

#[test]
fn fence_coordinates_writers() {
    let mut store = EventStore::open_in_memory();

    // Unfenced: any token works.
    store
        .append_with_token("s", "w0", ExpectedVersion::Any, vec![ev("a")])
        .unwrap();

    store.fence("s", Some("w1")).unwrap();

    // Wrong token: rejected, carrying the current token.
    let err = store
        .append_with_token("s", "w2", ExpectedVersion::Any, vec![ev("b")])
        .unwrap_err();
    match err {
        Error::FenceMismatch { stream, current_token } => {
            assert_eq!(stream, "s");
            assert_eq!(current_token, "w1");
        }
        other => panic!("expected FenceMismatch, got {other:?}"),
    }

    // Right token: succeeds.
    store
        .append_with_token("s", "w1", ExpectedVersion::Any, vec![ev("c")])
        .unwrap();

    // Plain append is cooperative: never checks the fence.
    store.append("s", ExpectedVersion::Any, vec![ev("d")]).unwrap();

    // Clearing the fence lets any token through again.
    store.fence("s", None).unwrap();
    store
        .append_with_token("s", "w2", ExpectedVersion::Any, vec![ev("e")])
        .unwrap();
}

#[test]
fn append_durable_waits_for_watermark() {
    let mut store = EventStore::open_in_memory();
    let events: Vec<_> = (0..5).map(|i| ev(&format!("payload-{i}"))).collect();
    let batch_len = events.len() as u64;
    let info = store
        .append("s", ExpectedVersion::NoStream, events)
        .unwrap();
    // g/seq is the last committed sequence: the whole batch is at or below it.
    let durable = store.durable_sequence();
    assert!(durable >= info.start_sequence + batch_len - 1);

    // The wait for the commit's log sequence goes on until the watermark is there.
    let ticket = match after_commit(info, 0, CommitReply::Committed(7)) {
        AfterCommit::Done(ticket) => ticket,
        other => panic!("{other:?}"),
    };
    assert!(matches!(await_seq(6, false, ticket.seq), Wait::Pending));
    assert!(matches!(await_seq(7, false, ticket.seq), Wait::Durable));
    assert!(matches!(await_seq(8, true, ticket.seq), Wait::Durable));
    assert!(matches!(await_seq(6, true, ticket.seq), Wait::Closed));
}

#[test]
fn timestamps_are_monotonic() {
    let mut store = EventStore::open_in_memory();
    store.append("s", ExpectedVersion::NoStream, vec![ev("a"), ev("b")]).unwrap();
    store.append("s", ExpectedVersion::Any, vec![ev("c")]).unwrap();
    let events = store.read_stream("s", VersionRange::all()).unwrap();
    assert_eq!(events.len(), 3);
    assert!(events[0].ts_ms <= events[1].ts_ms);
    assert!(events[1].ts_ms <= events[2].ts_ms);
}

#[test]
fn batch_caps_are_enforced() {
    let mut store = EventStore::open_in_memory();

    let big_batch: Vec<_> = (0..1001).map(|_| ev("x")).collect();
    let err = store.append("s", ExpectedVersion::Any, big_batch).unwrap_err();
    assert!(matches!(err, Error::InvalidInput(_)), "{err:?}");

    let big_record = NewEvent::new("test", vec![0u8; 2 * 1024 * 1024]);
    let err = store
        .append_at("s", 0, ExpectedVersion::Any, vec![big_record])
        .unwrap_err();
    assert!(matches!(err, Error::InvalidInput(_)), "{err:?}");

    // A normal batch is fine.
    let ok: Vec<_> = (0..1000).map(|_| ev("x")).collect();
    store.append("s", ExpectedVersion::Any, ok).unwrap();
}

/// Streams are independent fate: concurrent appends on different streams
/// must not fail over shared bookkeeping (the sequence counter). Real
/// same-stream races still surface as VersionConflict.
#[test]
fn concurrent_streams_dont_conflict_on_the_sequence_counter() {
    let mut store = EventStore::open_in_memory();
    let mut errors = 0;
    for i in 0..20 {
        // Eight writers begin on the same records, so every commit but the
        // first of a round finds that the counter has moved on.
        let mut waiting: Vec<(u32, usize, EventStore)> =
            (0..8u32).map(|s| (s, 0, EventStore::over(store.db().dup()))).collect();
        let mut committed = 0u64;
        while !waiting.is_empty() {
            let mut again = Vec::new();
            for (n, (s, retries, mut txn)) in waiting.into_iter().enumerate() {
                let info = txn
                    .append(
                        &format!("stream-{s}"),
                        ExpectedVersion::Any,
                        vec![ev(&format!("{s}-{i}"))],
                    )
                    .unwrap();
                let reply = if n == 0 {
                    committed += 1;
                    CommitReply::Committed(committed)
                } else {
                    CommitReply::Conflict
                };
                match after_commit(info, retries, reply) {
                    AfterCommit::Done(ticket) => {
                        assert_eq!(ticket.info.last_version, i);
                        store = EventStore::over(txn.db().dup());
                    }
                    AfterCommit::Retry(retries) => again.push((s, retries)),
                    _ => errors += 1,
                }
            }
            waiting = again
                .into_iter()
                .map(|(s, retries)| (s, retries, EventStore::over(store.db().dup())))
                .collect();
        }
    }
    for s in 0..8 {
        let events = store.read_stream(&format!("stream-{s}"), VersionRange::all()).unwrap();
        assert_eq!(events.len(), 20);
    }
    assert_eq!(store.durable_sequence(), 160);
    assert_eq!(errors, 0);
}

/// A race that every retry loses is reported with where the stream stands.
#[test]
fn a_lost_race_is_a_version_conflict() {
    let mut store = EventStore::open_in_memory();
    let info = store.append("s", ExpectedVersion::Any, vec![ev("a"), ev("b")]).unwrap();
    let mut retries = 0;
    loop {
        match after_commit(info, retries, CommitReply::Conflict) {
            AfterCommit::Retry(n) => {
                assert_eq!(n, retries + 1);
                retries = n;
            }
            other => {
                assert!(matches!(other, AfterCommit::Conflict));
                break;
            }
        }
    }
    assert_eq!(retries, COMMIT_RETRIES);
    let e = store.lost_race("s", ExpectedVersion::Exact(0));
    assert_eq!(e.message(), "version conflict on 's': expected Exact(0), actual Some(1)");
    let failed = after_commit(info, 0, CommitReply::Failed("no bucket".to_string()));
    match failed {
        AfterCommit::Fail(e) => assert_eq!(e.message(), "backend: no bucket"),
        other => panic!("{other:?}"),
    }
}

/// Bulk payloads must not pay base64+JSON on the wire; legacy JSON-encoded
/// envelopes still decode.
#[test]
fn envelopes_store_binary_payloads_efficiently() {
    let mut store = EventStore::open_in_memory();
    let data = vec![7u8; 4096];
    store
        .append("s", ExpectedVersion::NoStream, vec![NewEvent::new("txb", data.clone())])
        .unwrap();

    let writes = store.take_writes();
    let envelope = writes
        .iter()
        .find_map(|w| match w {
            Write::Put { key, value: Value::Event(e) } if key.starts_with(b"r/s/") => Some(e),
            _ => None,
        })
        .unwrap();
    let raw = envelope.encode().unwrap();
    assert!(
        raw.len() < 4096 + 256,
        "wire overhead: {} bytes for a 4096-byte payload",
        raw.len()
    );
    match Envelope::decode(&raw).unwrap() {
        Stored::Binary(back) => {
            assert_eq!(back.data, data);
            assert_eq!(back.id, envelope.id);
            assert_eq!((back.version, back.seq), (0, 1));
        }
        other => panic!("{other:?}"),
    }
    assert!(matches!(Envelope::decode(&raw[..raw.len() - 1]), Err(Error::Bincode(_))));

    let e = &store.read_stream("s", VersionRange::all()).unwrap()[0];
    assert_eq!(e.data, data);

    let old = br#"{"id":"01JQZ000000000000000000000","type":"tx","version":9,"seq":1,"data":"e30=","ts_ms":1}"#;
    assert!(matches!(Envelope::decode(old).unwrap(), Stored::Json));
    let json: serde_json::Value = serde_json::from_slice(old).unwrap();
    let data = from_wire(Wire::Text(json["data"].as_str().unwrap().to_string())).unwrap();
    let mut records: Records = Table::new();
    records.insert(
        b"r/legacy/0000000000000009".to_vec(),
        Value::Event(Envelope {
            id: json["id"].as_str().unwrap().to_string(),
            event_type: json["type"].as_str().unwrap().to_string(),
            version: json["version"].as_u64().unwrap(),
            seq: json["seq"].as_u64().unwrap(),
            data,
            metadata: Vec::new(),
            ts_ms: json["ts_ms"].as_i64().unwrap(),
        }),
    );
    let store = EventStore::over(records);
    let legacy = &store.read_stream("legacy", VersionRange::all()).unwrap()[0];
    assert_eq!(legacy.version, 9);
    assert_eq!(legacy.data, b"{}");
}

#[test]
fn read_tail_returns_last_n() {
    let mut store = EventStore::open_in_memory();
    let events: Vec<_> = (0..5).map(|i| ev(&format!("e-{i}"))).collect();
    store.append("s", ExpectedVersion::NoStream, events).unwrap();

    let tail = store.read_tail("s", 2).unwrap();
    assert_eq!(tail.len(), 2);
    assert_eq!(tail[0].version, 3);
    assert_eq!(tail[1].version, 4);

    let all = store.read_tail("s", 10).unwrap();
    assert_eq!(all.len(), 5);
    assert_eq!(all[0].version, 0);
}

#[test]
fn read_page_limits_and_cursor() {
    let mut store = EventStore::open_in_memory();
    // 10 events, each with a 10-byte payload.
    let events: Vec<_> = (0..10).map(|i| ev(&format!("{i:0>10}"))).collect();
    store.append("s", ExpectedVersion::NoStream, events).unwrap();

    // Count cap: 3 events plus cursor.
    let (page, cursor) = store
        .read_page("s", 0, PageLimit { max_count: 3, max_bytes: 1 << 20 })
        .unwrap();
    assert_eq!(page.len(), 3);
    assert_eq!(cursor, Some(3));

    // Drain the rest via the cursor: 7 events, no cursor.
    let (rest, cursor) = store
        .read_page("s", cursor.unwrap(), PageLimit { max_count: 100, max_bytes: 1 << 20 })
        .unwrap();
    assert_eq!(rest.len(), 7);
    assert_eq!(rest[0].version, 3);
    assert_eq!(cursor, None);

    // Byte cap: first event always included even though it alone exceeds it.
    let (page, cursor) = store
        .read_page("s", 0, PageLimit { max_count: 100, max_bytes: 1 })
        .unwrap();
    assert_eq!(page.len(), 1);
    assert_eq!(cursor, Some(1));
}
