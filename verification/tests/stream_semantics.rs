//! Durable-stream semantics: sequence assignment, timestamp monotonicity,
//! trim points, bounded reads, tombstoned streams.

use slog::{Error, EventStore, ExpectedVersion, NewEvent, VersionRange};

fn rec(n: u64) -> NewEvent {
    NewEvent::new("r", format!("r{n}").into_bytes())
}

fn payloads(store: &EventStore, stream: &str) -> Vec<String> {
    store
        .read_stream(stream, VersionRange::all())
        .unwrap()
        .iter()
        .map(|e| String::from_utf8(e.data.clone()).unwrap())
        .collect()
}

#[test]
fn records_get_contiguous_per_stream_sequences() -> Result<(), Error> {
    let mut store = EventStore::open_in_memory();
    let c = store.append("s", ExpectedVersion::NoStream, vec![rec(1), rec(2)])?;
    assert_eq!((c.first_version, c.last_version), (0, 1));
    let c = store.append("s", ExpectedVersion::Exact(1), vec![rec(3)])?;
    assert_eq!((c.first_version, c.last_version), (2, 2));

    let events = store.read_stream("s", VersionRange::all())?;
    assert_eq!(
        events.iter().map(|e| e.version).collect::<Vec<_>>(),
        [0, 1, 2]
    );
    assert!(events[0].global_seq < events[1].global_seq);
    assert!(events[1].global_seq < events[2].global_seq);
    Ok(())
}

#[test]
fn timestamps_are_monotonic_in_stream_order() -> Result<(), Error> {
    let mut store = EventStore::open_in_memory();
    for i in 0..10u64 {
        store.append("s", ExpectedVersion::Any, vec![rec(i)])?;
    }
    let ts: Vec<i64> = store
        .read_stream("s", VersionRange::all())?
        .iter()
        .map(|e| e.ts_ms)
        .collect();
    assert!(ts.windows(2).all(|w| w[0] <= w[1]), "ts: {ts:?}");
    Ok(())
}

#[test]
fn bounded_reads_slice_by_sequence_window() -> Result<(), Error> {
    let mut store = EventStore::open_in_memory();
    store.append("s", ExpectedVersion::NoStream, (0..10).map(rec).collect())?;
    let window: Vec<_> = payloads(&store, "s");
    assert_eq!(
        store
            .read_stream("s", VersionRange::between(3, 7))?
            .iter()
            .map(|e| String::from_utf8(e.data.clone()).unwrap())
            .collect::<Vec<_>>(),
        window[3..7]
    );
    Ok(())
}

#[test]
fn trim_point_hides_older_records_and_stream_survives() -> Result<(), Error> {
    let mut store = EventStore::open_in_memory();
    store.append("s", ExpectedVersion::NoStream, (0..5).map(rec).collect())?;

    // Trim everything below v2: first two records gone, stream lives on.
    store.trim_below("s", 2)?;
    assert_eq!(payloads(&store, "s"), ["r2", "r3", "r4"]);

    // A stale (smaller) trim point changes nothing.
    store.trim_below("s", 1)?;
    assert_eq!(payloads(&store, "s"), ["r2", "r3", "r4"]);

    // Trimming past the tail empties the visible stream but doesn't delete it:
    // later appends continue numbering and are readable.
    store.trim_below("s", u64::MAX)?;
    assert!(payloads(&store, "s").is_empty());
    let c = store.append("s", ExpectedVersion::Any, vec![rec(99)])?;
    assert_eq!(c.first_version, 5); // trims are state keys; no records consumed
    assert_eq!(payloads(&store, "s"), ["r99"]);
    Ok(())
}

#[test]
fn trim_points_do_not_touch_other_streams() -> Result<(), Error> {
    let mut store = EventStore::open_in_memory();
    store.append("a", ExpectedVersion::NoStream, (0..3).map(rec).collect())?;
    store.append("b", ExpectedVersion::NoStream, (0..3).map(rec).collect())?;
    store.trim_below("a", 3)?;
    assert!(payloads(&store, "a").is_empty());
    assert_eq!(payloads(&store, "b"), ["r0", "r1", "r2"]);
    Ok(())
}

#[test]
fn tombstoned_stream_is_invisible_and_unlisted() -> Result<(), Error> {
    let mut store = EventStore::open_in_memory();
    store.append("live", ExpectedVersion::NoStream, (0..2).map(rec).collect())?;
    store.append("doomed", ExpectedVersion::NoStream, (0..2).map(rec).collect())?;

    store.delete_stream("doomed")?;
    assert!(payloads(&store, "doomed").is_empty());
    assert_eq!(payloads(&store, "live"), ["r0", "r1"]);
    assert_eq!(store.list_streams()?, ["live"]);
    Ok(())
}
