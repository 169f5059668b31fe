//! Retention (`purge_below`) and range-pushdown correctness at fork boundaries.

use slog::{Error, Event, EventStore, ExpectedVersion, NewEvent, VersionRange};

fn append_n(store: &mut EventStore, stream: &str, start: u64, n: u64) -> Result<(), Error> {
    let expected = if start == 0 {
        ExpectedVersion::NoStream
    } else {
        ExpectedVersion::Exact(start - 1)
    };
    let events = (start..start + n)
        .map(|i| NewEvent::new("e", serde_json::to_vec(&i).unwrap()))
        .collect();
    store.append(stream, expected, events)?;
    Ok(())
}

fn versions(events: &[Event]) -> Vec<u64> {
    events.iter().map(|e| e.version).collect()
}

#[test]
fn purge_below_deletes_sealed_history() {
    let mut store = EventStore::open_in_memory();
    append_n(&mut store, "s", 0, 10).unwrap();

    let purged = store.purge_below("s", 6).unwrap();
    assert_eq!(purged, 6);
    assert_eq!(versions(&store.read_history("s", VersionRange::all()).unwrap()), [6, 7, 8, 9]);

    // Idempotent: nothing left below the floor on a second run.
    assert_eq!(store.purge_below("s", 6).unwrap(), 0);

    // Appends continue numbering after a purge.
    append_n(&mut store, "s", 10, 2).unwrap();
    assert_eq!(
        versions(&store.read_history("s", VersionRange::all()).unwrap()),
        [6, 7, 8, 9, 10, 11]
    );
}

#[test]
fn purge_below_never_touches_live_fork_pins() {
    let mut store = EventStore::open_in_memory();
    append_n(&mut store, "parent", 0, 8).unwrap();
    store.fork("parent", 2, "child").unwrap();

    // Window is (pin=2, floor=6): only versions 3..5 are purgeable.
    let purged = store.purge_below("parent", 6).unwrap();
    assert_eq!(purged, 3);
    assert_eq!(versions(&store.read_history("parent", VersionRange::all()).unwrap()), [0, 1, 2, 6, 7]);

    // The forked child still reads its full pinned prefix.
    assert_eq!(versions(&store.read_history("child", VersionRange::all()).unwrap()), [0, 1, 2]);

    // Purged versions are removed from the stream.
    assert!(store.read_history("parent", VersionRange::between(3, 6)).unwrap().is_empty());
}

#[test]
fn fold_ranges_are_exact_across_fork_boundaries() {
    let mut store = EventStore::open_in_memory();
    append_n(&mut store, "parent", 0, 5).unwrap(); // versions 0..4
    store.fork("parent", 3, "child").unwrap();
    append_n(&mut store, "child", 4, 3).unwrap(); // versions 4..6
    append_n(&mut store, "parent", 5, 2).unwrap(); // parent moves on; child pinned at 3

    // Child history spans parent prefix (0..=3) + own (4..=6): 7 events.
    let (count, last) = store.fold("child", VersionRange::all(), 0u64, |n: u64, _: &Event| n + 1).unwrap();
    assert_eq!((count, last), (7, Some(6)));

    // A range entirely within the parent prefix...
    let (n, last) = store.fold("child", VersionRange::between(1, 3), 0u64, |n: u64, _: &Event| n + 1).unwrap();
    assert_eq!((n, last), (2, Some(2)));

    // ...one crossing the fork point...
    let hist = store.read_history("child", VersionRange::between(2, 6)).unwrap();
    assert_eq!(versions(&hist), [2, 3, 4, 5]);
    assert_eq!(hist.iter().map(|e| serde_json::from_slice::<u64>(&e.data).unwrap()).collect::<Vec<_>>(), [2, 3, 4, 5]);

    // ...and one past any content.
    let (n, last) = store.fold("child", VersionRange::from(50), 0u64, |n: u64, _: &Event| n + 1).unwrap();
    assert_eq!((n, last), (0, None));
}
