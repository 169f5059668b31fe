//! Conformance tests for branch semantics: batched appends, range reads,
//! shadow appends (last-write-wins by transaction/global seq), forks,
//! trims, rollback windows, and refcounted branch deletion.

use slog::{Error, Event, EventStore, ExpectedVersion, NewEvent, VersionRange};

fn batch(tag: &str, vs: impl Iterator<Item = u64>) -> Vec<NewEvent> {
    vs.map(|v| NewEvent::new("e", format!("{tag}-{v}").into_bytes())).collect()
}

fn data(events: &[Event]) -> Vec<String> {
    events
        .iter()
        .map(|e| String::from_utf8(e.data.clone()).unwrap())
        .collect()
}

fn read_all(store: &EventStore, stream: &str) -> Vec<String> {
    data(&store.read_stream(stream, VersionRange::all()).unwrap())
}

fn read_range(store: &EventStore, stream: &str, lo: u64, hi: u64) -> Vec<String> {
    data(&store.read_stream(stream, VersionRange::between(lo, hi)).unwrap())
}

fn read_history_range(store: &EventStore, stream: &str, lo: u64, hi: u64) -> Vec<String> {
    data(&store.read_history(stream, VersionRange::between(lo, hi)).unwrap())
}

#[test]
fn first_batch_is_selectable_by_range_and_in_full() -> Result<(), Error> {
    let mut store = EventStore::open_in_memory();
    store.append("b0", ExpectedVersion::NoStream, batch("a", 0..3))?;
    assert_eq!(read_range(&store, "b0", 0, 3), ["a-0", "a-1", "a-2"]);
    assert_eq!(read_all(&store, "b0"), ["a-0", "a-1", "a-2"]);
    Ok(())
}

#[test]
fn successive_batches_extend_the_branch() -> Result<(), Error> {
    let mut store = EventStore::open_in_memory();
    store.append("b0", ExpectedVersion::NoStream, batch("a", 0..3))?;
    store.append("b0", ExpectedVersion::Exact(2), batch("b", 3..5))?;
    assert_eq!(read_range(&store, "b0", 0, 3), ["a-0", "a-1", "a-2"]);
    assert_eq!(read_range(&store, "b0", 3, 5), ["b-3", "b-4"]);
    assert_eq!(
        read_all(&store, "b0"),
        ["a-0", "a-1", "a-2", "b-3", "b-4"]
    );
    Ok(())
}

#[test]
fn shadow_appends_are_last_write_wins() -> Result<(), Error> {
    let mut store = EventStore::open_in_memory();
    store.append("b0", ExpectedVersion::NoStream, batch("a", 0..3))?;
    store.append("b0", ExpectedVersion::Exact(2), batch("b", 3..5))?;
    // A later transaction rewrites versions 3..5: reads resolve to it.
    store.append_at("b0", 3, ExpectedVersion::Any, batch("c", 3..5))?;
    assert_eq!(read_range(&store, "b0", 0, 3), ["a-0", "a-1", "a-2"]);
    assert_eq!(read_range(&store, "b0", 3, 5), ["c-3", "c-4"]);
    assert_eq!(
        read_all(&store, "b0"),
        ["a-0", "a-1", "a-2", "c-3", "c-4"]
    );
    Ok(())
}

#[test]
fn forked_branches_diverge_and_read_independently() -> Result<(), Error> {
    let mut store = EventStore::open_in_memory();
    store.append("base", ExpectedVersion::NoStream, batch("a", 0..3))?;
    store.append("base", ExpectedVersion::Exact(2), batch("b", 3..5))?;

    // Branch at v2: shared prefix a-0..a-2, no marker record, own events from v3.
    store.fork("base", 2, "child")?;
    store.append("child", ExpectedVersion::Exact(2), batch("c", 3..5))?;

    // Both branches read the shared prefix identically, then diverge.
    // (Fork-resolved reads go through read_history; read_stream is the raw view.)
    assert_eq!(read_range(&store, "base", 0, 3), ["a-0", "a-1", "a-2"]);
    assert_eq!(read_history_range(&store, "child", 0, 3), ["a-0", "a-1", "a-2"]);
    assert_eq!(read_range(&store, "base", 3, 5), ["b-3", "b-4"]);
    assert_eq!(read_history_range(&store, "child", 3, 5), ["c-3", "c-4"]);
    assert_eq!(
        read_all(&store, "base"),
        ["a-0", "a-1", "a-2", "b-3", "b-4"]
    );
    Ok(())
}

#[test]
fn shadowed_prefix_stays_consistent_through_a_fork() -> Result<(), Error> {
    let mut store = EventStore::open_in_memory();
    store.append("base", ExpectedVersion::NoStream, batch("a", 0..3))?;
    store.append("base", ExpectedVersion::Exact(2), batch("b", 3..5))?;
    // Rewrite the tail, then extend past it.
    store.append_at("base", 3, ExpectedVersion::Any, batch("c", 3..5))?;
    store.append("base", ExpectedVersion::Exact(4), batch("d", 5..6))?;

    // Fork after the rewrite: the child pins the shadowed (latest) prefix.
    store.fork("base", 4, "child")?;
    store.append("child", ExpectedVersion::Exact(4), batch("e", 5..6))?;

    assert_eq!(
        read_all(&store, "base"),
        ["a-0", "a-1", "a-2", "c-3", "c-4", "d-5"]
    );
    let child: Vec<String> = data(&store.read_history("child", VersionRange::all())?);
    assert_eq!(child, ["a-0", "a-1", "a-2", "c-3", "c-4", "e-5"]);
    Ok(())
}

#[test]
fn shadow_appends_overwrite_and_rollback_windows_filter() -> Result<(), Error> {
    let mut store = EventStore::open_in_memory();
    store.append("b0", ExpectedVersion::NoStream, batch("a", 0..3))?;
    let legit = store.append("b0", ExpectedVersion::Exact(2), batch("b", 3..5))?;
    let legit_txn = legit.start_sequence + 1; // last global seq of the legit batch

    // A shadow append with a stale ExpectedVersion is rejected; nothing changes.
    store
        .append_at("b0", 3, ExpectedVersion::Exact(1), batch("s", 3..5))
        .unwrap_err();
    assert_eq!(read_range(&store, "b0", 3, 5), ["b-3", "b-4"]);

    // A shadow append with Any overwrites versions 3..5 in place.
    store.append_at("b0", 3, ExpectedVersion::Any, batch("z", 3..5))?;
    assert_eq!(read_range(&store, "b0", 3, 5), ["z-3", "z-4"]);

    // The rollback window (versions >= 3, seq > legit_txn) hides the
    // superseded writes. The older prefix remains visible.
    store.trim("b0", 3, legit_txn)?;
    assert!(read_range(&store, "b0", 3, 5).is_empty());
    assert_eq!(read_range(&store, "b0", 0, 3), ["a-0", "a-1", "a-2"]);
    assert_eq!(read_all(&store, "b0"), ["a-0", "a-1", "a-2"]);
    Ok(())
}

#[test]
fn deleting_base_preserves_prefix_pinned_by_live_fork() -> Result<(), Error> {
    let mut store = EventStore::open_in_memory();
    store.append("base", ExpectedVersion::NoStream, batch("a", 0..3))?;
    store.append("base", ExpectedVersion::Exact(2), batch("b", 3..5))?;
    store.fork("base", 2, "child")?;
    store.append("child", ExpectedVersion::Exact(2), batch("c", 3..5))?;

    // Delete base: its exclusive tail (b-3, b-4) goes, but the pinned prefix
    // (a-0..a-2) survives while "child" is alive — and the child is untouched.
    store.delete_stream("base")?;
    assert_eq!(read_all(&store, "base"), ["a-0", "a-1", "a-2"]);
    let child: Vec<String> = data(&store.read_history("child", VersionRange::all())?);
    assert_eq!(child, ["a-0", "a-1", "a-2", "c-3", "c-4"]);

    // Delete the child: the pin releases, and the base goes fully dark.
    store.delete_stream("child")?;
    assert_eq!(read_all(&store, "base"), Vec::<String>::new());
    assert_eq!(read_all(&store, "child"), Vec::<String>::new());
    assert!(store.list_streams()?.is_empty());
    Ok(())
}

#[test]
fn deleting_fork_first_leaves_base_untouched() -> Result<(), Error> {
    let mut store = EventStore::open_in_memory();
    store.append("base", ExpectedVersion::NoStream, batch("a", 0..3))?;
    store.fork("base", 1, "child")?;
    store.append("child", ExpectedVersion::Exact(1), batch("c", 2..3))?;

    store.delete_stream("child")?;
    assert_eq!(read_all(&store, "base"), ["a-0", "a-1", "a-2"]);
    assert_eq!(read_all(&store, "child"), Vec::<String>::new());

    store.delete_stream("base")?;
    assert_eq!(read_all(&store, "base"), Vec::<String>::new());
    Ok(())
}

#[test]
fn many_batches_stay_contiguous_and_atomic() -> Result<(), Error> {
    let mut store = EventStore::open_in_memory();
    let mut expected = Vec::new();
    let mut tail: Option<u64> = None;
    for (i, size) in [(3usize), (2), (5), (1), (4)].into_iter().enumerate() {
        let lo = expected.len() as u64;
        let expect = tail.map_or(ExpectedVersion::NoStream, ExpectedVersion::Exact);
        let commit = store
            .append("multi", expect, batch(&format!("t{i}"), lo..lo + size as u64))?;
        assert_eq!(commit.first_version, lo);
        assert_eq!(commit.last_version, lo + size as u64 - 1);
        tail = Some(commit.last_version);
        expected.extend((lo..lo + size as u64).map(|v| format!("t{i}-{v}")));
    }
    assert_eq!(read_all(&store, "multi"), expected);
    Ok(())
}
