//! Cross-stream atomic transactions: `EventStore::transaction()` queues
//! appends/fences, `EventStore::commit` lands them together: all ops or none.

use slog::{Error, EventStore, ExpectedVersion, NewEvent, VersionRange};

fn ev(data: &str) -> NewEvent {
    NewEvent::new("e", data.as_bytes().to_vec())
}

#[test]
fn commit_lands_all_ops_atomically() -> Result<(), Error> {
    let mut store = EventStore::open_in_memory();

    let mut txn = store.transaction();
    txn.append("a", ExpectedVersion::NoStream, vec![ev("a-0"), ev("a-1")]);
    txn.append("b", ExpectedVersion::NoStream, vec![ev("b-0")]);
    txn.fence("c", Some("token-1".into()));
    let infos = store.commit(txn)?;

    // One CommitInfo per append op, in op order, contiguous versions.
    assert_eq!(infos.len(), 2);
    assert_eq!((infos[0].first_version, infos[0].last_version), (0, 1));
    assert_eq!((infos[1].first_version, infos[1].last_version), (0, 0));

    assert_eq!(store.stream_version("a")?, Some(1));
    assert_eq!(store.stream_version("b")?, Some(0));

    // The fence op took effect: wrong-token writers are rejected.
    let err = store
        .append_with_token("c", "wrong", ExpectedVersion::Any, vec![ev("x")])
        .unwrap_err();
    assert!(matches!(err, Error::FenceMismatch { .. }));
    store
        .append_with_token("c", "token-1", ExpectedVersion::NoStream, vec![ev("c-0")])?;
    Ok(())
}

#[test]
fn failed_check_aborts_the_whole_transaction() -> Result<(), Error> {
    let mut store = EventStore::open_in_memory();
    store.append("x", ExpectedVersion::NoStream, vec![ev("x-0")])?;

    let mut txn = store.transaction();
    txn.append("y", ExpectedVersion::NoStream, vec![ev("y-0"), ev("y-1")]);
    // Stale expectation on "x" (tail is 0, not 5): must fail.
    txn.append("x", ExpectedVersion::Exact(5), vec![ev("x-1")]);
    let err = store.commit(txn).unwrap_err();
    assert!(matches!(err, Error::VersionConflict { actual: Some(0), .. }));

    // Nothing landed: the "y" append was rolled back with the rest.
    assert_eq!(store.stream_version("y")?, None);
    assert!(store.read_stream("y", VersionRange::all())?.is_empty());
    assert_eq!(store.stream_version("x")?, Some(0));
    Ok(())
}

/// Operations can be queued in one chain, and run in order.
#[test]
fn queued_operations_run_in_order() -> Result<(), Error> {
    let mut store = EventStore::open_in_memory();
    let mut txn = store.transaction();
    txn.append("a", ExpectedVersion::NoStream, vec![ev("a-0")])
        .append("a", ExpectedVersion::Exact(0), vec![ev("a-1")])
        .fence("a", Some("t".into()))
        .fence("a", None);
    let infos = store.commit(txn)?;
    assert_eq!((infos[0].start_sequence, infos[1].start_sequence), (1, 2));
    assert_eq!(infos[1].first_version, 1);
    store.append_with_token("a", "any", ExpectedVersion::Exact(1), vec![ev("a-2")])?;

    let mut txn = store.transaction();
    txn.append("b", ExpectedVersion::Any, Vec::new());
    assert_eq!(store.commit(txn).unwrap_err().message(), "empty batch");
    let mut txn = store.transaction();
    txn.append("b", ExpectedVersion::Any, (0..1001).map(|_| ev("x")).collect());
    let e = store.commit(txn).unwrap_err();
    assert_eq!(e.message(), "batch of 1001 records exceeds max 1000");
    Ok(())
}
