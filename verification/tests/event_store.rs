use std::time::{Duration, Instant};

use serde_json::Value;
use slog::aggregate::Aggregate;
use slog::envelope::{Event, ExpectedVersion, NewEvent};
use slog::error::Error;
use slog::jobs::JobStatus;
use slog::reader::EventStoreReader;
use slog::snapshot::CompactionRecord;
use slog::store::reads::VersionRange;
use slog::store::EventStore;
use slog::table::Dup;

#[derive(Debug, PartialEq)]
enum Tx {
    Opened { owner: String },
    Deposited { cents: u64 },
    Withdrawn { cents: u64 },
}

/// `{"Variant": {"field": value}}`.
fn variant(name: &str, field: &str, value: Value) -> Value {
    let mut inner = serde_json::Map::new();
    inner.insert(field.to_string(), value);
    let mut outer = serde_json::Map::new();
    outer.insert(name.to_string(), Value::Object(inner));
    Value::Object(outer)
}

fn tx(e: Tx) -> NewEvent {
    let (kind, value) = match e {
        Tx::Opened { owner } => ("opened", variant("Opened", "owner", Value::from(owner))),
        Tx::Deposited { cents } => {
            ("deposited", variant("Deposited", "cents", Value::from(cents)))
        }
        Tx::Withdrawn { cents } => {
            ("withdrawn", variant("Withdrawn", "cents", Value::from(cents)))
        }
    };
    NewEvent::new(kind, serde_json::to_vec(&value).unwrap())
}

fn tx_of(event: &Event) -> Option<Tx> {
    let value: Value = serde_json::from_slice(&event.data).ok()?;
    if let Some(inner) = value.get("Opened") {
        return Some(Tx::Opened { owner: inner.get("owner")?.as_str()?.to_string() });
    }
    if let Some(inner) = value.get("Deposited") {
        return Some(Tx::Deposited { cents: inner.get("cents")?.as_u64()? });
    }
    let inner = value.get("Withdrawn")?;
    Some(Tx::Withdrawn { cents: inner.get("cents")?.as_u64()? })
}

#[derive(Default)]
struct Account {
    owner: String,
    balance: i64,
}

impl Aggregate for Account {
    fn initial() -> Self {
        Account::default()
    }

    fn apply(&mut self, event: &Event) {
        // Unknown event types do not affect the aggregate.
        let Some(tx) = tx_of(event) else { return };
        match tx {
            Tx::Opened { owner } => self.owner = owner,
            Tx::Deposited { cents } => self.balance += cents as i64,
            Tx::Withdrawn { cents } => self.balance -= cents as i64,
        }
    }

    fn snapshot(&self) -> Result<Vec<u8>, Error> {
        let mut fields = serde_json::Map::new();
        fields.insert("owner".to_string(), Value::from(self.owner.clone()));
        fields.insert("balance".to_string(), Value::from(self.balance));
        Ok(serde_json::to_vec(&Value::Object(fields)).unwrap())
    }

    fn restore(state: &[u8]) -> Result<Self, Error> {
        let value: Value = match serde_json::from_slice(state) {
            Ok(v) => v,
            Err(e) => return Err(Error::Encoding(e.to_string())),
        };
        Ok(Account {
            owner: value["owner"].as_str().unwrap().to_string(),
            balance: value["balance"].as_i64().unwrap(),
        })
    }
}

/// Journal keys are ordered by the millisecond they were made in.
fn next_ms() {
    let start = Instant::now();
    while start.elapsed() < Duration::from_millis(3) {}
}

#[test]
fn append_and_replay() {
    let mut store = EventStore::open_in_memory();
    let commit = store
        .append(
            "a-1",
            ExpectedVersion::NoStream,
            vec![tx(Tx::Opened { owner: "ada".into() }), tx(Tx::Deposited { cents: 100 })],
        )
        .unwrap();
    assert_eq!((commit.first_version, commit.last_version), (0, 1));

    let events = store.read_stream("a-1", VersionRange::all()).unwrap();
    assert_eq!(events.len(), 2);
    assert_eq!(events[1].version, 1);
    assert!(events[1].global_seq > events[0].global_seq);
    assert_eq!(tx_of(&events[1]).unwrap(), Tx::Deposited { cents: 100 });

    let (account, version) = store.rehydrate::<Account>("a-1").unwrap();
    assert_eq!((account.owner.as_str(), account.balance, version), ("ada", 100, Some(1)));
}

#[test]
fn batches_are_atomic_and_conditional() {
    let mut store = EventStore::open_in_memory();
    store.append("s", ExpectedVersion::NoStream, vec![tx(Tx::Deposited { cents: 1 })]).unwrap();

    // Wrong version: nothing lands.
    let err = store
        .append(
            "s",
            ExpectedVersion::Exact(5),
            vec![tx(Tx::Deposited { cents: 2 }), tx(Tx::Deposited { cents: 3 })],
        )
        .unwrap_err();
    assert!(matches!(err, Error::VersionConflict { actual: Some(0), .. }));
    assert_eq!(
        err.message(),
        "version conflict on 's': expected Exact(5), actual Some(0)"
    );
    assert_eq!(store.stream_version("s").unwrap(), Some(0));

    // Retrying the first batch conflicts rather than creating duplicates.
    let err = store
        .append("s", ExpectedVersion::NoStream, vec![tx(Tx::Deposited { cents: 1 })])
        .unwrap_err();
    assert!(matches!(err, Error::VersionConflict { .. }));

    // Right version: whole batch lands with contiguous versions.
    let commit = store
        .append(
            "s",
            ExpectedVersion::Exact(0),
            vec![tx(Tx::Deposited { cents: 2 }), tx(Tx::Deposited { cents: 3 })],
        )
        .unwrap();
    assert_eq!((commit.first_version, commit.last_version), (1, 2));
    assert_eq!(store.stream_version("s").unwrap(), Some(2));
}

#[test]
fn compact_and_rehydrate_from_snapshot() {
    let mut store = EventStore::open_in_memory();
    store
        .append("a-9", ExpectedVersion::NoStream, vec![tx(Tx::Opened { owner: "ada".into() })])
        .unwrap();
    for _ in 0..10 {
        let (_, v) = store.rehydrate::<Account>("a-9").unwrap();
        store
            .append(
                "a-9",
                ExpectedVersion::Exact(v.unwrap()),
                vec![tx(Tx::Deposited { cents: 10 })],
            )
            .unwrap();
    }

    assert_eq!(store.compaction_backlog("a-9").unwrap(), 11);
    let record = store.compact::<Account>("a-9").unwrap();
    assert_eq!(
        (record.stream.as_str(), record.through_version, record.events_compacted),
        ("a-9", 10, 11)
    );
    assert_eq!(store.compaction_backlog("a-9").unwrap(), 0);

    let records = store.compaction_records().unwrap();
    assert_eq!(records.len(), 1);

    // Post-compaction rehydrate starts from the snapshot; more appends still work.
    let (account, version) = store.rehydrate::<Account>("a-9").unwrap();
    assert_eq!((account.balance, version), (100, Some(10)));
    store
        .append("a-9", ExpectedVersion::Exact(10), vec![tx(Tx::Withdrawn { cents: 40 })])
        .unwrap();
    let (account, _) = store.rehydrate::<Account>("a-9").unwrap();
    assert_eq!(account.balance, 60);
}

#[test]
fn fork_shares_pinned_prefix_and_diverges() {
    let mut store = EventStore::open_in_memory();
    store
        .append(
            "main",
            ExpectedVersion::NoStream,
            vec![tx(Tx::Opened { owner: "ada".into() }), tx(Tx::Deposited { cents: 100 })],
        )
        .unwrap();

    // Fork at v1: metadata only, no marker record; the child tail starts at v1.
    store.fork("main", 1, "experiment").unwrap();

    // Child rehydrates through the pinned prefix; its own tail is v1.
    let (account, version) = store.rehydrate::<Account>("experiment").unwrap();
    assert_eq!((account.balance, version), (100, Some(1)));
    store
        .append("experiment", ExpectedVersion::Exact(1), vec![tx(Tx::Withdrawn { cents: 30 })])
        .unwrap();

    // Parent keeps moving; the fork never sees it (pinned at v1).
    store
        .append("main", ExpectedVersion::Exact(1), vec![tx(Tx::Deposited { cents: 999 })])
        .unwrap();
    let history = store.read_history("experiment", VersionRange::from(0)).unwrap();
    assert_eq!(history.len(), 3); // opened, deposited(100), withdrawn(30)
    assert_eq!(history[1].version, 1);
    // The raw stream holds only the child's own events: no $fork marker exists.
    let raw = store.read_stream("experiment", VersionRange::all()).unwrap();
    assert_eq!(raw.len(), 1);
    assert_eq!((raw[0].version, raw[0].event_type.as_str()), (2, "withdrawn"));
    let (experiment, _) = store.rehydrate::<Account>("experiment").unwrap();
    assert_eq!(experiment.balance, 70);

    // main is unaffected.
    let (main, _) = store.rehydrate::<Account>("main").unwrap();
    assert_eq!(main.balance, 1099);

    // Forking an existing or past-the-point stream fails.
    assert!(matches!(
        store.fork("main", 1, "experiment").unwrap_err(),
        Error::VersionConflict { .. }
    ));
    let err = store.fork("main", 42, "too-late").unwrap_err();
    assert!(matches!(err, Error::InvalidInput(_)));
    assert_eq!(err.message(), "parent 'main' is at v2, cannot fork at v42");
    let err = store.fork("nobody", 0, "child").unwrap_err();
    assert_eq!(err.message(), "parent 'nobody' does not exist");
}

#[test]
fn custom_engines_can_drive_snapshots() {
    let mut store = EventStore::open_in_memory();
    store
        .append(
            "db-7",
            ExpectedVersion::NoStream,
            vec![
                tx(Tx::Opened { owner: "ada".into() }),
                tx(Tx::Deposited { cents: 10 }),
                tx(Tx::Deposited { cents: 5 }),
            ],
        )
        .unwrap();

    // 1. In-band custom snapshot production: application code decides the bytes.
    let record = store
        .compact_with("db-7", |events: &Vec<Event>| {
            Ok(format!("manifest:{{segments:4,through:v{}}}", events.len() - 1).into_bytes())
        })
        .unwrap();
    let snap = store.latest_snapshot("db-7").unwrap().unwrap();
    assert_eq!(String::from_utf8(snap.state).unwrap(), "manifest:{segments:4,through:v2}");

    // 2. Externally produced snapshots (e.g. an LTX compaction job ran out of
    // band): register the result, listeners still get the compaction event.
    let later = CompactionRecord {
        stream: "db-7".into(),
        through_version: record.through_version,
        events_compacted: 3,
        job_id: None,
        ts_ms: 0,
    };
    store.publish_snapshot("db-7", later, b"ltx://bucket/db-7/0004.ltx".to_vec()).unwrap();

    // 3. Custom rehydration with your own state type: no Aggregate impl.
    let (balance, version) = store
        .fold("db-7", VersionRange::from(0), 0i64, |bal: i64, e: &Event| {
            if let Some(Tx::Deposited { cents }) = tx_of(e) {
                bal + cents as i64
            } else {
                bal
            }
        })
        .unwrap();
    assert_eq!((balance, version), (15, Some(2)));
    assert_eq!(store.compaction_records().unwrap().len(), 2);
}

#[test]
fn compaction_jobs_have_a_journaled_lifecycle() {
    let mut store = EventStore::open_in_memory();
    store.append("w-1", ExpectedVersion::NoStream, vec![tx(Tx::Deposited { cents: 7 })]).unwrap();

    // Unknown job has no status; request makes it Pending.
    assert_eq!(store.job_status("nope").unwrap(), None);
    let job = store.request_compaction("w-1");
    assert_eq!(store.job_status(&job).unwrap(), Some(JobStatus::Pending));

    // Exactly one claim sticks; the second is rejected.
    next_ms();
    store.claim_compaction(&job, "worker-a").unwrap();
    assert_eq!(
        store.job_status(&job).unwrap(),
        Some(JobStatus::Claimed { worker: "worker-a".into() })
    );
    next_ms();
    assert!(store.claim_compaction(&job, "worker-b").is_err());

    // Completing publishes the snapshot AND closes the job (correlated).
    next_ms();
    let record =
        store.compact_job("w-1", job.clone(), |_: &Vec<Event>| Ok(b"img".to_vec())).unwrap();
    assert_eq!(record.job_id.as_deref(), Some(job.as_str()));
    assert_eq!(store.job_status(&job).unwrap(), Some(JobStatus::Completed));

    // Failure path.
    next_ms();
    let job2 = store.request_compaction("w-1");
    next_ms();
    store.fail_compaction(&job2, "out of disk");
    assert_eq!(
        store.job_status(&job2).unwrap(),
        Some(JobStatus::Failed { error: "out of disk".into() })
    );
}

#[test]
fn followers_see_new_events_and_compactions() {
    // Followers live on a reader over the writer's records: each poll looks at
    // the records as they stand.
    let mut store = EventStore::open_in_memory();
    let reader = EventStoreReader::over(store.db().dup());
    let (events, cursor) = reader.follow_stream("f-1", 0, None).unwrap();
    assert!(events.is_empty());
    let (compactions, key) = reader.follow_compactions(None).unwrap();
    assert!(compactions.is_empty());

    store
        .append("f-1", ExpectedVersion::Any, vec![tx(Tx::Opened { owner: "ada".into() })])
        .unwrap();
    store.compact::<Account>("f-1").unwrap();

    let reader = EventStoreReader::over(store.db().dup());
    let (events, cursor) = reader.follow_stream("f-1", 0, cursor).unwrap();
    assert_eq!(events.len(), 1);
    assert_eq!(events[0].event_type, "opened");
    let (compactions, key) = reader.follow_compactions(key).unwrap();
    assert_eq!(compactions.len(), 1);
    assert_eq!(compactions[0].stream, "f-1");

    // What was delivered is not delivered again.
    let (events, _) = reader.follow_stream("f-1", 0, cursor).unwrap();
    assert!(events.is_empty());
    let (compactions, _) = reader.follow_compactions(key).unwrap();
    assert!(compactions.is_empty());
}
