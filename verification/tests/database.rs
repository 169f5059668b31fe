//! Databases against a store and a bucket in memory. SQLite runs on an
//! in-memory database; the pages that a transaction changed are laid out as
//! the frames that a write-ahead log would hold.

use std::collections::BTreeMap;
use std::time::{Duration, Instant};

use rusqlite::Connection;
use slog::envelope::{expected, restored_through};
use slog::snapshot::record;
use slog::sqlite::checkpoint::Next;
use slog::sqlite::codec::{delta_events, pack_ltx, unpack_ltx, Carried};
use slog::sqlite::store::{restore_at, restore_impl, usable_segments, Db};
use slog::sqlite::wal::{header, WalCursor, FRAME_HEADER_LEN, HEADER_LEN};
use slog::sqlite::{CheckpointOpts, DbImage, Delta, Ltx, LtxBuilder, Manifest};
use slog::table::Dup;
use slog::{Error, EventStore, VersionRange};

/// What all openers of a database share.
struct Cloud {
    store: EventStore,
    objects: BTreeMap<String, Vec<u8>>,
    manifests: BTreeMap<String, Manifest>,
    ids: u32,
}

impl Cloud {
    fn new() -> Cloud {
        Cloud {
            store: EventStore::open_in_memory(),
            objects: BTreeMap::new(),
            manifests: BTreeMap::new(),
            ids: 0,
        }
    }

    fn put_ltx(&mut self, name: &str, ltx: &Ltx) -> String {
        self.ids += 1;
        let path = format!("ltx/{name}/{}", self.ids);
        self.objects.insert(path.clone(), pack_ltx(ltx).unwrap());
        path
    }

    fn fetch_ltx(&self, path: &str) -> Ltx {
        unpack_ltx(&self.objects[path]).unwrap()
    }

    fn manifest(&self, name: &str) -> Manifest {
        match self.manifests.get(name) {
            Some(m) => Manifest {
                segments: m.segments.iter().map(|s| s.dup()).collect(),
                retire: m.retire.clone(),
            },
            None => Manifest::empty(),
        }
    }

    fn segments(&self, name: &str, n: usize) -> Vec<Ltx> {
        let manifest = self.manifest(name);
        manifest.segments[..n].iter().map(|s| self.fetch_ltx(&s.path)).collect()
    }

    fn segment_count(&self, name: &str) -> usize {
        let prefix = format!("ltx/{name}/");
        self.objects.keys().filter(|k| k.starts_with(&prefix)).count()
    }

    fn decoded(&self, name: &str, from: u64) -> (Vec<Result<Vec<Delta>, Error>>, Option<u64>) {
        let events = self.store.read_history(name, VersionRange::from(from)).unwrap();
        let decoded = events
            .iter()
            .map(|e| match delta_events(e) {
                Ok(Carried::Deltas(ds)) => Ok(ds),
                Ok(Carried::Json) => panic!("no such event was written"),
                Err(e) => Err(e),
            })
            .collect();
        (decoded, events.last().map(|e| e.version))
    }

    fn restore_parts(&self, name: &str) -> (DbImage, LtxBuilder, Option<u64>) {
        let through =
            self.store.latest_snapshot(name).unwrap().map(|snapshot| snapshot.through_version);
        let n = self.manifest(name).segments.len();
        let (decoded, last) = self.decoded(name, through.map_or(0, |v| v + 1));
        let (image, pending) = restore_impl(&self.segments(name, n), decoded).unwrap();
        (image, pending, restored_through(last, through))
    }

    fn restore(&self, name: &str) -> (DbImage, Option<u64>) {
        let (image, _, tail) = self.restore_parts(name);
        (image, tail)
    }

    fn restore_at(&self, name: &str, target: u64) -> Result<DbImage, Error> {
        let n = usable_segments(&self.manifest(name), target);
        let (decoded, _) = self.decoded(name, 0);
        restore_at(&self.segments(name, n), decoded, target)
    }

    fn open(&mut self, name: &str) -> Live {
        self.ids += 1;
        let token = format!("open-{}", self.ids);
        self.store.fence(name, Some(&token)).unwrap();
        let (image, pending, tail) = self.restore_parts(name);
        let bytes = image.to_bytes();
        let db = Db {
            name: name.to_string(),
            token,
            image,
            tail,
            cursor: WalCursor::default(),
            pending,
        };
        Live { conn: connect(&bytes), db, wal: Vec::new(), bytes, salt: self.ids }
    }
}

/// A connection to a database file's bytes.
fn connect(bytes: &[u8]) -> Connection {
    let mut conn = Connection::open_in_memory().unwrap();
    if !bytes.is_empty() {
        conn.deserialize_read_exact("main", bytes, bytes.len(), false).unwrap();
    }
    conn
}

/// An open database: SQLite, its log, and the replication handle.
struct Live {
    conn: Connection,
    db: Db,
    wal: Vec<u8>,
    bytes: Vec<u8>,
    salt: u32,
}

impl Live {
    /// Logs what changed since the last transaction as one transaction. The
    /// first page is always among its frames.
    fn log(&mut self) {
        let now = self.conn.serialize("main").unwrap().to_vec();
        let size = match u16::from_be_bytes([now[16], now[17]]) {
            1 => 65536,
            n => n as usize,
        };
        if self.wal.is_empty() {
            self.wal.extend(0x377f0682u32.to_be_bytes());
            self.wal.extend(3007000u32.to_be_bytes());
            self.wal.extend((size as u32).to_be_bytes());
            self.wal.extend(0u32.to_be_bytes());
            self.wal.extend(self.salt.to_be_bytes());
            self.wal.extend(7u32.to_be_bytes());
            self.wal.extend([0u8; 8]);
        }
        let count = now.len() / size;
        let changed: Vec<usize> = (0..count)
            .filter(|i| {
                let page = i * size..(i + 1) * size;
                *i == 0 || self.bytes.get(page.clone()) != Some(&now[page])
            })
            .collect();
        for (k, i) in changed.iter().enumerate() {
            let commit = if k + 1 == changed.len() { count as u32 } else { 0 };
            self.wal.extend((*i as u32 + 1).to_be_bytes());
            self.wal.extend(commit.to_be_bytes());
            self.wal.extend(self.salt.to_be_bytes());
            self.wal.extend(7u32.to_be_bytes());
            self.wal.extend([0u8; 8]);
            self.wal.extend(&now[i * size..(i + 1) * size]);
        }
        self.bytes = now;
    }

    /// Runs SQL that is one transaction.
    fn execute(&mut self, sql: &str) {
        self.conn.execute_batch(sql).unwrap();
        self.log();
    }

    /// Runs statements that are a transaction each.
    fn execute_each(&mut self, statements: &[&str]) {
        for sql in statements {
            self.execute(sql);
        }
    }

    fn sync(&mut self, cloud: &mut Cloud) -> Result<usize, Error> {
        self.sync_inner(cloud, false)
    }

    fn sync_inner(&mut self, cloud: &mut Cloud, coalesce: bool) -> Result<usize, Error> {
        let Some(h) = header(&self.wal) else { return Ok(0) };
        let cursor = self.db.cursor.resume(&h);
        let off = cursor.file_offset(&h).unwrap() as usize;
        let mut read = self.wal[..HEADER_LEN].to_vec();
        read.extend(&self.wal[off..]);
        let mut staged = self.db.stage_sync(&read, &h, cursor, coalesce)?;
        let mut last = None;
        if !staged.events.is_empty() {
            let events = std::mem::take(&mut staged.events);
            let expected = expected(self.db.tail);
            let info = cloud.store.commit_appends(
                &self.db.name,
                expected,
                None,
                Some(&self.db.token),
                events,
                false,
            )?;
            last = Some(info.last_version);
        }
        Ok(self.db.finish_sync(staged, last))
    }

    fn checkpoint(&mut self, cloud: &mut Cloud) -> Option<u64> {
        self.checkpoint_with(cloud, &CheckpointOpts::default())
    }

    fn checkpoint_with(&mut self, cloud: &mut Cloud, opts: &CheckpointOpts) -> Option<u64> {
        self.sync(cloud).unwrap();
        let name = self.db.name.clone();
        let checkpoint = self.db.checkpoint_with(cloud.manifest(&name), *opts)?;
        let through = checkpoint.through;
        let path = cloud.put_ltx(&name, &checkpoint.segment);
        let publication = match checkpoint.uploaded(&path) {
            Next::Coalesce(run) => {
                let older = run.fetch.iter().map(|path| cloud.fetch_ltx(path)).collect();
                let merged = run.merge(&older);
                let path = cloud.put_ltx(&name, &merged);
                run.merged(&merged, &path)
            }
            Next::Publish(publication) => publication,
        };
        assert_eq!(publication.purge_below, if opts.purge { Some(through + 1) } else { None });
        for path in publication.delete {
            cloud.objects.remove(&path);
        }
        cloud.store.publish_snapshot(&name, record(&name, through), Vec::new()).unwrap();
        cloud.manifests.insert(name.clone(), publication.manifest);
        self.db.sealed();
        if let Some(floor) = publication.purge_below {
            cloud.store.purge_below(&name, floor).unwrap();
        }
        // The log is truncated: the next transaction starts a new generation.
        self.wal.clear();
        self.salt += 1000;
        Some(through)
    }
}

fn number(conn: &Connection, sql: &str) -> i64 {
    conn.query_row(sql, [], |r| r.get(0)).unwrap()
}

fn integrity(conn: &Connection) -> String {
    conn.query_row("PRAGMA integrity_check", [], |r| r.get(0)).unwrap()
}

#[test]
fn create_sync_checkpoint_reopen() {
    let mut cloud = Cloud::new();
    let mut db = cloud.open("app-1");
    db.execute("CREATE TABLE t(id INTEGER PRIMARY KEY, v TEXT NOT NULL)");
    db.execute_each(&["INSERT INTO t(v) VALUES ('a');", "INSERT INTO t(v) VALUES ('b');"]);
    let n = db.sync(&mut cloud).unwrap();
    assert!(n >= 2); // create + two inserts, each its own tx

    // Checkpoint seals an LTX segment + manifest and truncates the WAL.
    db.checkpoint(&mut cloud);
    assert_eq!(db.wal.len(), 0);
    let before = db.db.image.to_bytes();
    assert_eq!(before, db.bytes);
    drop(db);

    // Forget everything: fresh image must come back from manifest+LTX alone.
    let db2 = cloud.open("app-1");
    assert_eq!(db2.db.image.to_bytes(), before);
    assert_eq!(number(&db2.conn, "SELECT count(*) FROM t"), 2);
    assert_eq!(integrity(&db2.conn), "ok");
}

/// Re-syncs with no new txns must cost O(1), not O(WAL size).
#[test]
fn resyncing_a_large_wal_only_reads_the_new_tail() {
    let mut cloud = Cloud::new();
    let mut db = cloud.open("walreads");
    db.execute("CREATE TABLE t(v BLOB)");
    let blob = vec![7u8; 3000];
    db.conn.execute_batch("BEGIN").unwrap();
    for _ in 0..12_000 {
        db.conn.execute("INSERT INTO t(v) VALUES (?1)", [&blob[..]]).unwrap();
    }
    db.execute("COMMIT");
    assert_eq!(db.sync(&mut cloud).unwrap(), 2);
    let h = header(&db.wal).unwrap();
    assert_eq!(db.db.cursor.file_offset(&h), Some(db.wal.len() as u64));

    let t = Instant::now();
    for _ in 0..20 {
        assert_eq!(db.sync(&mut cloud).unwrap(), 0);
    }
    let elapsed = t.elapsed();
    assert!(elapsed < Duration::from_millis(250), "resyncs reread the WAL: {elapsed:?}");
}

#[test]
fn restore_from_backlog_only() {
    let mut cloud = Cloud::new();
    let mut db = cloud.open("v2");
    db.execute_each(&[
        "CREATE TABLE kv(k TEXT PRIMARY KEY, v INTEGER);",
        "INSERT INTO kv VALUES ('x', 1);",
        "INSERT INTO kv VALUES ('y', 2);",
        "UPDATE kv SET v = 3 WHERE k = 'x';",
        "DELETE FROM kv WHERE k = 'y';",
    ]);
    db.sync(&mut cloud).unwrap();
    drop(db); // no checkpoint: the delta backlog must suffice

    let db2 = cloud.open("v2");
    let rows: Vec<(String, i64)> = db2
        .conn
        .prepare("SELECT k, v FROM kv ORDER BY k")
        .unwrap()
        .query_map([], |r| Ok((r.get(0)?, r.get(1)?)))
        .unwrap()
        .collect::<Result<_, _>>()
        .unwrap();
    assert_eq!(rows, [("x".to_string(), 3)]);
}

#[test]
fn reopen_fences_the_previous_writer() {
    let mut cloud = Cloud::new();
    let mut db = cloud.open("v3");
    db.execute_each(&["CREATE TABLE t(v);", "INSERT INTO t VALUES (1);"]);
    db.sync(&mut cloud).unwrap();

    // A second open of the same database (failover) takes the fence...
    let mut db2 = cloud.open("v3");
    // ...and sees what db wrote.
    assert_eq!(number(&db2.conn, "SELECT count(*) FROM t"), 1);

    // ...and the old writer's syncs are now rejected.
    db.execute("INSERT INTO t VALUES (2)");
    let err = db.sync(&mut cloud).unwrap_err();
    assert!(matches!(&err, Error::FenceMismatch { .. }), "expected fencing, got: {err:?}");
    // A rejected sync moves nothing.
    assert_eq!(db.db.image.txid, 2);

    db2.execute("INSERT INTO t VALUES (3)");
    db2.sync(&mut cloud).unwrap();
    assert_eq!(db2.db.image.txid, 3); // create + insert(1) + insert(3)

    // A restore without fencing also sees the current state.
    let (image, _) = cloud.restore("v3");
    assert_eq!(image.txid, 3);
}

#[test]
fn many_transactions_across_checkpoints() {
    let mut cloud = Cloud::new();
    let mut db = cloud.open("v4");
    db.execute("CREATE TABLE seq(n INTEGER PRIMARY KEY)");
    for i in 0..50 {
        db.execute(&format!("INSERT INTO seq VALUES ({i})"));
    }
    assert_eq!(db.sync(&mut cloud).unwrap(), 51);
    db.checkpoint(&mut cloud);

    // More transactions after the first segment: reopen must merge
    // manifest+LTX with the backlog after it.
    for i in 50..75 {
        db.execute(&format!("INSERT INTO seq VALUES ({i})"));
    }
    db.sync(&mut cloud).unwrap();
    db.checkpoint(&mut cloud);
    drop(db);

    let db2 = cloud.open("v4");
    assert_eq!(number(&db2.conn, "SELECT max(n) FROM seq"), 74);
    assert_eq!(integrity(&db2.conn), "ok");
}

/// Captures several transactions, including a multi-page transaction,
/// restores them, and compares the restored database with the source.
#[test]
fn round_trip_reproduces_source() {
    let mut cloud = Cloud::new();
    let mut db = cloud.open("cell-1");
    for sql in [
        "CREATE TABLE kv (k TEXT PRIMARY KEY, v TEXT NOT NULL)",
        "INSERT INTO kv (k, v) VALUES ('a','1'),('b','2'),('c','3')",
        "UPDATE kv SET v='updated' WHERE k='a'",
        "INSERT INTO kv (k, v) VALUES ('d','4'),('e','5')",
        "DELETE FROM kv WHERE k='b'",
        // A larger transaction to exercise multi-page WAL frames.
        "BEGIN; CREATE TABLE big (id INTEGER PRIMARY KEY, blob TEXT);\
         INSERT INTO big (id, blob) SELECT value, hex(randomblob(200)) \
           FROM (WITH RECURSIVE c(value) AS (SELECT 1 UNION ALL SELECT value+1 FROM c WHERE value<500) SELECT value FROM c); \
         COMMIT;",
    ] {
        db.execute(sql);
        db.sync(&mut cloud).unwrap();
    }
    assert!(db.db.image.txid >= 6, "at least 6 transactions captured");

    // Once the database is caught up, the stream contains every captured
    // transaction id in order.
    assert_eq!(db.sync(&mut cloud).unwrap(), 0, "stream caught up to the db");
    let (decoded, _) = cloud.decoded("cell-1", 0);
    let txids: Vec<u64> = decoded.into_iter().flat_map(|ds| ds.unwrap()).map(|d| d.txid).collect();
    assert_eq!(txids, (1..=db.db.image.txid).collect::<Vec<_>>());

    let (image, _) = cloud.restore("cell-1");
    assert_eq!(image.to_bytes(), db.bytes);
    assert_eq!(integrity(&connect(&image.to_bytes())), "ok");
}

/// Restores an intermediate transaction id and compares the result with the
/// database as it was at that point, after a checkpoint has sealed later
/// transactions.
#[test]
fn restore_to_target_txid_reproduces_point_in_time() {
    let mut cloud = Cloud::new();
    let mut db = cloud.open("pit-1");
    db.execute("CREATE TABLE t (id INTEGER PRIMARY KEY, v TEXT);");
    db.sync(&mut cloud).unwrap();
    db.execute("INSERT INTO t (v) VALUES ('one'),('two')");
    db.sync(&mut cloud).unwrap();

    // Capture the database state at the target transaction id.
    let target = db.db.image.txid;
    let snapshot = db.bytes.clone();

    // Continue mutating after the snapshot point; a checkpoint sealing them
    // must not leak post-target state into the restored image.
    db.execute("UPDATE t SET v='TWO' WHERE id=2");
    db.sync(&mut cloud).unwrap();
    db.execute("INSERT INTO t (v) VALUES ('three')");
    db.sync(&mut cloud).unwrap();
    db.checkpoint(&mut cloud);
    drop(db);

    let image = cloud.restore_at("pit-1", target).unwrap();
    assert_eq!(image.txid, target);
    assert_eq!(image.to_bytes(), snapshot);
    let conn = connect(&image.to_bytes());
    assert_eq!(number(&conn, "SELECT count(*) FROM t WHERE v IN ('one', 'two')"), 2);
}

/// Drops a database without a clean shutdown, reopens it, and verifies that
/// synced transactions survive and later writes are captured.
#[test]
fn crash_in_the_middle_then_reopen_and_restore() {
    let mut cloud = Cloud::new();
    {
        let mut db = cloud.open("cr-1");
        db.execute_each(&[
            "CREATE TABLE kv (k TEXT PRIMARY KEY, v TEXT NOT NULL);",
            "INSERT INTO kv (k,v) VALUES ('a','1'),('b','2'),('c','3')",
        ]);
        db.sync(&mut cloud).unwrap();

        // Committed locally without a sync.
        db.execute("INSERT INTO kv (k,v) VALUES ('x','9')");
        // Simulate a crash by dropping the handle without close or sync.
    }

    // Reopening restores the local file from the stream; the unsynced commit
    // is absent.
    let mut db = cloud.open("cr-1");
    let lost = number(&db.conn, "SELECT count(*) FROM kv WHERE k = 'x'");
    assert_eq!(lost, 0, "un-synced commit does not survive a crash");

    db.execute_each(&[
        "UPDATE kv SET v='updated' WHERE k='a';",
        "INSERT INTO kv (k,v) VALUES ('d','4'),('e','5');",
        "DELETE FROM kv WHERE k='b';",
    ]);
    db.sync(&mut cloud).unwrap();

    let (image, _) = cloud.restore("cr-1");
    assert_eq!(image.to_bytes(), db.bytes);
}

/// Recovers to an earlier state, writes new data, syncs again, and restores
/// again. The new data must survive the recovery cycle.
#[test]
fn restore_and_replicate_after_data_loss() {
    let mut cloud = Cloud::new();

    // Create initial data and replicate it.
    {
        let mut db = cloud.open("loss-1");
        db.execute_each(&["CREATE TABLE test(col1 INTEGER);", "INSERT INTO test VALUES (1);"]);
        db.sync(&mut cloud).unwrap();
        db.checkpoint(&mut cloud);
    }

    // Reopen from the stream, insert new data, and sync it.
    {
        let mut db = cloud.open("loss-1");
        let count = number(&db.conn, "SELECT count(*) FROM test");
        assert_eq!(count, 1, "local state came back from the stream");
        db.execute("INSERT INTO test VALUES (2);");
        db.sync(&mut cloud).unwrap();
    }

    // The restored database includes the new row.
    let (image, _) = cloud.restore("loss-1");
    let conn = connect(&image.to_bytes());
    let count = number(&conn, "SELECT count(*) FROM test");
    assert_eq!(count, 2, "expected 2 rows (1 and 2) in restored database");
    let exists: bool = conn
        .query_row("SELECT EXISTS(SELECT 1 FROM test WHERE col1 = 2)", [], |r| r.get(0))
        .unwrap();
    assert!(exists, "new data (value=2) was not replicated");
}

/// Verifies that truncating checkpoints between writes preserve the captured
/// chain across WAL salt resets.
#[test]
fn checkpoint_truncate_continuity_break_still_restores() {
    let mut cloud = Cloud::new();
    let mut db = cloud.open("ct-1");
    db.execute("CREATE TABLE t (id INTEGER PRIMARY KEY, v TEXT)");
    db.execute("INSERT INTO t (v) VALUES ('one'),('two')");
    db.sync(&mut cloud).unwrap();

    // A checkpoint restarts the WAL and rotates the salts.
    db.checkpoint(&mut cloud);
    assert_eq!(db.wal.len(), 0, "checkpoint truncated the WAL");

    db.execute("INSERT INTO t (v) VALUES ('three')");
    db.sync(&mut cloud).unwrap();
    db.execute("UPDATE t SET v='TWO' WHERE id=2");
    db.sync(&mut cloud).unwrap();
    // A second checkpoint mid-stream for good measure.
    db.checkpoint(&mut cloud);
    db.execute("INSERT INTO t (v) VALUES ('four'),('five')");
    db.sync(&mut cloud).unwrap();

    assert!(db.db.image.txid >= 5, "at least 5 transactions captured");
    let last_txid = db.db.image.txid;

    // Both sealed segments are in the manifest.
    assert_eq!(cloud.manifest("ct-1").segments.len(), 2);
    let (image, _) = cloud.restore("ct-1");
    assert_eq!(image.txid, last_txid);
    assert_eq!(image.to_bytes(), db.bytes);
}

/// For pseudo-random sequences of transactions, sync, checkpoint, and restore
/// produce a database identical to the source.
#[test]
fn random_txns_roundtrip_restores_source() {
    let mut seed = 0x2545_f491_4f6c_dd1du64;
    let mut next = |n: u64| {
        seed ^= seed << 13;
        seed ^= seed >> 7;
        seed ^= seed << 17;
        seed % n
    };
    for _ in 0..24 {
        let mut cloud = Cloud::new();
        let mut db = cloud.open("prop");
        db.execute("CREATE TABLE kv (k INTEGER PRIMARY KEY, v TEXT)");
        db.sync(&mut cloud).unwrap();
        for _ in 0..1 + next(14) {
            let (key, val) = (next(40), format!("v{}", next(1_000_000)));
            match next(18) {
                0..=5 => db.execute(&format!(
                    "INSERT OR REPLACE INTO kv (k, v) VALUES ({key}, '{val}')"
                )),
                6..=8 => db.execute(&format!("DELETE FROM kv WHERE k = {key}")),
                9..=11 => db.execute(&format!("UPDATE kv SET v = '{val}' WHERE k < {key}")),
                12..=14 => {
                    let rows: String = (0..1 + next(7))
                        .map(|i| {
                            format!(
                                "INSERT OR REPLACE INTO kv (k, v) VALUES ({}, '{val}');",
                                key + i
                            )
                        })
                        .collect();
                    db.execute(&format!("BEGIN; {rows} COMMIT;"));
                }
                15 => {
                    let i = next(3);
                    db.execute(&format!(
                        "CREATE TABLE IF NOT EXISTS aux{i} (id INTEGER PRIMARY KEY, label TEXT)"
                    ));
                    db.execute(&format!(
                        "INSERT INTO aux{i} (id, label) VALUES (1, 'seed-{i}') \
                         ON CONFLICT(id) DO UPDATE SET label='seed-{i}'"
                    ));
                }
                // Idle seals are a valid no-op.
                _ => {
                    db.checkpoint(&mut cloud);
                }
            }
            db.sync(&mut cloud).unwrap();
        }
        // Final seal so both the LTX path and the backlog are covered.
        db.checkpoint(&mut cloud);
        let (image, _) = cloud.restore("prop");
        assert_eq!(image.to_bytes(), db.bytes);
    }
}

/// A burst far beyond the store's 1000-event batch cap syncs as packed
/// chunks and restores exactly; a coalesced sync of hot-page churn folds to
/// a single event and still round-trips.
#[test]
fn sync_bursts_chunk_and_coalesce() {
    let mut cloud = Cloud::new();
    let mut db = cloud.open("burst");
    db.execute("CREATE TABLE kv(k INTEGER PRIMARY KEY, v TEXT)");
    db.sync(&mut cloud).unwrap();
    for i in 0..2500u32 {
        db.execute(&format!("INSERT INTO kv VALUES ({i}, 'payload')"));
    }
    assert_eq!(db.sync(&mut cloud).unwrap(), 2500);
    assert_eq!(db.db.image.txid, 2501);

    let before = cloud.store.read_history("burst", VersionRange::all()).unwrap().len();
    for i in 0..100u32 {
        db.execute(&format!("INSERT OR REPLACE INTO kv VALUES ({}, 'hot')", i % 10));
    }
    assert_eq!(db.sync_inner(&mut cloud, true).unwrap(), 100);
    let after = cloud.store.read_history("burst", VersionRange::all()).unwrap().len();
    assert_eq!(after - before, 1, "100 hot-page txns folded to one event");

    db.checkpoint(&mut cloud);
    let expected = db.db.image.dup();
    drop(db);

    let (image, tail) = cloud.restore("burst");
    assert!(tail.is_some());
    assert_eq!(image.txid, 2601);
    assert_eq!(integrity(&connect(&image.to_bytes())), "ok");
    assert_eq!(image.to_bytes(), expected.to_bytes(), "restored pages equal the live image");
}

/// Coalescing keeps the manifest flat no matter how many checkpoints run,
/// and generational GC reclaims the replaced segment objects.
#[test]
fn manifest_coalesces_and_segments_are_reclaimed() {
    let mut cloud = Cloud::new();
    let opts = CheckpointOpts { coalesce_at: 3, purge: false };

    let mut db = cloud.open("coal");
    db.execute("CREATE TABLE t(n INTEGER PRIMARY KEY)");
    db.sync(&mut cloud).unwrap();
    // 12 checkpoint cycles; coalescing at >3 segments.
    for i in 0..12 {
        db.execute(&format!("INSERT INTO t VALUES ({i})"));
        db.sync(&mut cloud).unwrap();
        db.checkpoint_with(&mut cloud, &opts);
    }

    let manifest = cloud.manifest("coal");
    assert!(
        manifest.segments.len() <= 4,
        "manifest stayed bounded: {} segments",
        manifest.segments.len()
    );

    // One more checkpoint: the generation it retires is then collected...
    db.execute("INSERT INTO t VALUES (1000)");
    db.sync(&mut cloud).unwrap();
    db.checkpoint_with(&mut cloud, &opts);
    // ...and the bucket holds no more objects than manifest refs + one
    // at-checkpoint generation of retirees.
    let manifest = cloud.manifest("coal");
    let objects = cloud.segment_count("coal");
    assert!(
        objects <= manifest.segments.len() + manifest.retire.len(),
        "no orphans beyond one GC generation: {objects} objects vs {manifest:?}"
    );

    // Restore from the coalesced replica still matches the source exactly.
    let (image, _) = cloud.restore("coal");
    assert_eq!(image.txid, 14);
    assert_eq!(image.to_bytes(), db.bytes);
    let conn = connect(&image.to_bytes());
    assert_eq!(number(&conn, "SELECT max(n) FROM t"), 1000);
    assert_eq!(integrity(&conn), "ok");
}

/// Retention: with `purge`, sealed history is physically gone: the manifest
/// carries the whole past, the backlog covers the present, and a restore into
/// deleted history fails loudly.
#[test]
fn checkpoint_with_purge_bounds_history() {
    let mut cloud = Cloud::new();
    let opts = CheckpointOpts { coalesce_at: 10, purge: true };

    let mut db = cloud.open("ret");
    db.execute_each(&[
        "CREATE TABLE t(v);",
        "INSERT INTO t VALUES (1);",
        "INSERT INTO t VALUES (2);",
    ]);
    db.sync(&mut cloud).unwrap();
    let txid_at_checkpoint = db.db.image.txid;
    db.checkpoint_with(&mut cloud, &opts);

    // Sealed events are physically gone; the manifest still restores them.
    assert_eq!(cloud.store.read_history("ret", VersionRange::all()).unwrap().len(), 0);
    let (image, _) = cloud.restore("ret");
    assert_eq!(image.txid, txid_at_checkpoint);
    assert_eq!(number(&connect(&image.to_bytes()), "SELECT count(*) FROM t"), 2);

    // A restore at the checkpoint boundary = the segment: fine. One at a txid
    // within the purged backlog fails loudly, no silent shortcut.
    cloud.restore_at("ret", txid_at_checkpoint).unwrap();
    let err = cloud.restore_at("ret", txid_at_checkpoint - 1).unwrap_err();
    assert!(err.message().contains("not reconstructable"), "got: {err:?}");
    assert_eq!(
        err.message(),
        "txid 2 is not reconstructable (beyond tail or purged by retention); reached txid 0"
    );

    // Keep working: new deltas accumulate, and a second purging checkpoint
    // still restores the full logical state.
    db.execute("INSERT INTO t VALUES (3)");
    db.sync(&mut cloud).unwrap();
    db.checkpoint_with(&mut cloud, &opts);
    let (image, _) = cloud.restore("ret");
    assert_eq!(number(&connect(&image.to_bytes()), "SELECT count(*) FROM t"), 3);
}

/// Many commits at test scale: 2000 transactions across 25 checkpoints (with
/// coalescing), then a fresh hydrate is a flat read: the manifest and the
/// backlog stay tiny.
#[test]
fn hydrate_after_many_commits_is_flat() {
    let mut cloud = Cloud::new();
    let opts = CheckpointOpts { coalesce_at: 8, purge: true };

    let mut db = cloud.open("big");
    db.execute("CREATE TABLE kv(k INTEGER PRIMARY KEY, v TEXT)");
    db.sync(&mut cloud).unwrap();
    for i in 0..2000u32 {
        db.execute(&format!("INSERT OR REPLACE INTO kv VALUES ({}, 'payload')", i % 500));
        if i % 80 == 79 {
            db.sync(&mut cloud).unwrap();
            db.checkpoint_with(&mut cloud, &opts);
        }
    }
    db.sync(&mut cloud).unwrap();
    db.checkpoint_with(&mut cloud, &opts);
    assert_eq!(db.db.image.txid, 2001);
    drop(db);

    // Fresh hydrate: one manifest (one coalesced segment), no backlog, no
    // retained history.
    assert_eq!(cloud.manifest("big").segments.len(), 1, "coalesced down to one segment");
    let history = cloud.store.read_history("big", VersionRange::all()).unwrap();
    assert_eq!(history.len(), 0, "history purged");

    let (image, tail) = cloud.restore("big");
    assert!(tail.is_some() && image.txid == 2001);
    let conn = connect(&image.to_bytes());
    assert_eq!(number(&conn, "SELECT count(*) FROM kv"), 500);
    assert_eq!(integrity(&conn), "ok");

    // And the db keeps growing normally on the fresh hydrate.
    let mut db2 = cloud.open("big");
    db2.execute("INSERT INTO kv VALUES (999, 'post-hydrate')");
    assert_eq!(db2.sync(&mut cloud).unwrap(), 1);
    assert_eq!(db2.db.image.txid, 2002);
}

/// Several hundred transactions, checkpointed with coalescing and retention
/// purge, then hydrated by another opener and verified.
#[test]
fn replicate_checkpoint_coalesce_rehydrate_on_fresh_vm() {
    let mut cloud = Cloud::new();
    let opts = CheckpointOpts { coalesce_at: 3, purge: true };
    let name = "s3test-run";

    let mut db = cloud.open(name);
    db.execute("CREATE TABLE kv(k INTEGER PRIMARY KEY, v TEXT)");
    for i in 0..150 {
        db.execute(&format!("INSERT OR REPLACE INTO kv VALUES ({i}, printf('v-%d', {i}))"));
    }
    db.sync(&mut cloud).unwrap();
    db.checkpoint_with(&mut cloud, &opts);

    for round in 0..3u32 {
        for i in 150 * (round + 1)..150 * (round + 2) {
            db.execute(&format!("INSERT OR REPLACE INTO kv VALUES ({i}, printf('v-%d', {i}))"));
        }
        db.sync(&mut cloud).unwrap();
        db.checkpoint_with(&mut cloud, &opts);
    }
    assert_eq!(db.db.image.txid, 601);

    // The manifest has coalesced by now (>3 segments trigger): one object
    // carries the whole database image, and purged history is gone.
    assert_eq!(cloud.manifest(name).segments.len(), 1, "coalesced to a single segment");
    let backlog = cloud.store.read_history(name, VersionRange::all()).unwrap().len();
    assert_eq!(backlog, 0);

    let source_copy = db.db.image.to_bytes();
    let txid = db.db.image.txid;
    drop(db);

    let (image, tail) = cloud.restore(name);
    assert_eq!(image.txid, txid);
    assert!(tail.is_some());
    assert_eq!(image.to_bytes(), source_copy, "byte-exact page map");

    let conn = connect(&image.to_bytes());
    let count = number(&conn, "SELECT count(*) FROM kv");
    let max = number(&conn, "SELECT max(k) FROM kv");
    let ok = integrity(&conn);
    assert_eq!((count, max, ok.as_str()), (600, 599, "ok"));

    // A restore into purged history must fail loudly.
    let err = cloud.restore_at(name, 1).unwrap_err();
    assert!(err.message().contains("not reconstructable"));

    // The next opener takes over: new writes continue the txid chain.
    let mut db2 = cloud.open(name);
    db2.execute("INSERT INTO kv VALUES (999, 'from-node-b')");
    assert_eq!(db2.sync(&mut cloud).unwrap(), 1);
    assert_eq!(db2.db.image.txid, txid + 1);
}

/// Frames after the last commit frame are left alone until their commit lands.
#[test]
fn an_uncommitted_tail_is_not_captured() {
    let mut cloud = Cloud::new();
    let mut db = cloud.open("open-tx");
    db.execute("CREATE TABLE t(v)");
    let committed = db.wal.len();
    db.execute("INSERT INTO t VALUES (1)");
    let whole = db.wal.clone();
    // All but the commit frame of the second transaction.
    let frame = FRAME_HEADER_LEN + header(&whole).unwrap().page_size as usize;
    db.wal.truncate(whole.len() - frame);
    assert!(db.wal.len() > committed);
    assert_eq!(db.sync(&mut cloud).unwrap(), 1);
    db.wal = whole;
    assert_eq!(db.sync(&mut cloud).unwrap(), 1);
    assert_eq!(db.db.image.to_bytes(), db.bytes);
}

/// The manifest's segments follow each other without a gap from the first
/// transaction on, however the syncs were folded.
#[test]
fn segments_are_contiguous_after_coalesced_syncs() {
    let mut cloud = Cloud::new();
    let mut db = cloud.open("fold");
    db.execute("CREATE TABLE kv(k INTEGER PRIMARY KEY, v TEXT)");
    db.execute("INSERT INTO kv VALUES (1, 'a')");
    assert_eq!(db.sync_inner(&mut cloud, true).unwrap(), 2);
    db.checkpoint(&mut cloud);
    db.execute("INSERT INTO kv VALUES (2, 'b')");
    db.execute("INSERT INTO kv VALUES (3, 'c')");
    db.execute("INSERT INTO kv VALUES (4, 'd')");
    assert_eq!(db.sync_inner(&mut cloud, true).unwrap(), 3);
    db.execute("INSERT INTO kv VALUES (5, 'e')");
    db.checkpoint(&mut cloud);
    let spans: Vec<(u64, u64)> =
        cloud.manifest("fold").segments.iter().map(|s| (s.txid_start, s.txid_end)).collect();
    assert_eq!(spans, [(1, 2), (3, 6)]);
    assert_eq!(db.db.image.txid, 6);
}

/// A fold of its own starts with its first transaction, one that goes on after
/// another with the next.
#[test]
fn folds_start_with_their_first_transaction() {
    let frame = |pgno: u32, byte: u8| slog::sqlite::Frame { pgno, data: vec![byte; 4] };
    let deltas = [
        Delta { txid: 4, page_size: 4, db_size: 2, pages: vec![frame(2, 1), frame(1, 2)] },
        Delta { txid: 5, page_size: 4, db_size: 2, pages: vec![frame(2, 3)] },
    ];
    for (mut fold, start) in [(LtxBuilder::default(), 4), (LtxBuilder::new(1), 2)] {
        let (mut one, mut all) = (DbImage::new(), DbImage::new());
        for d in &deltas {
            fold.apply(d);
            one.apply(d);
        }
        let segment = fold.into_ltx();
        assert_eq!((segment.txid_start, segment.txid_end), (start, 5));
        let pages: Vec<u32> = segment.pages.iter().map(|f| f.pgno).collect();
        assert_eq!(pages, [1, 2]);
        all.merge_ltx(&segment);
        assert_eq!((one.to_bytes(), one.txid), (all.to_bytes(), all.txid));
        assert_eq!(one.to_bytes(), [2, 2, 2, 2, 3, 3, 3, 3]);
    }
}
