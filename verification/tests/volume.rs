//! Volumes, replicas and mirrors against a store and a bucket in memory.

use std::collections::BTreeMap;

use slog::envelope::expected;
use slog::fuse::checkpoint::seal;
use slog::fuse::fs::FileType;
use slog::fuse::mirror::{local, write_node, MirrorState};
use slog::fuse::replica::{Change, Replica};
use slog::fuse::store::{load_segments, ReadStep, Volume};
use slog::fuse::{Content, Data, Delta, FsImage, Manifest, Node, Segment};
use slog::table::Dup;
use slog::{CompactionRecord, Error, EventStore, NewEvent, VersionRange};

/// The store, the bucket, and the deltas behind the events of one volume.
struct Host {
    store: EventStore,
    log: BTreeMap<u64, Delta>,
    blocks: BTreeMap<String, Vec<u8>>,
    segments: BTreeMap<String, Segment>,
    manifest: Manifest,
    through: Option<u64>,
    mounts: u32,
}

impl Host {
    fn new() -> Host {
        Host {
            store: EventStore::open_in_memory(),
            log: BTreeMap::new(),
            blocks: BTreeMap::new(),
            segments: BTreeMap::new(),
            manifest: Manifest::empty(),
            through: None,
            mounts: 0,
        }
    }

    fn manifest_segments(&self) -> Vec<Segment> {
        self.manifest
            .segments
            .iter()
            .map(|key| Segment { entries: self.segments[key].entries.dup() })
            .collect()
    }

    /// The readable deltas from a version on.
    fn since(&self, vol: &str, from: u64) -> Vec<(u64, Delta)> {
        self.store
            .read_stream(vol, VersionRange::from(from))
            .unwrap()
            .iter()
            .map(|e| (e.version, self.log[&e.version].dup()))
            .collect()
    }

    fn mount(&mut self, vol: &str) -> Volume {
        self.mounts += 1;
        let token = format!("mount-{}", self.mounts);
        self.store.fence(vol, Some(&token)).unwrap();
        let tail = self.since(vol, self.through.map_or(0, |v| v + 1));
        let last = tail.last().map(|(v, _)| *v);
        let deltas: Vec<Delta> = tail.into_iter().map(|(_, d)| d).collect();
        let segments = self.manifest_segments();
        Volume::mount(vol.to_string(), token, segments, &deltas, last, self.through)
    }

    fn commit(&mut self, vol: &mut Volume) -> Result<(), Error> {
        let staged = vol.stage_commit();
        for (hash, bytes) in &staged.uploads {
            self.blocks.insert(hash.clone(), bytes.clone());
        }
        vol.blocks_uploaded(&staged);
        let events = staged.upgraded.iter().map(|_| NewEvent::new("fs", Vec::new())).collect();
        let info =
            self.store.append_with_token(&vol.vol, &vol.token, expected(vol.tail), events)?;
        for (i, d) in staged.upgraded.into_iter().enumerate() {
            self.log.insert(info.first_version + i as u64, d);
        }
        vol.committed(info.last_version);
        Ok(())
    }

    fn checkpoint(&mut self, vol: &Volume) -> Result<CompactionRecord, Error> {
        let through = vol.checkpoint_through()?;
        let tail = self.since(&vol.vol, self.through.map_or(0, |v| v + 1));
        let deltas: Vec<Delta> = tail.into_iter().map(|(_, d)| d).collect();
        let (segment, _) = seal(load_segments(self.manifest_segments()), &deltas);
        let key = format!("segments/{through}");
        self.segments.insert(key.clone(), segment);
        self.manifest.push(key);
        let record = vol.record(through);
        self.store.publish_snapshot(&vol.vol, vol.record(through), Vec::new())?;
        self.through = Some(through);
        Ok(record)
    }

    fn read_file(&self, vol: &mut Volume, path: &str) -> Option<Vec<u8>> {
        loop {
            match vol.read_file(path)? {
                ReadStep::Done(bytes) => return Some(bytes),
                ReadStep::Fetch(hash) => {
                    let bytes = self.blocks[&hash].clone();
                    vol.cache_block(hash, bytes);
                }
            }
        }
    }

    fn read_range(&self, vol: &mut Volume, path: &str, offset: u64, len: u64) -> Option<Vec<u8>> {
        loop {
            match vol.read_file_range(path, offset, len)? {
                ReadStep::Done(bytes) => return Some(bytes),
                ReadStep::Fetch(hash) => {
                    let bytes = self.blocks[&hash].clone();
                    vol.cache_block(hash, bytes);
                }
            }
        }
    }

    fn truncate(&self, vol: &mut Volume, path: &str, size: usize) {
        while let Some(hash) = vol.truncate(path, size) {
            let bytes = self.blocks[&hash].clone();
            vol.cache_block(hash, bytes);
        }
    }

    fn write_file(&self, vol: &mut Volume, path: &str, offset: u64, data: &[u8]) {
        while let Some(hash) = vol.write_file(path, offset, data.to_vec()) {
            let bytes = self.blocks[&hash].clone();
            vol.cache_block(hash, bytes);
        }
    }

    fn sync(&self, replica: &mut Replica, vol: &str) -> Result<(), Error> {
        let read = self.since(vol, replica.next_read());
        let first = read.first().map(|(v, _)| *v);
        let mut read = read;
        if replica.is_cut_off(first, self.through) {
            let rest = self.since(vol, self.through.map_or(0, |v| v + 1));
            replica.reload(self.through, self.manifest_segments(), rest.first().map(|(v, _)| *v))?;
            read = rest;
        }
        let changes: Vec<Change> = read
            .into_iter()
            .map(|(version, delta)| Change { version, delta: Some(delta) })
            .collect();
        replica.advance(&changes);
        Ok(())
    }

    fn replica_file(&self, replica: &mut Replica, path: &str) -> Option<Vec<u8>> {
        loop {
            match replica.read_file(path)? {
                ReadStep::Done(bytes) => return Some(bytes),
                ReadStep::Fetch(hash) => {
                    let bytes = self.blocks[&hash].clone();
                    replica.cache_block(hash, bytes);
                }
            }
        }
    }
}

fn inline(text: &str) -> Data {
    Data::Inline(text.as_bytes().to_vec())
}

fn write(path: &str, text: &str) -> Delta {
    Delta::Write { path: path.into(), offset: 0, data: inline(text) }
}

fn node<'a>(image: &'a FsImage, path: &str) -> &'a Node {
    image.nodes.get(path.as_bytes()).unwrap()
}

fn paths(image: &FsImage) -> Vec<String> {
    (0..image.nodes.len()).map(|i| image.nodes.key_at(i).clone()).collect()
}

#[test]
fn mount_write_checkpoint_remount() {
    let mut host = Host::new();
    let mut vol = host.mount("sandbox-1");
    vol.mutate(Delta::Mkdir { path: "/etc".into() });
    vol.mutate(write("/etc/config", "key=val"));
    vol.mutate(write("/main.rs", "fn main() {}"));
    host.commit(&mut vol).unwrap();

    let record = host.checkpoint(&vol).unwrap();
    assert_eq!(record.through_version, 2); // 1 commit of 3 deltas -> v0..v2
    drop(vol);

    let mut vol2 = host.mount("sandbox-1");
    assert_eq!(host.read_file(&mut vol2, "/etc/config").unwrap(), b"key=val");
    assert_eq!(host.read_file(&mut vol2, "/main.rs").unwrap(), b"fn main() {}");
    assert!(matches!(node(&vol2.image, "/etc"), Node::Dir { .. }));
    assert_eq!(vol2.tail, Some(2));
}

#[test]
fn extent_writes_gaps_and_truncation() {
    let mut host = Host::new();
    let mut vol = host.mount("v-ext");
    vol.write_file("/log", 0, b"abc".to_vec());
    vol.write_file("/log", 6, b"xyz".to_vec()); // gap
    host.truncate(&mut vol, "/log", 4); // shrink
    host.truncate(&mut vol, "/log", 10); // grow
    host.commit(&mut vol).unwrap();
    host.checkpoint(&vol).unwrap();
    drop(vol);

    let mut vol2 = host.mount("v-ext");
    assert_eq!(host.read_file(&mut vol2, "/log").unwrap(), b"abc\0\0\0\0\0\0\0");
}

#[test]
fn remove_and_rename_reconstruct() {
    let mut host = Host::new();
    let mut vol = host.mount("v2");
    vol.mutate(write("/a/x", "1"));
    vol.mutate(write("/a/y", "2"));
    vol.mutate(Delta::Rename { from: "/a".into(), to: "/b".into() });
    vol.mutate(Delta::Remove { path: "/b/y".into() });
    host.commit(&mut vol).unwrap();
    host.checkpoint(&vol).unwrap();
    drop(vol);

    let mut vol2 = host.mount("v2");
    assert_eq!(paths(&vol2.image), ["/b/x"]);
    assert_eq!(host.read_file(&mut vol2, "/b/x").unwrap(), b"1");
}

#[test]
fn attrs_symlinks_xattrs_and_empty_dirs_survive() {
    let mut host = Host::new();
    let mut vol = host.mount("v4");
    vol.mutate(write("/bin/tool", "#!"));
    vol.mutate(Delta::SetAttr {
        path: "/bin/tool".into(),
        mode: Some(0o755),
        uid: Some(1000),
        gid: None,
        mtime_ms: None,
    });
    vol.mutate(Delta::SetXattr {
        path: "/bin/tool".into(),
        name: "user.tag".into(),
        value: Some(b"deploy".to_vec()),
    });
    vol.mutate(Delta::Symlink { path: "/tool".into(), target: "/bin/tool".into() });
    vol.mutate(Delta::Mkdir { path: "/empty".into() });
    host.commit(&mut vol).unwrap();
    host.checkpoint(&vol).unwrap();
    drop(vol);

    let vol2 = host.mount("v4");
    let Node::File { meta, .. } = node(&vol2.image, "/bin/tool") else { panic!() };
    assert_eq!((meta.mode, meta.uid), (0o755, 1000));
    assert_eq!(meta.xattrs.get(b"user.tag").unwrap(), b"deploy");
    assert!(matches!(node(&vol2.image, "/tool"), Node::Symlink { .. }));
    assert!(matches!(node(&vol2.image, "/empty"), Node::Dir { .. }));
}

#[test]
fn large_files_chunk_and_reconstruct_lazily() {
    let mut host = Host::new();
    let data = vec![7u8; 2_500_000];
    let mut vol = host.mount("vbig");
    vol.write_file("/big.bin", 0, data.clone());
    host.commit(&mut vol).unwrap();

    // 2.5 MiB > CHUNK: three content-addressed blocks, not inline bytes.
    let Node::File { content: Content::Blocks { blocks, size }, .. } =
        node(&vol.image, "/big.bin")
    else {
        panic!();
    };
    assert_eq!((blocks.len(), *size), (3, 2_500_000));
    host.checkpoint(&vol).unwrap();
    drop(vol);

    // Remount: no content fetched yet; the image is block references only.
    let mut vol2 = host.mount("vbig");
    assert_eq!(vol2.block_cache_len(), 0);
    let Node::File { content: Content::Blocks { .. }, .. } = node(&vol2.image, "/big.bin") else {
        panic!();
    };

    // Content arrives on demand, then is cached. Two identical chunks share
    // one content-addressed block (dedup), so 3 refs -> 2 unique blocks.
    assert_eq!(host.read_file(&mut vol2, "/big.bin").unwrap(), data);
    assert_eq!(vol2.block_cache_len(), 2);
}

#[test]
fn range_reads_fetch_only_overlapping_blocks() {
    let mut host = Host::new();
    // 3 distinct 1 MiB chunks (no dedup): [1]*MiB, [2]*MiB, [3]*(rest)
    let mut data = vec![0u8; 2_500_000];
    data[..1_048_576].fill(1);
    data[1_048_576..2_097_152].fill(2);
    data[2_097_152..].fill(3);
    let mut vol = host.mount("vrange");
    vol.write_file("/big", 0, data.clone());
    host.commit(&mut vol).unwrap();
    drop(vol);

    let mut vol2 = host.mount("vrange");
    // A read entirely inside the last block fetches exactly one block.
    let r = host.read_range(&mut vol2, "/big", 2_200_000, 100).unwrap();
    assert_eq!(r, vec![3u8; 100]);
    assert_eq!(vol2.block_cache_len(), 1);
    // A range spanning blocks 1 and 2 fetches the other two, never more.
    let r = host.read_range(&mut vol2, "/big", 1_000_000, 200_000).unwrap();
    assert_eq!(r, &data[1_000_000..1_200_000]);
    assert_eq!(vol2.block_cache_len(), 3);
    assert_eq!(r.len(), 200_000);
}

#[test]
fn remount_fences_the_previous_writer() {
    let mut host = Host::new();
    let mut vol = host.mount("v3");
    vol.mutate(write("/f", "a"));
    host.commit(&mut vol).unwrap();

    // A second mount of the same volume (failover) takes the fence...
    let mut vol2 = host.mount("v3");

    // ...and the old writer's commits are now rejected.
    vol.mutate(write("/f", "stale"));
    assert!(matches!(host.commit(&mut vol).unwrap_err(), Error::FenceMismatch { .. }));

    vol2.mutate(write("/f", "b"));
    host.commit(&mut vol2).unwrap();
    assert_eq!(host.read_file(&mut vol2, "/f").unwrap(), b"b");
}

/// After a commit the image is what the stream says: a large file that is
/// renamed or removed after its write does not come back.
#[test]
fn commits_follow_renames_and_removals_of_large_files() {
    let mut host = Host::new();
    let mut vol = host.mount("v5");
    vol.write_file("/old", 0, vec![1u8; 1_200_000]);
    vol.mutate(Delta::Rename { from: "/old".into(), to: "/new".into() });
    vol.write_file("/gone", 0, vec![2u8; 1_200_000]);
    vol.mutate(Delta::Remove { path: "/gone".into() });
    vol.write_file("/kept", 0, vec![3u8; 1_200_000]);
    host.commit(&mut vol).unwrap();
    assert_eq!(paths(&vol.image), ["/kept", "/new"]);
    let tail = host.mount("v5");
    assert_eq!(paths(&tail.image), ["/kept", "/new"]);
    for path in ["/kept", "/new"] {
        let mut a = host.mount("v5");
        assert_eq!(
            host.read_file(&mut a, path).unwrap(),
            host.read_file(&mut vol, path).unwrap()
        );
    }
}

#[test]
fn an_unwritten_volume_has_nothing_to_checkpoint() {
    let mut host = Host::new();
    let vol = host.mount("v6");
    assert_eq!(host.checkpoint(&vol).unwrap_err().message(), "nothing to checkpoint");
}

// ---- replicas --------------------------------------------------------------

#[test]
fn replica_follows_commits_and_never_fences() {
    let mut host = Host::new();
    let mut vol = host.mount("rootfs");
    vol.write_file("/etc/hostname", 0, b"node-a".to_vec());
    host.commit(&mut vol).unwrap();

    // The replica opens alongside the live writer: no fence taken.
    let mut replica = Replica::new("rootfs".to_string());
    host.sync(&mut replica, "rootfs").unwrap();
    assert_eq!(host.replica_file(&mut replica, "/etc/hostname").unwrap(), b"node-a");

    // The writer keeps committing (its fence was never stolen)...
    vol.write_file("/main.rs", 0, b"fn main() {}".to_vec());
    host.commit(&mut vol).unwrap();
    // ...and the replica converges on the new deltas.
    host.sync(&mut replica, "rootfs").unwrap();
    assert_eq!(host.replica_file(&mut replica, "/main.rs").unwrap(), b"fn main() {}");
    assert_eq!(replica.cursor(), Some(1));
}

#[test]
fn replica_rebuilds_from_checkpoint_after_purge() {
    let mut host = Host::new();
    let mut vol = host.mount("rootfs");
    vol.write_file("/boot/vmlinuz", 0, b"kernel".to_vec());
    host.commit(&mut vol).unwrap();
    let record = host.checkpoint(&vol).unwrap();
    // Retention: the deltas the segment now covers are gone for good.
    host.store.purge_below("rootfs", record.through_version + 1).unwrap();

    // A replica opening now has no readable backlog: it rebuilds from the
    // checkpoint's manifest + segments.
    let mut replica = Replica::new("rootfs".to_string());
    host.sync(&mut replica, "rootfs").unwrap();
    assert_eq!(host.replica_file(&mut replica, "/boot/vmlinuz").unwrap(), b"kernel");

    // Post-checkpoint deltas flow through the same cursor afterwards.
    vol.write_file("/etc/os-release", 0, b"slog".to_vec());
    host.commit(&mut vol).unwrap();
    host.sync(&mut replica, "rootfs").unwrap();
    assert_eq!(host.replica_file(&mut replica, "/etc/os-release").unwrap(), b"slog");
}

#[test]
fn unknown_volume_opens_empty() {
    let host = Host::new();
    let mut replica = Replica::new("does-not-exist".to_string());
    host.sync(&mut replica, "does-not-exist").unwrap();
    assert!(paths(&replica.image).is_empty());
    assert_eq!(replica.cursor(), None);
}

#[test]
fn a_replica_past_retention_says_so() {
    let mut replica = Replica::new("rootfs".to_string());
    assert!(replica.is_cut_off(Some(4), None));
    let e = replica.reload(None, Vec::new(), Some(4)).unwrap_err();
    assert_eq!(e.message(), "volume \"rootfs\": backlog pruned but no checkpoint to rebuild from");
    let e = replica.reload(Some(2), Vec::new(), Some(6)).unwrap_err();
    assert_eq!(
        e.message(),
        "volume \"rootfs\": deltas v3..v6 pruned past the latest checkpoint (v2); \
         retry after the writer checkpoints"
    );
    assert_eq!(replica.cursor(), None);
}

// ---- mirrors ---------------------------------------------------------------

#[derive(Debug, Clone, PartialEq)]
enum OnDisk {
    File { bytes: Vec<u8>, ino: u64 },
    Dir,
    Link { target: String },
}

/// A directory tree in memory, with a new inode for every file write.
struct Disk {
    entries: BTreeMap<String, OnDisk>,
    modes: BTreeMap<String, u32>,
    next_ino: u64,
}

impl Disk {
    fn new() -> Disk {
        Disk { entries: BTreeMap::new(), modes: BTreeMap::new(), next_ino: 1 }
    }

    fn remove_any(&mut self, path: &str) {
        let below = format!("{path}/");
        self.entries.retain(|p, _| p != path && !p.starts_with(&below));
    }

    fn bytes(&self, path: &str) -> &[u8] {
        match &self.entries[path] {
            OnDisk::File { bytes, .. } => bytes,
            other => panic!("{other:?}"),
        }
    }

    fn pass(&mut self, host: &Host, state: &mut MirrorState, replica: &mut Replica) {
        for path in paths(&replica.image) {
            let node = node(&replica.image, &path).dup();
            let at = local(&path).join("/");
            if !state.needs_write(&path, &node, self.entries.contains_key(&at)) {
                continue;
            }
            let steps = write_node(&node, self.entries.get(&at) == Some(&OnDisk::Dir));
            if steps.clear {
                self.remove_any(&at);
            }
            match (steps.make, &node) {
                (Some(FileType::Directory), _) => {
                    self.entries.insert(at.clone(), OnDisk::Dir);
                }
                (Some(FileType::Symlink), Node::Symlink { target, .. }) => {
                    self.entries.insert(at.clone(), OnDisk::Link { target: target.clone() });
                }
                (Some(FileType::RegularFile), _) => {
                    let bytes = host.replica_file(replica, &path).unwrap();
                    self.entries.insert(at.clone(), OnDisk::File { bytes, ino: self.next_ino });
                    self.next_ino += 1;
                }
                (None, _) => {}
                other => panic!("{other:?}"),
            }
            self.modes.insert(at, node.meta().mode);
            state.wrote(&path, &node);
        }
        for path in state.gone(&replica.image) {
            self.remove_any(&local(&path).join("/"));
            state.removed(&path);
        }
    }
}

#[test]
fn mirror_materializes_files_dirs_symlinks_modes() {
    let mut host = Host::new();
    let mut vol = host.mount("rootfs");
    vol.mutate(Delta::Mkdir { path: "/etc".into() });
    vol.write_file("/etc/hostname", 0, b"node-a".to_vec());
    vol.write_file("/bin/tool", 0, b"#!/bin/sh".to_vec());
    vol.mutate(Delta::SetAttr {
        path: "/bin/tool".into(),
        mode: Some(0o755),
        uid: None,
        gid: None,
        mtime_ms: None,
    });
    vol.mutate(Delta::Symlink { path: "/tool".into(), target: "bin/tool".into() });
    host.commit(&mut vol).unwrap();

    let mut replica = Replica::new("rootfs".to_string());
    host.sync(&mut replica, "rootfs").unwrap();
    let (mut disk, mut state) = (Disk::new(), MirrorState::new());
    disk.pass(&host, &mut state, &mut replica);
    assert_eq!(disk.bytes("etc/hostname"), b"node-a");
    assert_eq!(disk.bytes("bin/tool"), b"#!/bin/sh");
    assert_eq!(disk.entries["tool"], OnDisk::Link { target: "bin/tool".into() });
    assert_eq!(disk.entries["etc"], OnDisk::Dir);
    assert_eq!(disk.modes["bin/tool"] & 0o777, 0o755);
}

#[test]
fn mirror_tracks_edits_renames_and_deletes() {
    let mut host = Host::new();
    let mut vol = host.mount("rootfs");
    vol.write_file("/a", 0, b"old".to_vec());
    vol.write_file("/keep", 0, b"same".to_vec());
    vol.write_file("/bye", 0, b"x".to_vec());
    host.commit(&mut vol).unwrap();

    let mut replica = Replica::new("rootfs".to_string());
    host.sync(&mut replica, "rootfs").unwrap();
    let (mut disk, mut state) = (Disk::new(), MirrorState::new());
    disk.pass(&host, &mut state, &mut replica);
    let keep = disk.entries["keep"].clone();

    vol.write_file("/a", 0, b"new-and-longer".to_vec());
    vol.mutate(Delta::Rename { from: "/bye".into(), to: "/moved".into() });
    host.commit(&mut vol).unwrap();
    host.sync(&mut replica, "rootfs").unwrap();
    disk.pass(&host, &mut state, &mut replica);

    assert_eq!(disk.bytes("a"), b"new-and-longer");
    assert_eq!(disk.bytes("moved"), b"x");
    assert!(!disk.entries.contains_key("bye"));
    // Untouched nodes were not rewritten (same inode).
    assert_eq!(disk.entries["keep"], keep);
}

#[test]
fn mirror_reopen_repairs_and_stays_incremental() {
    let mut host = Host::new();
    let mut vol = host.mount("rootfs");
    vol.write_file("/config", 0, b"v1".to_vec());
    host.commit(&mut vol).unwrap();

    let mut replica = Replica::new("rootfs".to_string());
    host.sync(&mut replica, "rootfs").unwrap();
    let (mut disk, mut state) = (Disk::new(), MirrorState::new());
    disk.pass(&host, &mut state, &mut replica);

    // While "down": the file is deleted locally and unchanged remotely. A
    // reopened mirror must notice the missing entry even though its
    // fingerprint is still current.
    disk.remove_any("config");
    let mut replica = Replica::new("rootfs".to_string());
    host.sync(&mut replica, "rootfs").unwrap();
    disk.pass(&host, &mut state, &mut replica);
    assert_eq!(disk.bytes("config"), b"v1");

    // And new remote commits flow on the next pass.
    vol.write_file("/config", 2, b"-v2".to_vec());
    host.commit(&mut vol).unwrap();
    host.sync(&mut replica, "rootfs").unwrap();
    disk.pass(&host, &mut state, &mut replica);
    assert_eq!(disk.bytes("config"), b"v1-v2");
}

/// A directory goes after everything in it.
#[test]
fn mirror_removals_run_deepest_first() {
    let mut state = MirrorState::new();
    let mut image = FsImage::new();
    image.apply(&Delta::Mkdir { path: "/d".into() });
    image.apply(&Delta::Mkdir { path: "/d/sub".into() });
    image.apply(&write("/d/sub/file", "x"));
    for path in paths(&image) {
        state.wrote(&path, node(&image, &path));
    }
    assert_eq!(state.gone(&FsImage::new()), ["/d/sub/file", "/d/sub", "/d"]);
    // A fingerprint with another mode is written again.
    let mut changed = image.dup();
    changed.apply(&Delta::SetAttr {
        path: "/d/sub/file".into(),
        mode: Some(0o600),
        uid: None,
        gid: None,
        mtime_ms: Some(5),
    });
    assert!(!state.needs_write("/d/sub/file", node(&image, "/d/sub/file"), true));
    assert!(state.needs_write("/d/sub/file", node(&changed, "/d/sub/file"), true));
    assert!(state.needs_write("/d/sub/file", node(&image, "/d/sub/file"), false));
}

fn own(path: &str) -> Delta {
    Delta::SetAttr {
        path: path.into(),
        mode: Some(0o755),
        uid: Some(1000),
        gid: Some(1000),
        mtime_ms: None,
    }
}

fn tag(path: &str) -> Delta {
    Delta::SetXattr { path: path.into(), name: "user.k".into(), value: Some(b"v".to_vec()) }
}

/// A write into a file kept as blocks is spliced into its content, and its
/// metadata stays, in the image and in the replayed stream.
#[test]
fn writes_are_spliced_into_block_backed_files() {
    let mut host = Host::new();
    let mut vol = host.mount("vb");
    let mut data = vec![7u8; 1_200_000];
    assert_eq!(vol.write_file("/big", 0, data.clone()), None);
    vol.mutate(own("/big"));
    vol.mutate(tag("/big"));
    host.commit(&mut vol).unwrap();
    assert!(matches!(
        node(&vol.image, "/big"),
        Node::File { content: Content::Blocks { .. }, .. }
    ));

    // Without its blocks the content is not at hand: nothing is written.
    let mut bare = host.mount("vb");
    assert!(bare.write_file("/big", 3, b"abc".to_vec()).is_some());
    assert!(bare.pending.is_empty());
    assert_eq!(host.read_file(&mut bare, "/big").unwrap(), data);

    host.write_file(&mut bare, "/big", 3, b"abc");
    data[3..6].copy_from_slice(b"abc");
    assert_eq!(host.read_file(&mut bare, "/big").unwrap(), data);
    host.write_file(&mut bare, "/big", 1_200_002, b"end");
    data.extend(b"\0\0end");
    assert_eq!(host.read_file(&mut bare, "/big").unwrap(), data);
    host.commit(&mut bare).unwrap();

    let mut again = host.mount("vb");
    for v in [&mut bare, &mut again] {
        assert_eq!(host.read_file(v, "/big").unwrap(), data);
        let meta = node(&v.image, "/big").meta();
        assert_eq!((meta.mode, meta.uid, meta.gid), (0o755, 1000, 1000));
        assert_eq!(meta.xattrs.get(b"user.k").unwrap(), b"v");
    }

    // One that shrinks to a small file is inline again.
    host.truncate(&mut again, "/big", 4);
    host.commit(&mut again).unwrap();
    let mut last = host.mount("vb");
    assert_eq!(host.read_file(&mut last, "/big").unwrap(), b"\x07\x07\x07a");
    assert_eq!(node(&last.image, "/big").meta().mode, 0o755);
}

/// Only content and modification time change with a file's size.
#[test]
fn truncation_keeps_metadata() {
    let mut host = Host::new();
    let mut vol = host.mount("vt");
    vol.write_file("/f", 0, b"abcdef".to_vec());
    vol.mutate(own("/f"));
    vol.mutate(tag("/f"));
    host.truncate(&mut vol, "/f", 2);
    host.truncate(&mut vol, "/new", 3);
    host.commit(&mut vol).unwrap();
    let mut again = host.mount("vt");
    for v in [&mut vol, &mut again] {
        assert_eq!(host.read_file(v, "/f").unwrap(), b"ab");
        assert_eq!(host.read_file(v, "/new").unwrap(), b"\0\0\0");
        let meta = node(&v.image, "/f").meta();
        assert_eq!((meta.mode, meta.uid, meta.gid), (0o755, 1000, 1000));
        assert_eq!(meta.xattrs.get(b"user.k").unwrap(), b"v");
        assert_eq!(node(&v.image, "/new").meta().mode, 0o644);
    }
    // A directory makes way for a new file, with all that is in it.
    vol.mutate(Delta::Mkdir { path: "/d".into() });
    vol.mutate(write("/d/x", "1"));
    host.truncate(&mut vol, "/d", 1);
    assert_eq!(paths(&vol.image), ["/d", "/f", "/new"]);
}

/// The image after a commit is what a mount gives, whatever was written over
/// what.
#[test]
fn the_image_is_what_a_mount_gives() {
    let mut host = Host::new();
    let mut vol = host.mount("vi");
    vol.mutate(Delta::Mkdir { path: "/d".into() });
    vol.mutate(own("/d"));
    vol.mutate(Delta::Symlink { path: "/l".into(), target: "d".into() });
    vol.write_file("/d", 0, vec![1u8; 1_100_000]);
    vol.write_file("/l", 0, vec![2u8; 1_100_000]);
    host.commit(&mut vol).unwrap();
    let again = host.mount("vi");
    assert_eq!(paths(&again.image), paths(&vol.image));
    for path in paths(&vol.image) {
        let (a, b) = (node(&vol.image, &path), node(&again.image, &path));
        assert!(matches!(a, Node::File { content: Content::Blocks { .. }, .. }));
        assert!(matches!(b, Node::File { content: Content::Blocks { .. }, .. }));
        assert_eq!((a.meta().mode, a.meta().uid), (0o644, 0));
        assert_eq!((b.meta().mode, b.meta().uid), (0o644, 0));
    }
}

/// A rewrite that keeps the length and the modification time is mirrored.
#[test]
fn mirror_follows_rewrites_of_equal_length() {
    let mut host = Host::new();
    let mut vol = host.mount("rootfs");
    let mut big = vec![1u8; 1_200_000];
    vol.write_file("/a", 0, b"old".to_vec());
    vol.write_file("/keep", 0, b"same".to_vec());
    vol.write_file("/big", 0, big.clone());
    host.commit(&mut vol).unwrap();
    let mut replica = Replica::new("rootfs".to_string());
    host.sync(&mut replica, "rootfs").unwrap();
    let (mut disk, mut state) = (Disk::new(), MirrorState::new());
    disk.pass(&host, &mut state, &mut replica);
    assert_eq!(disk.bytes("a"), b"old");
    let keep = disk.entries["keep"].clone();

    host.write_file(&mut vol, "/a", 0, b"new");
    host.write_file(&mut vol, "/big", 5, &[2]);
    big[5] = 2;
    host.commit(&mut vol).unwrap();
    host.sync(&mut replica, "rootfs").unwrap();
    disk.pass(&host, &mut state, &mut replica);
    assert_eq!(disk.bytes("a"), b"new");
    assert_eq!(disk.bytes("big"), big);
    assert_eq!(disk.entries["keep"], keep);

    // An empty file and a directory are not taken for each other.
    let mut image = FsImage::new();
    image.apply(&write("/e", ""));
    image.apply(&Delta::SetAttr {
        path: "/e".into(),
        mode: Some(0o755),
        uid: None,
        gid: None,
        mtime_ms: Some(5),
    });
    let mut dirs = FsImage::new();
    dirs.apply(&Delta::Mkdir { path: "/e".into() });
    dirs.apply(&Delta::SetAttr {
        path: "/e".into(),
        mode: Some(0o755),
        uid: None,
        gid: None,
        mtime_ms: Some(5),
    });
    state.wrote("/e", node(&image, "/e"));
    assert!(state.needs_write("/e", node(&dirs, "/e"), true));
}

/// A rename onto a free place, and back, restores the image.
#[test]
fn a_rename_there_and_back_restores_the_image() {
    let mut image = FsImage::new();
    image.apply(&Delta::Mkdir { path: "/a".into() });
    image.apply(&write("/a/x", "1"));
    image.apply(&write("/a/sub/y", "2"));
    image.apply(&write("/ab", "3"));
    image.apply(&own("/a/x"));
    let before = format!("{image:?}");
    image.apply(&Delta::Rename { from: "/a".into(), to: "/t".into() });
    assert_eq!(paths(&image), ["/ab", "/t", "/t/sub/y", "/t/x"]);
    image.apply(&Delta::Rename { from: "/t".into(), to: "/a".into() });
    assert_eq!(format!("{image:?}"), before);
}

/// What a rename crosses is committed as it was written, so that later writes
/// land in the stream as they do in the image.
#[test]
fn writes_land_alike_round_renames() {
    let mut host = Host::new();
    let mut vol = host.mount("vr");
    let mut big = vec![9u8; 1_200_000];
    vol.write_file("/b/a", 0, big.clone());
    vol.mutate(write("/c", "x"));
    vol.mutate(Delta::Rename { from: "/c".into(), to: "/b".into() });
    host.commit(&mut vol).unwrap();
    assert!(vol.pending.is_empty());
    host.write_file(&mut vol, "/b/a", 3, b"abc");
    big[3..6].copy_from_slice(b"abc");
    vol.mutate(Delta::Rename { from: "/b/a".into(), to: "/z".into() });
    host.commit(&mut vol).unwrap();
    let mut again = host.mount("vr");
    assert_eq!(paths(&vol.image), ["/b", "/z"]);
    assert_eq!(paths(&again.image), ["/b", "/z"]);
    assert_eq!(host.read_file(&mut vol, "/z").unwrap(), big);
    assert_eq!(host.read_file(&mut again, "/z").unwrap(), big);
}

fn is_blocks(image: &FsImage, path: &str) -> bool {
    matches!(node(image, path), Node::File { content: Content::Blocks { .. }, .. })
}

/// A large file moves to blocks wherever the batch took it.
#[test]
fn large_files_move_to_blocks_through_renames() {
    let mut host = Host::new();
    let mut vol = host.mount("vm");
    vol.mutate(Delta::Mkdir { path: "/d".into() });
    host.write_file(&mut vol, "/d/f", 0, &vec![1u8; 1_200_000]);
    vol.mutate(Delta::Rename { from: "/d".into(), to: "/e".into() });
    host.write_file(&mut vol, "/e/f", 0, b"new");
    host.write_file(&mut vol, "/d/f", 0, &vec![2u8; 1_100_000]);
    let staged = vol.stage_commit();
    // A directory, two large files, a rename: the extent on the moved file is
    // covered.
    assert_eq!(staged.upgraded.len(), 4);
    host.commit(&mut vol).unwrap();
    let mut again = host.mount("vm");
    for v in [&mut vol, &mut again] {
        assert!(is_blocks(&v.image, "/e/f") && is_blocks(&v.image, "/d/f"));
        let moved = host.read_file(v, "/e/f").unwrap();
        assert_eq!((&moved[..4], moved.len()), (&b"new\x01"[..], 1_200_000));
        assert_eq!(host.read_file(v, "/d/f").unwrap(), vec![2u8; 1_100_000]);
    }

    // One that something was renamed onto is moved where it stands.
    let mut vol = again;
    let small = vec![3u8; 600_000];
    host.write_file(&mut vol, "/t/x", 0, &small);
    vol.mutate(write("/u", "u"));
    vol.mutate(Delta::Rename { from: "/u".into(), to: "/t".into() });
    host.write_file(&mut vol, "/t/x", 600_000, &small);
    host.commit(&mut vol).unwrap();
    let mut again = host.mount("vm");
    for v in [&mut vol, &mut again] {
        assert!(is_blocks(&v.image, "/t/x"));
        assert_eq!(host.read_file(v, "/t/x").unwrap(), vec![3u8; 1_200_000]);
    }
}

/// Content that comes as blocks keeps the metadata of whatever stood there.
#[test]
fn blocks_keep_the_metadata_of_what_they_replace() {
    let mut image = FsImage::new();
    image.apply(&Delta::Mkdir { path: "/d".into() });
    image.apply(&own("/d"));
    image.apply(&Delta::Write {
        path: "/d".into(),
        offset: 0,
        data: Data::Blocks(vec![slog::fuse::BlockRef { hash: "h".into(), len: 6 }]),
    });
    let meta = node(&image, "/d").meta();
    assert_eq!((meta.mode, meta.uid, meta.gid), (0o755, 1000, 1000));
    image.apply(&Delta::Mkdir { path: "/e".into() });
    image.apply(&own("/e"));
    image.apply(&write("/e", "x"));
    let meta = node(&image, "/e").meta();
    assert_eq!((meta.mode, meta.uid, meta.gid), (0o644, 0, 0));
}

/// A range read is the part of a whole read.
#[test]
fn ranges_are_parts_of_the_whole() {
    let mut host = Host::new();
    let mut vol = host.mount("vp");
    let data: Vec<u8> = (0..1_300_000u32).map(|i| (i / 7) as u8).collect();
    host.write_file(&mut vol, "/big", 0, &data);
    host.write_file(&mut vol, "/small", 0, &data[..100]);
    host.commit(&mut vol).unwrap();
    for (path, whole) in [("/big", &data[..]), ("/small", &data[..100])] {
        for (offset, len) in [(0, 10), (90, 40), (1_048_570, 20), (1_299_990, 50), (2_000_000, 5)] {
            let end = (offset + len).min(whole.len());
            let want = &whole[offset.min(end)..end];
            let got = host.read_range(&mut vol, path, offset as u64, len as u64).unwrap();
            assert_eq!(got, want, "{path} {offset} {len}");
        }
    }
    assert!(vol.read_file_range("/none", 0, 1).is_none());
}
