//! The filesystem operations on an image in memory.

use sha2::{Digest, Sha256};
use slog::fuse::checkpoint::{seal_at, DeltaImage};
use slog::fuse::fs::{
    attr_of, children, join, nlink_of, parent_path, perm_bits, ts, ts_ms, Errno, FileType, State,
};
use slog::fuse::ops::{
    flush_deltas, needs_content, setattr_delta, CreateStep, LandslideFs, SetTime, XattrReply,
};
use slog::fuse::store::{load_segments, read_content, Blocks, ReadStep, Volume};
use slog::fuse::{
    is_applicable, BlockRef, Content, Data, Delta, Entry, FsImage, Node, Segment,
};
use slog::table::{Dup, Table};

fn write_at(path: &str, offset: u64, text: &str) -> Delta {
    Delta::Write { path: path.into(), offset, data: Data::Inline(text.as_bytes().to_vec()) }
}

fn image(deltas: &[Delta]) -> FsImage {
    let mut img = FsImage::new();
    for d in deltas {
        img.apply_at(d, 7);
    }
    img
}

fn bytes<'a>(img: &'a FsImage, path: &str) -> &'a [u8] {
    match img.nodes.get(path.as_bytes()) {
        Some(Node::File { content: Content::Inline(b), .. }) => b,
        other => panic!("{other:?}"),
    }
}

fn paths(img: &FsImage) -> Vec<String> {
    (0..img.nodes.len()).map(|i| img.nodes.key_at(i).clone()).collect()
}

fn same(a: &FsImage, b: &FsImage) {
    assert_eq!(format!("{:?}", a.nodes), format!("{:?}", b.nodes));
}

#[test]
fn deltas_fold_into_an_image() {
    let mut img = image(&[
        Delta::Mkdir { path: "/d".into() },
        write_at("/d/f", 2, "cd"),
        write_at("/d/f", 0, "ab"),
        Delta::Symlink { path: "/l".into(), target: "d".into() },
    ]);
    assert_eq!(bytes(&img, "/d/f"), b"abcd");
    assert_eq!(img.nodes.get(b"/d/f").unwrap().meta().mode, 0o644);
    assert_eq!(img.nodes.get(b"/d").unwrap().meta().mode, 0o755);
    assert_eq!(img.nodes.get(b"/l").unwrap().meta().mode, 0o777);
    assert_eq!(img.nodes.get(b"/d").unwrap().meta().mtime_ms, 7);
    img.apply_at(&Delta::Rename { from: "/d".into(), to: "/e".into() }, 8);
    assert_eq!(paths(&img), ["/e", "/e/f", "/l"]);
    img.apply_at(&Delta::Remove { path: "/e".into() }, 9);
    assert_eq!(paths(&img), ["/l"]);
}

#[test]
fn a_block_write_replaces_the_content() {
    let blocks = vec![
        BlockRef { hash: "h1".into(), len: 4 },
        BlockRef { hash: "h2".into(), len: 3 },
    ];
    let d = Delta::Write { path: "/f".into(), offset: 0, data: Data::Blocks(blocks) };
    assert!(is_applicable(&d));
    let img = image(&[write_at("/f", 0, "old"), d]);
    let Some(Node::File { content, .. }) = img.nodes.get(b"/f") else { panic!() };
    assert_eq!(content.len(), 7);

    // A read fetches only the blocks it overlaps.
    let mut cache: Blocks = Table::new();
    let ReadStep::Fetch(h) = read_content(&cache, content, 5, 10) else { panic!() };
    assert_eq!(h, "h2");
    cache.insert(h, b"567".to_vec());
    let ReadStep::Done(b) = read_content(&cache, content, 5, 10) else { panic!() };
    assert_eq!(b, b"67");
    let ReadStep::Fetch(h) = read_content(&cache, content, 3, 2) else { panic!() };
    assert_eq!(h, "h1");
    cache.insert(h, b"1234".to_vec());
    let ReadStep::Done(b) = read_content(&cache, content, 3, 2) else { panic!() };
    assert_eq!(b, b"45");
    let ReadStep::Done(b) = read_content(&cache, content, 9, 2) else { panic!() };
    assert!(b.is_empty());

    let big = BlockRef { hash: "h".into(), len: u64::MAX };
    let more = BlockRef { hash: "h".into(), len: 1 };
    let d = Delta::Write { path: "/f".into(), offset: 0, data: Data::Blocks(vec![big, more]) };
    assert!(!is_applicable(&d));
    let Delta::Write { data: Data::Blocks(blocks), .. } = d else { panic!() };
    let content = Content::Blocks { blocks, size: 0 };
    assert!(!content.is_sized());
    let mut entries = Table::new();
    let meta = slog::fuse::NodeMeta::file();
    entries.insert("/f".to_string(), Entry(Some(Node::File { content, meta })));
    assert!(!Segment { entries }.is_sized());
    assert!(Segment { entries: Table::new() }.is_sized());
}

#[test]
fn blocks_are_named_by_their_sha256() {
    let mut vol =
        Volume::mount("v".into(), "t".into(), Vec::new(), &Vec::new(), None, None);
    let data: Vec<u8> = (0..1_500_000u32).map(|i| (i % 251) as u8).collect();
    vol.write_file("/big", 0, data.clone());
    vol.write_file("/small", 0, b"s".to_vec());
    let staged = vol.stage_commit();
    let cut: Vec<&[u8]> = data.chunks(1 << 20).collect();
    assert_eq!(staged.uploads.len(), 2);
    for ((hash, block), piece) in staged.uploads.iter().zip(cut) {
        assert_eq!(block, piece);
        let expected: String =
            Sha256::digest(piece).iter().map(|b| format!("{b:02x}")).collect();
        assert_eq!(hash, &expected);
    }
    assert_eq!(staged.upgraded.len(), 2);
    assert!(matches!(&staged.upgraded[0], Delta::Write { data: Data::Blocks(b), .. } if b.len() == 2));
    assert!(matches!(&staged.upgraded[1], Delta::Write { data: Data::Inline(_), .. }));
}

#[test]
fn a_sealed_segment_stands_for_its_deltas() {
    let base = [
        Delta::Mkdir { path: "/d".into() },
        write_at("/d/a", 0, "1"),
        write_at("/gone", 0, "2"),
    ];
    let next = vec![
        Delta::Rename { from: "/d".into(), to: "/e".into() },
        Delta::Remove { path: "/gone".into() },
        write_at("/e/a", 1, "23"),
    ];
    let start = image(&base);
    let (first, _) = seal_at(FsImage::new(), &base.iter().map(|d| d.dup()).collect(), &vec![7; 3]);
    let (second, sealed) = seal_at(start.dup(), &next, &vec![9; 3]);
    let mut replayed = start;
    replayed.replay_at(&next, &vec![9; 3]);
    same(&sealed, &replayed);
    assert!(second.entries.get(b"/gone").unwrap().0.is_none());
    same(&load_segments(vec![first, second]), &replayed);

    let mut over = DeltaImage::over(image(&base));
    over.apply_at(&next[0], 9);
    assert_eq!(over.descendants(b"/e/"), ["/e/a"]);
}

#[test]
fn paths_and_attributes() {
    assert_eq!(join("/", "a"), "/a");
    assert_eq!(join("/a", "b"), "/a/b");
    assert_eq!(parent_path("/a"), "/");
    assert_eq!(parent_path("/a/b"), "/a");
    assert_eq!(perm_bits(0o100644), 0o644);
    assert_eq!(ts(-5), 0);
    assert_eq!(ts(1500), 1500);
    assert_eq!(ts_ms(Some(12)), 12);
    assert_eq!(ts_ms(None), 0);

    let img = image(&[
        Delta::Mkdir { path: "/d".into() },
        Delta::Mkdir { path: "/d/sub".into() },
        write_at("/d/f", 0, "hello"),
        write_at("/x/implicit", 0, "i"),
    ]);
    let names: Vec<(String, FileType)> = children(&img, "/d");
    assert_eq!(
        names,
        [("f".to_string(), FileType::RegularFile), ("sub".to_string(), FileType::Directory)]
    );
    assert_eq!(nlink_of(&img, "/d", FileType::Directory), 3);
    assert_eq!(nlink_of(&img, "/d/f", FileType::RegularFile), 1);
    let attr = attr_of(&img, 5, "/d/f").unwrap();
    assert_eq!((attr.ino, attr.size, attr.blocks, attr.perm), (5, 5, 1, 0o644));
    assert_eq!((attr.kind, attr.nlink, attr.time_ms), (FileType::RegularFile, 1, 7));
    assert!(attr_of(&img, 5, "/nothing").is_none());
    assert_eq!(attr_of(&img, 1, "/").unwrap().kind, FileType::Directory);
}

#[test]
fn renames_keep_inodes() {
    let mut state = State::new();
    assert_eq!(state.ino("/"), 1);
    let d = state.ino("/d");
    let f = state.ino("/d/f");
    let other = state.ino("/e");
    assert_eq!(state.ino("/d"), d);
    state.rename_subtree("/d", "/e");
    assert_eq!(state.path_of(d).unwrap(), "/e");
    assert_eq!(state.path_of(f).unwrap(), "/e/f");
    assert_eq!(state.ino("/e"), d);
    assert_eq!(state.ino("/e/f"), f);
    assert_ne!(d, other);
    assert!(state.path_of(99).is_none());
}

/// Applies an operation's deltas.
fn land(img: &mut FsImage, deltas: Vec<Delta>) {
    for d in deltas {
        img.apply_at(&d, 11);
    }
}

#[test]
fn a_file_is_created_written_and_flushed() {
    let mut fs = LandslideFs::new(true);
    let mut img = FsImage::new();
    let CreateStep::New(path, deltas) =
        fs.create(&img, 1, Some("f"), 0o666, 0o022, 10, 20).unwrap()
    else {
        panic!()
    };
    assert_eq!(path, "/f");
    land(&mut img, deltas);
    let (attr, fh) = fs.created(&img, &path, 0, 0o666, 0o022, 10, 20, 11);
    assert_eq!((attr.perm, attr.uid, attr.gid, attr.size), (0o644, 10, 20, 0));
    assert!(matches!(
        fs.create(&img, 1, Some("f"), 0o666, 0, 0, 0).unwrap(),
        CreateStep::Existing(_)
    ));

    assert_eq!(fs.write(fh, 2, b"cd".to_vec()).unwrap(), 2);
    assert_eq!(fs.write(fh, 0, b"ab".to_vec()).unwrap(), 2);
    assert_eq!(fs.write(99, 0, b"x".to_vec()).unwrap_err(), Errno::EBADF);
    // Staged extents overlay what a read on the handle fetched.
    assert_eq!(fs.read(fh, 0, b"-----".to_vec()), b"abcd-");
    assert_eq!(fs.read(fh, 1, b"--".to_vec()), b"bc");
    assert_eq!(fs.read(fh, 6, b"-".to_vec()), b"-");
    assert_eq!(fs.read(99, 0, b"-".to_vec()), b"-");

    let (path, extents) = fs.take_extents(fh).unwrap();
    assert!(!needs_content(&img, &path));
    let deltas = flush_deltas(&img, &path, extents, Vec::new(), 12);
    land(&mut img, deltas);
    assert_eq!(bytes(&img, "/f"), b"abcd");
    assert_eq!(img.nodes.get(b"/f").unwrap().meta().mtime_ms, 12);
    assert!(fs.take_extents(fh).is_none());
    fs.release(fh);
    assert_eq!(fs.lookup(&img, 1, Some("f")).unwrap().size, 4);
    assert_eq!(fs.getattr(&img, attr.ino).unwrap().size, 4);
}

#[test]
fn a_flush_onto_blocks_keeps_the_rest_of_the_file() {
    let mut img = image(&[
        Delta::Write {
            path: "/f".into(),
            offset: 0,
            data: Data::Blocks(vec![BlockRef { hash: "h".into(), len: 6 }]),
        },
        Delta::SetXattr { path: "/f".into(), name: "user.k".into(), value: Some(b"v".to_vec()) },
        Delta::SetAttr {
            path: "/f".into(),
            mode: Some(0o600),
            uid: Some(1),
            gid: Some(2),
            mtime_ms: None,
        },
    ]);
    assert!(needs_content(&img, "/f"));
    let deltas =
        flush_deltas(&img, "/f", vec![(4, b"XYZ".to_vec())], b"abcdef".to_vec(), 12);
    land(&mut img, deltas);
    assert_eq!(bytes(&img, "/f"), b"abcdXYZ");
    let meta = img.nodes.get(b"/f").unwrap().meta();
    assert_eq!((meta.mode, meta.uid, meta.gid, meta.mtime_ms), (0o600, 1, 2, 12));
    assert_eq!(meta.xattrs.get(b"user.k").unwrap(), b"v");
}

#[test]
fn truncation_clips_staged_extents() {
    let mut fs = LandslideFs::new(true);
    let img = image(&[write_at("/f", 0, "abc")]);
    let ino = fs.lookup(&img, 1, Some("f")).unwrap().ino;
    let fh = fs.open(&img, ino).unwrap();
    fs.write(fh, 1, b"12345".to_vec()).unwrap();
    fs.write(fh, 8, b"9".to_vec()).unwrap();
    assert_eq!(fs.setattr_target(&img, ino, Some(3)).unwrap(), "/f");
    fs.clip_handles(ino, 3);
    let (_, extents) = fs.take_extents(fh).unwrap();
    assert_eq!(extents, [(1, b"12".to_vec())]);
    let d = setattr_delta("/f", Some(0o10755), None, None, None, true, 33).unwrap();
    assert!(matches!(
        d,
        Delta::SetAttr { mode: Some(0o755), mtime_ms: Some(33), uid: None, gid: None, .. }
    ));
    let d = setattr_delta("/f", None, Some(4), None, Some(SetTime::At(Some(5))), false, 33);
    assert!(matches!(d.unwrap(), Delta::SetAttr { mtime_ms: Some(5), uid: Some(4), .. }));
    assert!(setattr_delta("/f", None, None, None, None, false, 33).is_none());
}

#[test]
fn directories_are_made_listed_and_removed() {
    let mut fs = LandslideFs::new(true);
    let mut img = FsImage::new();
    let (path, deltas) = fs.mkdir(&img, 1, Some("d"), 0o777, 0o022, 0, 0).unwrap();
    land(&mut img, deltas);
    let dir = fs.entry(&img, &path).unwrap();
    assert_eq!((dir.kind, dir.perm), (FileType::Directory, 0o755));
    assert_eq!(fs.mkdir(&img, 1, Some("d"), 0o777, 0, 0, 0).unwrap_err(), Errno::EEXIST);

    let (_, deltas) = fs.symlink(&img, dir.ino, Some("l"), Some("../x"), 0, 0).unwrap();
    land(&mut img, deltas);
    let link = fs.lookup(&img, dir.ino, Some("l")).unwrap();
    assert_eq!(fs.readlink(&img, link.ino).unwrap(), "../x");
    assert_eq!(fs.readlink(&img, dir.ino).unwrap_err(), Errno::EINVAL);

    let names: Vec<String> =
        fs.readdir(&img, dir.ino, 0).unwrap().into_iter().map(|e| e.name).collect();
    assert_eq!(names, [".", "..", "l"]);
    let rest: Vec<String> =
        fs.readdir(&img, dir.ino, 2).unwrap().into_iter().map(|e| e.name).collect();
    assert_eq!(rest, ["l"]);

    assert_eq!(fs.rmdir(&img, 1, Some("d")).unwrap_err(), Errno::ENOTEMPTY);
    assert_eq!(fs.unlink(&img, 1, Some("d")).unwrap_err(), Errno::EISDIR);
    let (_, deltas) = fs.unlink(&img, dir.ino, Some("l")).unwrap();
    land(&mut img, deltas);
    let (_, deltas) = fs.rmdir(&img, 1, Some("d")).unwrap();
    land(&mut img, deltas);
    assert!(paths(&img).is_empty());
    assert_eq!(fs.lookup(&img, 1, Some("d")).unwrap_err(), Errno::ENOENT);
    assert_eq!(fs.link().unwrap_err(), Errno::ENOSYS);
}

#[test]
fn renames_follow_the_image_and_the_inodes() {
    let mut fs = LandslideFs::new(true);
    let mut img = image(&[Delta::Mkdir { path: "/d".into() }, write_at("/d/f", 0, "x")]);
    let d = fs.lookup(&img, 1, Some("d")).unwrap().ino;
    let f = fs.lookup(&img, d, Some("f")).unwrap().ino;
    let (from, to) = fs.rename(&img, 1, Some("d"), 1, Some("e"), false).unwrap();
    land(&mut img, vec![Delta::Rename { from: from.clone(), to: to.clone() }]);
    fs.renamed(&from, &to);
    assert_eq!(fs.lookup(&img, 1, Some("e")).unwrap().ino, d);
    assert_eq!(fs.getattr(&img, f).unwrap().size, 1);
    land(&mut img, vec![Delta::Mkdir { path: "/m".into() }, write_at("/g", 0, "g")]);
    assert_eq!(fs.rename(&img, 1, Some("g"), 1, Some("m"), false).unwrap_err(), Errno::EISDIR);
    assert_eq!(fs.rename(&img, 1, Some("m"), 1, Some("g"), false).unwrap_err(), Errno::ENOTDIR);
    assert_eq!(fs.rename(&img, 1, Some("m"), 1, Some("e"), false).unwrap_err(), Errno::ENOTEMPTY);
    assert!(fs.rename(&img, 1, Some("e"), 1, Some("m"), false).is_ok());
    assert_eq!(fs.rename(&img, 1, Some("e"), 1, Some("z"), true).unwrap_err(), Errno::EINVAL);
    assert_eq!(fs.rename(&img, 1, Some("no"), 1, Some("z"), false).unwrap_err(), Errno::ENOENT);
}

#[test]
fn extended_attributes() {
    let mut fs = LandslideFs::new(true);
    let mut img = image(&[write_at("/f", 0, "x")]);
    let ino = fs.lookup(&img, 1, Some("f")).unwrap().ino;
    let (_, deltas) = fs.setxattr(&img, ino, Some("user.a"), b"12".to_vec()).unwrap();
    land(&mut img, deltas);
    let (_, deltas) = fs.setxattr(&img, ino, Some("user.b"), Vec::new()).unwrap();
    land(&mut img, deltas);
    assert!(matches!(fs.getxattr(&img, ino, Some("user.a"), 0).unwrap(), XattrReply::Size(2)));
    match fs.getxattr(&img, ino, Some("user.a"), 2).unwrap() {
        XattrReply::Data(b) => assert_eq!(b, b"12"),
        other => panic!("{other:?}"),
    }
    assert_eq!(fs.getxattr(&img, ino, Some("user.a"), 1).unwrap_err(), Errno::ERANGE);
    assert_eq!(fs.getxattr(&img, ino, Some("user.c"), 9).unwrap_err(), Errno::NoXattr);
    match fs.listxattr(&img, ino, 100).unwrap() {
        XattrReply::Data(b) => assert_eq!(b, b"user.a\0user.b\0"),
        other => panic!("{other:?}"),
    }
    let (_, deltas) = fs.removexattr(&img, ino, Some("user.a")).unwrap();
    land(&mut img, deltas);
    assert_eq!(fs.removexattr(&img, ino, Some("user.a")).unwrap_err(), Errno::NoXattr);
}

#[test]
fn a_replica_mount_is_read_only() {
    let fs = LandslideFs::new(false);
    assert_eq!(fs.check_writable().unwrap_err(), Errno::EROFS);
    assert!(LandslideFs::new(true).check_writable().is_ok());
}
