//! SQLite WAL parsing: committed transactions as page post-images.
//!
//! A WAL is a 32-byte header followed by fixed-size frames of
//! `24-byte header + page_size bytes`. A transaction is a run of frames ending
//! at a commit frame (one whose `db_size` field is non-zero); frames after the
//! last commit frame are an uncommitted tail that SQLite may overwrite, so
//! they are never consumed. Frame salts must match the header to be valid.
use vstd::prelude::*;

use crate::digits::be_value;
use crate::order::copy_of;
use crate::sqlite::store::frames_of;
use crate::sqlite::{Delta, DeltaView, Frame, FrameView};
use crate::table::views;

verus! {

pub const HEADER_LEN: usize = 32;

pub const FRAME_HEADER_LEN: usize = 24;

/// Read position within one WAL generation. Salts identify the generation:
/// after a truncating checkpoint the WAL restarts with new salts, and any
/// cursor from the old generation is obsolete (it was fully captured first).
#[derive(Debug, Clone, Copy, PartialEq, Eq, Structural)]
pub struct WalCursor {
    pub salt1: u32,
    pub salt2: u32,
    /// Next frame index to read (0-based within this generation). Points at
    /// the first frame after the last commit frame.
    pub frame: u64,
}

impl Default for WalCursor {
    fn default() -> (r: Self)
        ensures
            r == (WalCursor { salt1: 0, salt2: 0, frame: 0 }),
    {
        WalCursor { salt1: 0, salt2: 0, frame: 0 }
    }
}

#[derive(Debug, Clone, Copy, PartialEq, Eq, Structural)]
pub struct Header {
    pub page_size: u32,
    pub salt1: u32,
    pub salt2: u32,
}

/// The big-endian number in the four bytes at `at`.
pub open spec fn field(b: Seq<u8>, at: int) -> nat {
    be_value(b.subrange(at, at + 4))
}

/// The number in the first four bytes.
pub fn be32(b: &[u8]) -> (r: u32)
    requires
        b.len() >= 4,
    ensures
        r == field(b@, 0),
{
    proof {
        let s = b@.subrange(0, 4);
        reveal_with_fuel(be_value, 5);
        assert(s.drop_last().last() == s[2]);
        assert(s.drop_last().drop_last().last() == s[1]);
        assert(s.drop_last().drop_last().drop_last().last() == s[0]);
        assert(s.drop_last().drop_last().drop_last().drop_last().len() == 0);
    }
    ((b[0] as u32 * 256 + b[1] as u32) * 256 + b[2] as u32) * 256 + b[3] as u32
}

/// The four bytes at `at` as a number.
fn be32_at(b: &[u8], at: usize) -> (r: u32)
    requires
        at + 4 <= b.len(),
    ensures
        r == field(b@, at as int),
{
    let s = vstd::slice::slice_subrange(b, at, at + 4);
    assert(s@.subrange(0, 4) =~= b@.subrange(at as int, at + 4));
    be32(s)
}

pub open spec fn is_magic(n: nat) -> bool {
    n == 0x377f0682 || n == 0x377f0683
}

/// The header of a WAL, if `wal` starts with one.
pub open spec fn header_of(wal: Seq<u8>) -> Option<Header> {
    if wal.len() < HEADER_LEN || !is_magic(field(wal, 0)) {
        None
    } else {
        Some(
            Header {
                page_size: if field(wal, 8) == 1 {
                    65536
                } else {
                    field(wal, 8) as u32
                },
                salt1: field(wal, 16) as u32,
                salt2: field(wal, 20) as u32,
            },
        )
    }
}

/// Parses the 32-byte WAL header; `None` if the file is short or not a WAL
/// (e.g. before the first write, when the file is absent or empty).
pub fn header(wal: &[u8]) -> (r: Option<Header>)
    ensures
        r == header_of(wal@),
{
    if wal.len() < HEADER_LEN {
        return None;
    }
    let magic = be32_at(wal, 0);
    if magic != 0x377f0682 && magic != 0x377f0683 {
        return None;
    }
    // Page size 1 is the on-disk encoding of 65536.
    let n = be32_at(wal, 8);
    let page_size: u32 = if n == 1 {
        65536
    } else {
        n
    };
    Some(Header { page_size, salt1: be32_at(wal, 16), salt2: be32_at(wal, 20) })
}

/// Length of a frame.
pub open spec fn frame_len(h: Header) -> int {
    FRAME_HEADER_LEN + h.page_size
}

/// Where frame `index` starts.
pub open spec fn frame_at(h: Header, index: int) -> int {
    HEADER_LEN + index * frame_len(h)
}

/// Frame `index` as (pgno, db_size, data), if the file holds it whole and its
/// salts are the header's.
pub open spec fn frame_of(wal: Seq<u8>, h: Header, index: int) -> Option<(u32, u32, Seq<u8>)> {
    let off = frame_at(h, index);
    if off + frame_len(h) > wal.len() || field(wal, off + 8) != h.salt1 || field(wal, off + 12)
        != h.salt2 {
        None
    } else {
        Some(
            (
                field(wal, off) as u32,
                field(wal, off + 4) as u32,
                wal.subrange(off + FRAME_HEADER_LEN, off + frame_len(h)),
            ),
        )
    }
}

/// Frame `index` (0-based) as `(pgno, db_size, data)`; `db_size != 0` marks a
/// commit frame and gives the db size in pages after the transaction. `None`
/// past the end of the file or at a frame whose salts don't match the header
/// (stale tail from a prior generation).
pub fn frame<'a>(wal: &'a [u8], h: &Header, index: u64) -> (r: Option<(u32, u32, &'a [u8])>)
    ensures
        match r {
            Some((pgno, db_size, data)) => frame_of(wal@, *h, index as int) == Some(
                (pgno, db_size, data@),
            ),
            None => frame_of(wal@, *h, index as int) is None,
        },
{
    let len: u128 = 24 + h.page_size as u128;
    proof {
        assert(0 <= index as u128 * len <= 0x1_0000_0000_0000_0000 * 0x2_0000_0000)
            by (nonlinear_arith)
            requires
                0 <= index < 0x1_0000_0000_0000_0000,
                0 <= len < 0x2_0000_0000,
        ;
    }
    let off: u128 = 32 + index as u128 * len;
    assert(off == frame_at(*h, index as int));
    if off + len > wal.len() as u128 {
        return None;
    }
    let off: usize = off as usize;
    let len: usize = len as usize;
    if be32_at(wal, off + 8) != h.salt1 || be32_at(wal, off + 12) != h.salt2 {
        return None;
    }
    let data = vstd::slice::slice_subrange(wal, off + FRAME_HEADER_LEN, off + len);
    Some((be32_at(wal, off), be32_at(wal, off + 4), data))
}

/// The cursor that reading goes on from, given the header found in the file.
pub open spec fn resumed(c: WalCursor, h: Header) -> WalCursor {
    if c.salt1 == h.salt1 && c.salt2 == h.salt2 {
        c
    } else {
        WalCursor { salt1: h.salt1, salt2: h.salt2, frame: 0 }
    }
}

impl WalCursor {
    /// The cursor to read on from, given the header found in the file: a new
    /// generation starts over, since the old one was fully captured before.
    pub fn resume(self, h: &Header) -> (r: WalCursor)
        ensures
            r == resumed(self, *h),
    {
        if self.salt1 == h.salt1 && self.salt2 == h.salt2 {
            self
        } else {
            WalCursor { salt1: h.salt1, salt2: h.salt2, frame: 0 }
        }
    }

    /// Where in the file the unread frames start; `None` where no file reaches.
    pub fn file_offset(&self, h: &Header) -> (r: Option<u64>)
        ensures
            match r {
                Some(o) => o == frame_at(*h, self.frame as int),
                None => frame_at(*h, self.frame as int) > u64::MAX,
            },
    {
        let len: u128 = 24 + h.page_size as u128;
        let frame: u64 = self.frame;
        proof {
            assert(0 <= frame as u128 * len <= 0x1_0000_0000_0000_0000 * 0x2_0000_0000)
                by (nonlinear_arith)
                requires
                    0 <= frame < 0x1_0000_0000_0000_0000,
                    0 <= len < 0x2_0000_0000,
            ;
        }
        let off: u128 = 32 + frame as u128 * len;
        assert(off == frame_at(*h, self.frame as int));
        if off > u64::MAX as u128 {
            None
        } else {
            Some(off as u64)
        }
    }
}

/// The first `n` frames of a WAL, split into transactions: the committed ones
/// and the frames after the last commit.
pub struct Split {
    pub txs: Seq<DeltaView>,
    pub open: Seq<FrameView>,
}

/// The page image of frame `index`.
pub open spec fn image_of(wal: Seq<u8>, h: Header, index: int) -> FrameView {
    let f = frame_of(wal, h, index)->0;
    FrameView { pgno: f.0, data: f.2 }
}

/// The db size that frame `index` carries; 0 where it is no commit frame.
pub open spec fn size_of(wal: Seq<u8>, h: Header, index: int) -> u32 {
    let f = frame_of(wal, h, index)->0;
    f.1
}

/// Splits the first `n` frames at their commit frames, numbering transactions
/// from `txid + 1`.
pub open spec fn split(wal: Seq<u8>, h: Header, txid: u64, n: nat) -> Split
    decreases n,
{
    if n == 0 {
        Split { txs: Seq::empty(), open: Seq::empty() }
    } else {
        let s = split(wal, h, txid, (n - 1) as nat);
        let db_size = size_of(wal, h, n - 1);
        let pages = s.open.push(image_of(wal, h, n - 1));
        if db_size != 0 {
            Split {
                txs: s.txs.push(
                    DeltaView {
                        txid: (txid + s.txs.len() + 1) as u64,
                        page_size: h.page_size,
                        db_size,
                        pages,
                    },
                ),
                open: Seq::empty(),
            }
        } else {
            Split { txs: s.txs, open: pages }
        }
    }
}

/// `n` is the number of leading valid frames.
pub open spec fn valid_run(wal: Seq<u8>, h: Header, n: int) -> bool {
    &&& 0 <= n
    &&& forall|i: int| 0 <= i < n ==> (#[trigger] frame_of(wal, h, i)) is Some
    &&& frame_of(wal, h, n) is None
}

/// What a pass over the WAL found.
#[derive(Debug)]
pub struct Capture {
    /// The committed transactions, in order.
    pub deltas: Vec<Delta>,
    /// Number of frames that they cover.
    pub frames: u64,
}

/// Whether numbering the transactions of `wal` from `txid` on stays within 64
/// bits: there is at most one per byte.
pub open spec fn txids_fit(wal: Seq<u8>, txid: u64) -> bool {
    txid + wal.len() <= u64::MAX
}

/// Reads the committed transactions of `wal`, a header followed by frames: one
/// delta per transaction, numbered from `txid + 1`. The uncommitted tail is
/// left alone.
pub fn capture(wal: &[u8], h: &Header, txid: u64) -> (r: Capture)
    requires
        txids_fit(wal@, txid),
    ensures
        exists|n: int| #[trigger]
            valid_run(wal@, *h, n) && views(r.deltas@) == split(wal@, *h, txid, n as nat).txs
                && r.frames == n - split(wal@, *h, txid, n as nat).open.len(),
{
    let mut deltas: Vec<Delta> = Vec::new();
    let mut open: Vec<Frame> = Vec::new();
    let mut idx: u64 = 0;
    let mut covered: u64 = 0;
    let mut id: u64 = txid;
    let ghost w = wal@;
    assert(views(deltas@) =~= Seq::<DeltaView>::empty());
    assert(views(open@) =~= Seq::<FrameView>::empty());
    loop
        invariant
            w == wal@,
            txids_fit(w, txid),
            idx <= w.len(),
            forall|i: int| 0 <= i < idx ==> (#[trigger] frame_of(w, *h, i)) is Some,
            views(deltas@) == split(w, *h, txid, idx as nat).txs,
            views(open@) == split(w, *h, txid, idx as nat).open,
            covered == idx - open.len(),
            id == txid + deltas.len(),
            deltas.len() <= idx,
        decreases w.len() - idx,
    {
        let found = frame(wal, h, idx);
        match found {
            None => {
                assert(valid_run(w, *h, idx as int));
                return Capture { deltas, frames: covered };
            },
            Some((pgno, db_size, data)) => {
                proof {
                    assert(idx < w.len()) by {
                        assert(frame_at(*h, idx as int) >= idx) by (nonlinear_arith)
                            requires
                                frame_at(*h, idx as int) == 32 + idx * (24 + h.page_size),
                                idx >= 0,
                                h.page_size >= 0,
                        ;
                    }
                }
                let ghost before = views(open@);
                let ghost txs = views(deltas@);
                let f = Frame { pgno, data: copy_of(data) };
                let ghost fv = f@;
                open.push(f);
                assert(views(open@) =~= before.push(fv));
                assert(fv == image_of(w, *h, idx as int));
                idx = idx + 1;
                if db_size != 0 {
                    id = id + 1;
                    let mut pages: Vec<Frame> = Vec::new();
                    core::mem::swap(&mut pages, &mut open);
                    let d = Delta { txid: id, page_size: h.page_size, db_size, pages };
                    let ghost dv = d@;
                    deltas.push(d);
                    assert(views(deltas@) =~= txs.push(dv));
                    assert(views(open@) =~= Seq::<FrameView>::empty());
                    covered = idx;
                }
            },
        }
    }
}

/// Capture loses and invents nothing: the frames of the captured transactions,
/// followed by the uncommitted tail, are the frames of the WAL in order; each
/// transaction ends in a commit; transactions are numbered without gaps.
pub proof fn capture_is_exact(wal: Seq<u8>, h: Header, txid: u64, n: nat)
    requires
        txid + n <= u64::MAX,
    ensures
        ({
            let s = split(wal, h, txid, n);
            &&& frames_of(s.txs) + s.open == Seq::new(n, |i: int| image_of(wal, h, i))
            &&& s.txs.len() <= n
            &&& forall|i: int|
                0 <= i < s.txs.len() ==> (#[trigger] s.txs[i]).txid == txid + i + 1
                    && s.txs[i].page_size == h.page_size && s.txs[i].db_size != 0
                    && s.txs[i].pages.len() > 0
        }),
    decreases n,
{
    let s = split(wal, h, txid, n);
    if n == 0 {
        assert(frames_of(s.txs) + s.open =~= Seq::new(n, |i: int| image_of(wal, h, i)));
    } else {
        let m = (n - 1) as nat;
        capture_is_exact(wal, h, txid, m);
        let t = split(wal, h, txid, m);
        let f = image_of(wal, h, n - 1);
        let want = Seq::new(n, |i: int| image_of(wal, h, i));
        assert(want =~= Seq::new(m, |i: int| image_of(wal, h, i)).push(f));
        if size_of(wal, h, n - 1) != 0 {
            assert(s.txs.drop_last() =~= t.txs);
            assert(frames_of(s.txs) + s.open =~= want);
        } else {
            assert(frames_of(s.txs) + s.open =~= want);
        }
    }
}

} // verus!
