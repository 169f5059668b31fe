//! What a pass over a write-ahead log captures.
use vstd::prelude::*;

use crate::digits::be_value;
use crate::sqlite::FrameView;
use crate::sqlite::store::frames_of;
use crate::sqlite::wal::{
    capture_is_exact, field, frame_at, frame_of, header_of, image_of, resumed, size_of, split,
    valid_run, Header, WalCursor,
};

verus! {

/// A field is the big-endian number in its four bytes.
pub proof fn field_is_big_endian(b: Seq<u8>, at: int)
    requires
        0 <= at,
        at + 4 <= b.len(),
    ensures
        field(b, at) == b[at] * 0x100_0000 + b[at + 1] * 0x1_0000 + b[at + 2] * 0x100 + b[at + 3],
        field(b, at) <= u32::MAX,
{
    let s = b.subrange(at, at + 4);
    reveal_with_fuel(be_value, 5);
    assert(s.drop_last().last() == s[2]);
    assert(s.drop_last().drop_last().last() == s[1]);
    assert(s.drop_last().drop_last().drop_last().last() == s[0]);
    assert(s.drop_last().drop_last().drop_last().drop_last().len() == 0);
}

/// The header of a log: the magic number in the first four bytes says whether
/// there is one; bytes 8 to 12 give the page size, where 1 stands for 65536,
/// and bytes 16 to 24 the two salts.
pub proof fn header_fields(wal: Seq<u8>)
    ensures
        wal.len() < 32 ==> header_of(wal) is None,
        wal.len() >= 32 ==> ({
            let magic = wal[0] * 0x100_0000 + wal[1] * 0x1_0000 + wal[2] * 0x100 + wal[3];
            let size = wal[8] * 0x100_0000 + wal[9] * 0x1_0000 + wal[10] * 0x100 + wal[11];
            let salt1 = wal[16] * 0x100_0000 + wal[17] * 0x1_0000 + wal[18] * 0x100 + wal[19];
            let salt2 = wal[20] * 0x100_0000 + wal[21] * 0x1_0000 + wal[22] * 0x100 + wal[23];
            &&& header_of(wal) is Some <==> magic == 0x377f0682 || magic == 0x377f0683
            &&& header_of(wal) is Some ==> {
                &&& header_of(wal)->0.page_size == if size == 1 {
                    0x1_0000
                } else {
                    size
                }
                &&& header_of(wal)->0.salt1 == salt1
                &&& header_of(wal)->0.salt2 == salt2
            }
        }),
{
    if wal.len() >= 32 {
        field_is_big_endian(wal, 0);
        field_is_big_endian(wal, 8);
        field_is_big_endian(wal, 16);
        field_is_big_endian(wal, 20);
    }
}

/// A frame is 24 bytes of header and one page. It counts exactly if the file
/// holds all of it and both salts in it are the log's. It then gives the page's
/// number, the size that it commits, and the page's bytes.
pub proof fn frame_fields(wal: Seq<u8>, h: Header, index: int)
    requires
        0 <= index,
    ensures
        ({
            let at = 32 + index * (24 + h.page_size);
            &&& wal.len() < at + 24 + h.page_size ==> frame_of(wal, h, index) is None
            &&& wal.len() >= at + 24 + h.page_size ==> {
                let pgno = wal[at] * 0x100_0000 + wal[at + 1] * 0x1_0000 + wal[at + 2] * 0x100
                    + wal[at + 3];
                let size = wal[at + 4] * 0x100_0000 + wal[at + 5] * 0x1_0000 + wal[at + 6] * 0x100
                    + wal[at + 7];
                let salt1 = wal[at + 8] * 0x100_0000 + wal[at + 9] * 0x1_0000 + wal[at + 10] * 0x100
                    + wal[at + 11];
                let salt2 = wal[at + 12] * 0x100_0000 + wal[at + 13] * 0x1_0000 + wal[at + 14]
                    * 0x100 + wal[at + 15];
                &&& frame_of(wal, h, index) is Some <==> salt1 == h.salt1 && salt2 == h.salt2
                &&& frame_of(wal, h, index) is Some ==> {
                    &&& image_of(wal, h, index).pgno == pgno
                    &&& size_of(wal, h, index) == size
                    &&& image_of(wal, h, index).data == wal.subrange(
                        at + 24,
                        at + 24 + h.page_size,
                    )
                }
            }
        }),
{
    let at = 32 + index * (24 + h.page_size);
    assert(0 <= index * (24 + h.page_size)) by (nonlinear_arith)
        requires
            0 <= index,
            0 <= h.page_size,
    ;
    if wal.len() >= at + 24 + h.page_size {
        field_is_big_endian(wal, at);
        field_is_big_endian(wal, at + 4);
        field_is_big_endian(wal, at + 8);
        field_is_big_endian(wal, at + 12);
    }
}

proof fn counts(wal: Seq<u8>, h: Header, txid: u64, n: nat)
    requires
        txid + n <= u64::MAX,
    ensures
        frames_of(split(wal, h, txid, n).txs).len() + split(wal, h, txid, n).open.len() == n,
{
    capture_is_exact(wal, h, txid, n);
    let s = split(wal, h, txid, n);
    assert((frames_of(s.txs) + s.open).len() == n);
}

/// What follows the last commit among the first `n` frames.
proof fn tail_is_open(wal: Seq<u8>, h: Header, txid: u64, n: nat)
    requires
        txid + n <= u64::MAX,
    ensures
        ({
            let s = split(wal, h, txid, n);
            let all = frames_of(s.txs).len();
            &&& all <= n
            &&& forall|j: int| all <= j < n ==> #[trigger] size_of(wal, h, j) == 0
            &&& s.open == Seq::new((n - all) as nat, |j: int| image_of(wal, h, all + j))
        }),
    decreases n,
{
    let s = split(wal, h, txid, n);
    counts(wal, h, txid, n);
    if n == 0 {
        assert(s.open =~= Seq::new(0, |j: int| image_of(wal, h, 0 + j)));
    } else {
        let m = (n - 1) as nat;
        tail_is_open(wal, h, txid, m);
        counts(wal, h, txid, m);
        let t = split(wal, h, txid, m);
        let all = frames_of(t.txs).len();
        if size_of(wal, h, n - 1) != 0 {
            assert(s.open =~= Seq::new(0, |j: int| image_of(wal, h, n + j)));
        } else {
            assert(s.open =~= Seq::new((n - all) as nat, |j: int| image_of(wal, h, all + j)));
        }
    }
}

/// The `i`-th transaction among the first `n` frames.
proof fn transaction_run(wal: Seq<u8>, h: Header, txid: u64, n: nat, i: int)
    requires
        txid + n <= u64::MAX,
        0 <= i < split(wal, h, txid, n).txs.len(),
    ensures
        ({
            let s = split(wal, h, txid, n);
            let start = frames_of(s.txs.take(i)).len();
            let end = frames_of(s.txs.take(i + 1)).len();
            &&& start < end <= n
            &&& size_of(wal, h, end - 1) != 0
            &&& s.txs[i].db_size == size_of(wal, h, end - 1)
            &&& forall|j: int| start <= j < end - 1 ==> #[trigger] size_of(wal, h, j) == 0
            &&& s.txs[i].pages == Seq::new(
                (end - start) as nat,
                |j: int| image_of(wal, h, start + j),
            )
        }),
    decreases n,
{
    let s = split(wal, h, txid, n);
    let m = (n - 1) as nat;
    let t = split(wal, h, txid, m);
    if size_of(wal, h, n - 1) != 0 {
        assert(s.txs.drop_last() =~= t.txs);
    }
    if i < t.txs.len() {
        transaction_run(wal, h, txid, m, i);
        assert(s.txs[i] == t.txs[i]);
        assert(s.txs.take(i) =~= t.txs.take(i));
        assert(s.txs.take(i + 1) =~= t.txs.take(i + 1));
    } else {
        tail_is_open(wal, h, txid, m);
        counts(wal, h, txid, n);
        let all = frames_of(t.txs).len();
        assert(s.txs.take(i) =~= t.txs);
        assert(s.txs.take(i + 1) =~= s.txs);
        assert(frames_of(s.txs).len() == n);
        let pages = t.open.push(image_of(wal, h, n - 1));
        assert(s.txs[i].pages == pages);
        assert(pages =~= Seq::new((n - all) as nat, |j: int| image_of(wal, h, all + j)));
    }
}

/// Each transaction is a run of frames of the log that ends at its own commit
/// frame: its size is the one that this frame gives, no frame before it in the
/// run commits anything, and its pages are the images of the run. What follows
/// the last commit commits nothing.
pub proof fn transaction_ends_at_its_commit(wal: Seq<u8>, h: Header, txid: u64, n: nat)
    requires
        txid + n <= u64::MAX,
    ensures
        ({
            let s = split(wal, h, txid, n);
            let all = frames_of(s.txs).len();
            &&& forall|i: int|
                #![trigger s.txs[i]]
                0 <= i < s.txs.len() ==> {
                    let start = frames_of(s.txs.take(i)).len();
                    let end = frames_of(s.txs.take(i + 1)).len();
                    &&& start < end <= n
                    &&& size_of(wal, h, end - 1) != 0
                    &&& s.txs[i].db_size == size_of(wal, h, end - 1)
                    &&& forall|j: int| start <= j < end - 1 ==> #[trigger] size_of(wal, h, j) == 0
                    &&& s.txs[i].pages == Seq::new(
                        (end - start) as nat,
                        |j: int| image_of(wal, h, start + j),
                    )
                }
            &&& all <= n
            &&& forall|j: int| all <= j < n ==> #[trigger] size_of(wal, h, j) == 0
            &&& s.open == Seq::new((n - all) as nat, |j: int| image_of(wal, h, all + j))
        }),
{
    let s = split(wal, h, txid, n);
    tail_is_open(wal, h, txid, n);
    assert forall|i: int| #![trigger s.txs[i]] 0 <= i < s.txs.len() implies ({
        let start = frames_of(s.txs.take(i)).len();
        let end = frames_of(s.txs.take(i + 1)).len();
        &&& start < end <= n
        &&& size_of(wal, h, end - 1) != 0
        &&& s.txs[i].db_size == size_of(wal, h, end - 1)
        &&& forall|j: int| start <= j < end - 1 ==> #[trigger] size_of(wal, h, j) == 0
        &&& s.txs[i].pages == Seq::new((end - start) as nat, |j: int| image_of(wal, h, start + j))
    }) by {
        transaction_run(wal, h, txid, n, i);
    }
}

/// Capturing in two passes gives what one pass gives: a second pass that starts
/// at the first frame that the first one left open, and numbers on, finds the
/// remaining transactions and the same tail.
pub proof fn passes_continue(
    wal: Seq<u8>,
    rest: Seq<u8>,
    h: Header,
    txid: u64,
    n: nat,
    m: nat,
)
    requires
        txid + n + m <= u64::MAX,
        // `rest` holds the frames of `wal` from the first open one on.
        forall|j: int|
            0 <= j < split(wal, h, txid, n).open.len() + m ==> #[trigger] frame_of(rest, h, j)
                == frame_of(wal, h, n - split(wal, h, txid, n).open.len() + j),
    ensures
        ({
            let first = split(wal, h, txid, n);
            let second = split(
                rest,
                h,
                (txid + first.txs.len()) as u64,
                first.open.len() + m,
            );
            let whole = split(wal, h, txid, n + m);
            &&& whole.txs == first.txs + second.txs
            &&& whole.open == second.open
        }),
    decreases m,
{
    let first = split(wal, h, txid, n);
    let base = (txid + first.txs.len()) as u64;
    counts(wal, h, txid, n);
    capture_is_exact(wal, h, txid, n);
    if m == 0 {
        open_alone(wal, rest, h, txid, n, base, first.open.len());
        assert(first.txs + Seq::empty() =~= first.txs);
    } else {
        let l = (m - 1) as nat;
        passes_continue(wal, rest, h, txid, n, l);
        let before = split(rest, h, base, first.open.len() + l);
        let j = (first.open.len() + l) as int;
        assert(frame_of(rest, h, j) == frame_of(wal, h, n + m - 1));
        capture_is_exact(wal, h, txid, n + l);
        assert(split(wal, h, txid, n + l).txs.len() == first.txs.len() + before.txs.len());
        let whole = split(wal, h, txid, n + m);
        let second = split(rest, h, base, first.open.len() + m);
        assert(whole.txs =~= first.txs + second.txs);
    }
}

/// The frames left open by a pass, read alone, hold no transaction.
proof fn open_alone(
    wal: Seq<u8>,
    rest: Seq<u8>,
    h: Header,
    txid: u64,
    n: nat,
    base: u64,
    k: nat,
)
    requires
        txid + n <= u64::MAX,
        k <= split(wal, h, txid, n).open.len(),
        forall|j: int|
            0 <= j < k ==> #[trigger] frame_of(rest, h, j) == frame_of(
                wal,
                h,
                n - split(wal, h, txid, n).open.len() + j,
            ),
    ensures
        split(rest, h, base, k).txs == Seq::<crate::sqlite::DeltaView>::empty(),
        split(rest, h, base, k).open == split(wal, h, txid, n).open.take(k as int),
    decreases k,
{
    let open = split(wal, h, txid, n).open;
    if k == 0 {
        assert(open.take(0) =~= Seq::<FrameView>::empty());
    } else {
        let m = (k - 1) as nat;
        open_alone(wal, rest, h, txid, n, base, m);
        tail_is_open(wal, h, txid, n);
        counts(wal, h, txid, n);
        let at = n - open.len() + m;
        assert(frame_of(rest, h, m as int) == frame_of(wal, h, at));
        assert(size_of(wal, h, at) == 0);
        assert(open[m as int] == image_of(wal, h, at));
        assert(open.take(k as int) =~= open.take(m as int).push(open[m as int]));
    }
}

/// A pass goes as far as the frames are whole and of this generation, and no
/// further: the count is the one number for which that holds.
pub proof fn pass_covers_all_valid_frames(wal: Seq<u8>, h: Header, n: int, m: int)
    requires
        valid_run(wal, h, n),
    ensures
        0 <= n,
        forall|i: int| 0 <= i < n ==> (#[trigger] frame_of(wal, h, i)) is Some,
        frame_of(wal, h, n) is None,
        valid_run(wal, h, m) ==> m == n,
{
    if valid_run(wal, h, m) {
        if m < n {
            assert(frame_of(wal, h, m) is Some);
        }
        if n < m {
            assert(frame_of(wal, h, n) is Some);
        }
    }
}

/// Frames stand one after the other behind the header, at the place that a
/// cursor reads on from.
pub proof fn frames_follow_header(h: Header, index: int)
    ensures
        frame_at(h, 0) == 32,
        frame_at(h, index + 1) == frame_at(h, index) + 24 + h.page_size,
{
    assert((index + 1) * (24 + h.page_size) == index * (24 + h.page_size) + (24 + h.page_size))
        by (nonlinear_arith);
    assert(0 * (24 + h.page_size) == 0) by (nonlinear_arith);
}

/// A cursor goes on in its own generation of the log, and starts over in
/// another.
pub proof fn cursor_resumes_its_generation(c: WalCursor, h: Header)
    ensures
        resumed(c, h).salt1 == h.salt1,
        resumed(c, h).salt2 == h.salt2,
        c.salt1 == h.salt1 && c.salt2 == h.salt2 ==> resumed(c, h).frame == c.frame,
        c.salt1 != h.salt1 || c.salt2 != h.salt2 ==> resumed(c, h).frame == 0,
{
}

} // verus!
