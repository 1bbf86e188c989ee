//! What holds of files, pipes, epoll sets, mounts, requests and cached blocks.

use crate::bits::{lemma_low_bits, lemma_set_and_clear};
use crate::fs::cache::{
    block_data, count_if, count_slots, first_slot, has_block, is_dirty, lemma_first_slot, other_block, warm, CacheView,
    SlotView,
};
use crate::fs::disk::{accesses, blank, fails, left, succeeds};
use crate::fs::epoll::{EpollEvent, EpollView};
use crate::fs::file::{
    fallocate_of, read_at_of, read_of, seek_of, seek_to, set_len_of, spliced_source, write_at_of, write_of, FHandleView,
    FSeek,
};
use crate::fs::filelike::{leaked, FileLike, FileView};
use crate::fs::ioqueue::{joins, law_merged_has_no_joins, law_nearest_is_served, merged, requests, IoRequest, IoView};
use crate::fs::mount::{collapsed, covers, mount_hash, rehashed, resolved, single_slashes, MountView};
use crate::fs::pipe::{PipeDir, PipeNode};
use crate::fs::store::StoreView;
use vstd::prelude::*;

verus! {

/// Of the store only the contents of the file at place `i` changed.
pub open spec fn only_contents(st: StoreView, after: StoreView, i: int) -> bool {
    &&& after.blobs.len() == st.blobs.len()
    &&& forall|k: int| 0 <= k < st.blobs.len() && k != i ==> #[trigger] after.blobs[k] == st.blobs[k]
    &&& after == (StoreView { blobs: after.blobs, ..st })
}

/// Of the store only the cursor at place `i` moved, to `off`.
pub open spec fn only_cursor(st: StoreView, after: StoreView, i: int, off: int) -> bool {
    &&& after.states.len() == st.states.len()
    &&& forall|k: int| 0 <= k < st.states.len() && k != i ==> #[trigger] after.states[k] == st.states[k]
    &&& after.states[i].opt == st.states[i].opt
    &&& after.states[i].off == off
    &&& after == (StoreView { states: after.states, ..st })
}

/// A file that is set to a length has it: its first bytes are as before and every byte behind
/// what it held is zero. One that cannot be written stays as it is.
pub proof fn law_set_len(h: FHandleView, st: StoreView, n: int)
    requires
        h.wf(st),
        0 <= n,
    ensures
        ({
            let (after, r) = set_len_of(h, st, n);
            &&& r is Ok <==> st.states[h.state as int].opt.write
            &&& r is Err ==> after == st && r == Err::<(), _>("This file is not writable!")
            &&& r is Ok ==> {
                &&& only_contents(st, after, h.data as int)
                &&& h.blob(after).len() == n
                &&& forall|i: int| 0 <= i < n && i < h.blob(st).len() ==> #[trigger] h.blob(after)[i] == h.blob(st)[i]
                &&& forall|i: int| h.blob(st).len() <= i < n ==> #[trigger] h.blob(after)[i] == 0
            }
        }),
{
}

/// Setting two lengths: cutting and extending again loses what was cut, and setting the length
/// that a file has changes nothing.
pub proof fn law_set_len_twice(h: FHandleView, st: StoreView, n: int, m: int)
    requires
        h.wf(st),
        0 <= n,
        0 <= m,
        st.states[h.state as int].opt.write,
    ensures
        set_len_of(h, st, h.blob(st).len() as int).0 == st,
        n >= m || n >= h.blob(st).len() ==> set_len_of(h, set_len_of(h, st, n).0, m).0 == set_len_of(h, st, m).0,
{
    let b = h.blob(st);
    assert(b.take(b.len() as int) =~= b);
    assert(st.blobs.update(h.data as int, b) =~= st.blobs);
    let mid = set_len_of(h, st, n).0;
    let two = set_len_of(h, mid, m).0;
    let one = set_len_of(h, st, m).0;
    if n >= m || n >= b.len() {
        assert(h.blob(two) =~= h.blob(one));
        assert(two.blobs =~= one.blobs);
    }
}

/// A file that is to reach a length is never cut: it keeps all its bytes, and what is added is
/// zero.
pub proof fn law_fallocate(h: FHandleView, st: StoreView, n: int)
    requires
        h.wf(st),
    ensures
        ({
            let (after, r) = fallocate_of(h, st, n);
            let was = h.blob(st).len();
            &&& r is Ok <==> st.states[h.state as int].opt.write
            &&& r is Err ==> after == st && r == Err::<(), _>("This file is not writable!")
            &&& r is Ok ==> {
                &&& only_contents(st, after, h.data as int)
                &&& h.blob(after).len() == (if n > was {
                    n
                } else {
                    was as int
                })
                &&& forall|i: int| 0 <= i < was ==> #[trigger] h.blob(after)[i] == h.blob(st)[i]
                &&& forall|i: int| was <= i < n ==> #[trigger] h.blob(after)[i] == 0
            }
        }),
{
}

/// A seek counts from the start, from the end or from where the cursor is, and moves nothing but
/// the cursor.
pub proof fn law_seek(h: FHandleView, st: StoreView, pos: FSeek)
    requires
        h.wf(st),
        match pos {
            FSeek::Start(o) => true,
            FSeek::End(o) => 0 <= h.blob(st).len() + o <= i64::MAX,
            FSeek::Cur(o) => h.cursor(st).off <= i64::MAX && 0 <= h.cursor(st).off + o <= i64::MAX,
        },
    ensures
        ({
            let to = match pos {
                FSeek::Start(o) => o as int,
                FSeek::End(o) => h.blob(st).len() + o,
                FSeek::Cur(o) => h.cursor(st).off + o,
            };
            &&& seek_to(h, st, pos) == to
            &&& only_cursor(st, seek_of(h, st, pos), h.state as int, to)
        }),
{
}

/// Seeking to and fro comes back, and a seek by nothing stays.
pub proof fn law_seek_back(h: FHandleView, st: StoreView, o: i64)
    requires
        h.wf(st),
        h.cursor(st).off <= i64::MAX,
        0 <= h.cursor(st).off + o <= i64::MAX,
        o > i64::MIN,
    ensures
        seek_of(h, seek_of(h, st, FSeek::Cur(o)), FSeek::Cur((-o) as i64)) == st,
{
    let back = seek_of(h, seek_of(h, st, FSeek::Cur(o)), FSeek::Cur((-o) as i64));
    assert(back.states =~= st.states);
}

/// A read gives as many bytes as there are from its place on and fit, those bytes and in order.
/// The rest of the buffer stays.
pub proof fn law_read_at(h: FHandleView, st: StoreView, off: int, buf: Seq<u8>)
    requires
        h.wf(st),
        0 <= off,
        h.blob(st).len() <= usize::MAX,
        buf.len() <= usize::MAX,
    ensures
        ({
            let (r, got) = read_at_of(h, st, off, buf);
            let d = h.blob(st);
            let n = if off >= d.len() {
                0
            } else if buf.len() < d.len() - off {
                buf.len() as int
            } else {
                d.len() - off
            };
            &&& r == (if st.states[h.state as int].opt.read {
                Ok::<usize, &'static str>(n as usize)
            } else {
                Err("This file is not readable!")
            })
            &&& got.len() == buf.len()
            &&& forall|i: int|
                0 <= i < buf.len() ==> #[trigger] got[i] == (if r is Ok && i < n {
                    d[off + i]
                } else {
                    buf[i]
                })
        }),
{
}

/// A read at the cursor reads from there and moves the cursor on by what it gave, and nothing
/// else.
pub proof fn law_read_moves_the_cursor(h: FHandleView, st: StoreView, buf: Seq<u8>)
    requires
        h.wf(st),
        h.blob(st).len() <= usize::MAX,
        buf.len() <= usize::MAX,
        h.cursor(st).off + h.blob(st).len() <= u64::MAX,
    ensures
        ({
            let (after, r, got) = read_of(h, st, buf);
            &&& (r, got) == read_at_of(h, st, h.cursor(st).off as int, buf)
            &&& r is Ok ==> only_cursor(st, after, h.state as int, h.cursor(st).off + r->Ok_0)
            &&& r is Err ==> after == st
        }),
{
}

/// Two reads in a row give what one read of both lengths gives.
pub proof fn law_reads_are_consecutive(h: FHandleView, st: StoreView, a: Seq<u8>, b: Seq<u8>)
    requires
        h.wf(st),
        st.states[h.state as int].opt.read,
        h.blob(st).len() <= usize::MAX,
        a.len() + b.len() <= usize::MAX,
        h.cursor(st).off + a.len() + b.len() <= h.blob(st).len(),
        h.cursor(st).off + h.blob(st).len() <= u64::MAX,
    ensures
        ({
            let (s1, r1, x) = read_of(h, st, a);
            let (s2, r2, y) = read_of(h, s1, b);
            let (s3, r3, z) = read_of(h, st, a + b);
            &&& z == x + y
            &&& s3 == s2
            &&& r3 == Ok::<usize, &'static str>((r1->Ok_0 + r2->Ok_0) as usize)
        }),
{
    let (s1, r1, x) = read_of(h, st, a);
    let (s2, r2, y) = read_of(h, s1, b);
    let (s3, r3, z) = read_of(h, st, a + b);
    assert(z =~= x + y);
    assert(s3.states =~= s2.states);
}

/// A write at the cursor writes there, or at the end if the file is for appending. It always
/// writes all, and moves the cursor on by as much.
pub proof fn law_write_moves_the_cursor(h: FHandleView, st: StoreView, buf: Seq<u8>)
    requires
        h.wf(st),
        buf.len() <= usize::MAX,
        h.cursor(st).off + buf.len() <= u64::MAX,
    ensures
        ({
            let (after, r) = write_of(h, st, buf);
            let opt = st.states[h.state as int].opt;
            let at = if opt.append {
                h.blob(st).len() as int
            } else {
                h.cursor(st).off as int
            };
            let end = at + buf.len();
            &&& r == (if opt.write {
                Ok::<usize, &'static str>(buf.len() as usize)
            } else {
                Err("This file is not writable!")
            })
            &&& r is Err ==> after == st
            &&& r is Ok ==> {
                let mid = write_at_of(h, st, at, buf).0;
                &&& only_contents(st, mid, h.data as int)
                &&& only_cursor(mid, after, h.state as int, h.cursor(st).off + buf.len())
                &&& h.blob(after).len() == (if end > h.blob(st).len() {
                    end
                } else {
                    h.blob(st).len() as int
                })
                &&& forall|i: int| at <= i < end ==> #[trigger] h.blob(after)[i] == buf[i - at]
                &&& forall|i: int|
                    0 <= i < h.blob(after).len() && !(at <= i < end) ==> #[trigger] h.blob(after)[i] == (if i < h.blob(
                        st,
                    ).len() {
                        h.blob(st)[i]
                    } else {
                        0u8
                    })
            }
        }),
{
}

/// What is spliced out of a file are the bytes at its cursor, as many as asked for and there, and
/// the cursor moves behind them.
pub proof fn law_splice_takes_from_the_cursor(h: FHandleView, st: StoreView, count: int)
    requires
        h.wf(st),
        0 <= count,
        h.cursor(st).off <= h.blob(st).len() <= u64::MAX,
    ensures
        ({
            let (after, bytes) = spliced_source(h, st, count);
            let off = h.cursor(st).off as int;
            let there = h.blob(st).len() - off;
            &&& bytes.len() == (if count < there {
                count
            } else {
                there
            })
            &&& forall|i: int| 0 <= i < bytes.len() ==> #[trigger] bytes[i] == h.blob(st)[off + i]
            &&& only_cursor(st, after, h.state as int, off + bytes.len())
        }),
{
}

/// A pipe with bytes in it is readable to its reading end and shows so once they were written,
/// and no longer once all were read. A reader is put off only while the pipe is empty and both
/// its ends are open.
pub proof fn law_pipe_shows_what_it_holds(w: PipeNode, r: PipeNode, st: StoreView, data: Seq<u8>, buf: Seq<u8>)
    requires
        w.wf(st),
        w.data == r.data,
        w.dir == PipeDir::Write,
        r.dir == PipeDir::Read,
        st.pipes[w.data as int].ends == 2,
        buf.len() > 0,
        buf.len() <= usize::MAX,
        st.pipes[w.data as int].buf.len() <= usize::MAX,
    ensures
        ({
            let p = st.pipes[w.data as int];
            let sent = w.write_of(st, data).0;
            let (read, n, _b) = r.read_of(st, buf);
            &&& w.write_of(st, data).1 is Ok
            &&& w.writable(st) && !w.readable(st) && !r.writable(st)
            &&& r.readable(st) <==> p.buf.len() > 0
            &&& sent.pipes[w.data as int].bus.event & 1 != 0
            &&& n == Err::<usize, &'static str>("again") <==> p.buf.len() == 0
            &&& n is Err ==> read == st
            &&& n is Ok && buf.len() >= p.buf.len() ==> read.pipes[w.data as int].bus.event & 1 == 0
                && read.pipes[w.data as int].buf.len() == 0
            &&& n is Ok && buf.len() < p.buf.len() ==> read.pipes[w.data as int].bus == p.bus
        }),
{
    let p = st.pipes[w.data as int];
    let e = p.bus.event;
    lemma_set_and_clear(e, 1, 1);
}

/// The wrong end refuses, reading nothing takes nothing, and no pipe is touched but the one.
pub proof fn law_pipe_ends_have_their_ways(p: PipeNode, st: StoreView, buf: Seq<u8>, i: int)
    requires
        p.wf(st),
        0 <= i < st.pipes.len(),
    ensures
        p.dir == PipeDir::Write ==> p.read_of(st, buf) == (st, Err::<usize, _>("This is not a read pipe"), buf),
        p.dir == PipeDir::Read ==> p.write_of(st, buf) == (st, Err::<usize, _>("This is not a write pipe")),
        p.dir == PipeDir::Read && buf.len() == 0 ==> p.read_of(st, buf) == (st, Ok::<usize, &'static str>(0), buf),
        i != p.data ==> p.read_of(st, buf).0.pipes[i] == st.pipes[i] && p.write_of(st, buf).0.pipes[i] == st.pipes[i],
        p.write_of(st, buf).0.pipes[i].ends == st.pipes[i].ends,
        p.read_of(st, buf).0.pipes[i].ends == st.pipes[i].ends,
        p.write_of(st, buf).0 == (StoreView { pipes: p.write_of(st, buf).0.pipes, ..st }),
        p.read_of(st, buf).0 == (StoreView { pipes: p.read_of(st, buf).0.pipes, ..st }),
{
}

/// Whatever is open reads and writes as what it stands for: through a file as a file, through a
/// pipe as a pipe, and through an epoll set not at all.
pub proof fn law_open_things_act_by_their_kind(f: FileView, st: StoreView, buf: Seq<u8>, req: usize, start: usize, end: usize)
    ensures
        f matches FileView::File(h) ==> f.read_of(st, buf) == read_of(h, st, buf) && f.write_of(st, buf) == write_of(
            h,
            st,
            buf,
        ) && f.io_ctl_of(req) == Ok::<usize, &'static str>(0) && (f.mmap_of(start, end) is Ok <==> start < end),
        f matches FileView::Pipe(p) ==> f.read_of(st, buf) == p.read_of(st, buf) && f.write_of(st, buf) == p.write_of(
            st,
            buf,
        ) && (f.io_ctl_of(req) is Ok <==> req == 0x5421) && (req == 0x5421 ==> f.io_ctl_of(req)->Ok_0 == 0) && f.mmap_of(
            start,
            end,
        ) is Err,
        f.io_ctl_of(req) is Err ==> f.io_ctl_of(req) == Err::<usize, _>(if f is Pipe {
            "enotty"
        } else {
            "not supported"
        }),
        f.mmap_of(start, end) is Err ==> f.mmap_of(start, end) == Err::<(), _>(if start >= end {
            "invalid range"
        } else {
            "not supported"
        }),
        f matches FileView::Pipe(p) ==> {
            let q = st.pipes[p.data as int];
            &&& f.poll_of(st).0 <==> p.dir is Read && q.buf.len() > 0 && q.ends == 2
            &&& f.poll_of(st).1 <==> p.dir is Write && q.ends == 2
            &&& f.poll_of(st).2 <==> p.dir is Write && q.ends < 2 && q.buf.len() > 0
        },
        f is Epoll ==> f.read_of(st, buf).1 is Err && f.write_of(st, buf).1 is Err && f.io_ctl_of(req) is Err && f.mmap_of(
            start,
            end,
        ) is Err && f.read_of(st, buf).0 == st && f.write_of(st, buf).0 == st,
        f matches FileView::File(h) ==> f.poll_of(st).0 == h.cursor(st).opt.read && f.poll_of(st).1 == h.cursor(
            st,
        ).opt.write && (f.poll_of(st).2 <==> h.path.len() == 0 && h.blob(st).len() == 0),
        f matches FileView::Epoll(e) ==> (f.poll_of(st).0 <==> st.sets[e.ready as int].len() > 0) && !f.poll_of(st).1
            && !f.poll_of(st).2,
{
}

/// An entry that is added or changed is watched for just that and noted as changed; a change or a
/// removal wants one that is there. No other entry is touched.
pub proof fn law_epoll_control(e: EpollView, st: StoreView, op: i32, fd: usize, event: EpollEvent, other: usize)
    requires
        e.wf(st),
    ensures
        ({
            let (a, s, r) = e.control_of(st, op, fd, event);
            let there = e.events.dom().contains(fd);
            &&& r is Ok <==> op == 1 || (op == 2 && there) || (op == 3 && there)
            &&& r is Err ==> a == e && s == st
            &&& r is Ok && op != 2 ==> {
                &&& a.events.dom().contains(fd)
                &&& a.events[fd] == event
                &&& s.sets[e.new_ctl as int].contains(fd)
                &&& forall|x: usize|
                    x != fd ==> (#[trigger] s.sets[e.new_ctl as int].contains(x) <==> st.sets[e.new_ctl as int].contains(x))
            }
            &&& r is Ok && op == 2 ==> !a.events.dom().contains(fd) && s == st
            &&& other != fd ==> a.events.dom().contains(other) == e.events.dom().contains(other)
            &&& other != fd && e.events.dom().contains(other) ==> a.events[other] == e.events[other]
            &&& a.ready == e.ready && a.new_ctl == e.new_ctl
            &&& s.sets.len() == st.sets.len()
            &&& forall|i: int| 0 <= i < st.sets.len() && i != e.new_ctl ==> #[trigger] s.sets[i] == st.sets[i]
            &&& s == (StoreView { sets: s.sets, ..st })
        }),
{
}

/// A mount covers the paths that start with its prefix, letter by letter.
pub proof fn law_mount_covers_its_prefix(m: MountView, path: Seq<char>)
    ensures
        covers(m, path) <==> 0 < m.prefix.len() <= path.len() && forall|i: int|
            0 <= i < m.prefix.len() ==> #[trigger] path[i] == m.prefix[i],
{
    if covers(m, path) {
        assert(m.prefix == path.subrange(0, m.prefix.len() as int));
    }
    if 0 < m.prefix.len() <= path.len() && forall|i: int| 0 <= i < m.prefix.len() ==> #[trigger] path[i] == m.prefix[i] {
        assert(m.prefix =~= path.subrange(0, m.prefix.len() as int));
    }
}

/// A second slash behind a slash makes no difference, and a path without one stays as it is.
pub proof fn law_second_slash_is_nothing(a: Seq<char>, b: Seq<char>)
    ensures
        collapsed(a + seq!['/', '/'] + b) == collapsed(a + seq!['/'] + b),
        single_slashes(a) ==> collapsed(a) == a,
    decreases b.len(),
{
    let two = a + seq!['/', '/'] + b;
    let one = a + seq!['/'] + b;
    if b.len() == 0 {
        assert(two.drop_last() =~= one);
        assert(two.last() == '/' && two[two.len() - 2] == '/');
    } else {
        law_second_slash_is_nothing(a, b.drop_last());
        assert(two.drop_last() =~= a + seq!['/', '/'] + b.drop_last());
        assert(one.drop_last() =~= a + seq!['/'] + b.drop_last());
        assert(two.last() == one.last());
        assert(one.len() >= 2 && two[two.len() - 2] == one[one.len() - 2]);
    }
    if single_slashes(a) {
        crate::fs::mount::lemma_already_collapsed(a);
    }
}

/// A path that leads anywhere leads there with more mounts allowed too, and none leads anywhere
/// with none allowed.
pub proof fn law_more_mounts_allowed(ms: Seq<MountView>, path: Seq<char>, n: nat, m: nat)
    requires
        n <= m,
    ensures
        resolved(ms, path, n) is Some ==> resolved(ms, path, m) == resolved(ms, path, n),
        resolved(ms, path, 0) is None,
    decreases n,
{
    if n > 0 {
        if let Some(i) = crate::fs::mount::best_mount(ms, path, ms.len()) {
            law_more_mounts_allowed(ms, path.skip(ms[i].prefix.len() as int), (n - 1) as nat, (m - 1) as nat);
        }
    }
}

/// While the head moves up, the lowest block from the head on is served next, and while it moves
/// down the highest up to the head, where that is not further than half of all blocks away, or
/// than what lies behind is from the end. With nothing ahead, upwards the lowest of all is served
/// and downwards the highest.
pub proof fn law_head_serves_the_next_block(q: IoView, i: int)
    requires
        0 <= i < q.pending.len(),
    ensures
        ({
            let b = q.pending[q.next()].block;
            let x = q.pending[i].block;
            let h = q.head_pos;
            &&& 0 <= q.next() < q.pending.len()
            &&& q.direction_up && x >= h && x - h < usize::MAX / 2 ==> h <= b <= x
            &&& !q.direction_up && x <= h && (forall|j: int|
                0 <= j < q.pending.len() ==> (#[trigger] q.pending[j]).block <= usize::MAX - h) && h > 0 && x > 0 ==> x <= b
            &&& q.direction_up && (forall|j: int| 0 <= j < q.pending.len() ==> (#[trigger] q.pending[j]).block < h) ==> b <= x
            &&& !q.direction_up && (forall|j: int| 0 <= j < q.pending.len() ==> (#[trigger] q.pending[j]).block > h) ==> x
                <= b
        }),
{
    law_nearest_is_served(q.pending, q.head_pos, q.direction_up, q.pending.len());
    let n = q.next();
    assert(crate::fs::ioqueue::distance(q.pending[n].block, q.head_pos, q.direction_up)
        <= crate::fs::ioqueue::distance(q.pending[i].block, q.head_pos, q.direction_up));
}

/// Serving takes out that one request and leaves the rest in order. The head goes to its block,
/// and turns round just if the block lay ahead and all that is left lies behind it.
pub proof fn law_serving_moves_the_head(q: IoView)
    requires
        q.pending.len() > 0,
    ensures
        ({
            let a = q.after_dispatch();
            let n = q.next();
            let r = q.pending[n];
            &&& a.pending.len() == q.pending.len() - 1
            &&& forall|i: int| 0 <= i < n ==> #[trigger] a.pending[i] == q.pending[i]
            &&& forall|i: int| n <= i < a.pending.len() ==> #[trigger] a.pending[i] == q.pending[i + 1]
            &&& a.head_pos == r.block
            &&& q.dispatched < usize::MAX ==> a.dispatched == q.dispatched + 1
            &&& a.merged == q.merged
            &&& q.direction_up ==> (!a.direction_up <==> r.block >= q.head_pos && forall|i: int|
                0 <= i < a.pending.len() ==> (#[trigger] a.pending[i]).block < r.block)
            &&& !q.direction_up ==> (a.direction_up <==> r.block <= q.head_pos && forall|i: int|
                0 <= i < a.pending.len() ==> (#[trigger] a.pending[i]).block > r.block)
        }),
{
    law_nearest_is_served(q.pending, q.head_pos, q.direction_up, q.pending.len());
    let n = q.next();
    let r = q.pending[n];
    let rest = q.pending.remove(n);
    let a = q.after_dispatch();
    assert(a.pending == rest);
    assert(crate::fs::ioqueue::all_below(rest, r.block) <==> forall|i: int|
        0 <= i < a.pending.len() ==> (#[trigger] a.pending[i]).block < r.block);
    assert(crate::fs::ioqueue::all_above(rest, r.block) <==> forall|i: int|
        0 <= i < a.pending.len() ==> (#[trigger] a.pending[i]).block > r.block);
}

/// Merging keeps or drops: what is left was there, and what was dropped follows, block after
/// block and in the same direction, one that is left. No two neighbours are left of which the
/// second follows the first. As many are counted as were dropped.
pub proof fn law_merging_drops_followers(q: IoView, i: int)
    requires
        0 <= i < q.pending.len(),
        q.pending.len() <= usize::MAX,
    ensures
        ({
            let a = q.after_merge();
            let x = q.pending[i];
            &&& a.pending.contains(x) || exists|j: int|
                0 <= j < a.pending.len() && (#[trigger] a.pending[j]).block + 1 == x.block && a.pending[j].write == x.write
            &&& forall|j: int| 0 <= j < a.pending.len() ==> q.pending.contains(#[trigger] a.pending[j])
            &&& forall|j: int, k: int|
                0 <= j && k == j + 1 && k < a.pending.len() ==> !((#[trigger] a.pending[j]).block + 1 == (
                #[trigger] a.pending[k]).block && a.pending[j].write == a.pending[k].write)
            &&& a.pending.len() <= q.pending.len()
            &&& q.merged + (q.pending.len() - a.pending.len()) <= usize::MAX ==> a.merged == q.merged + (q.pending.len()
                - a.pending.len())
            &&& a == (IoView { pending: a.pending, merged: a.merged, ..q })
        }),
{
    law_merged_has_no_joins(q.pending);
    lemma_merged(q.pending, i);
    let m = merged(q.pending);
    assert forall|j: int, k: int| 0 <= j && k == j + 1 && k < m.len() implies !((#[trigger] m[j]).block + 1 == (
    #[trigger] m[k]).block && m[j].write == m[k].write) by {
        assert(!joins(m[j], m[k]));
    }
}

proof fn lemma_merged(q: Seq<IoRequest>, i: int)
    requires
        0 <= i < q.len(),
    ensures
        merged(q).contains(q[i]) || exists|j: int|
            0 <= j < merged(q).len() && (#[trigger] merged(q)[j]).block + 1 == q[i].block && merged(q)[j].write
                == q[i].write,
        forall|j: int| 0 <= j < merged(q).len() ==> q.contains(#[trigger] merged(q)[j]),
    decreases q.len(),
{
    let m = merged(q);
    law_merged_has_no_joins(q);
    if q.len() < 2 {
        assert(m[i] == q[i]);
        assert forall|j: int| 0 <= j < m.len() implies q.contains(#[trigger] m[j]) by {
            assert(q[j] == m[j]);
        }
    } else if joins(q[0], q[1]) {
        let t = q.remove(1);
        if i == 0 {
            lemma_merged(t, 0);
            assert(m[0] == q[0]);
        } else if i == 1 {
            lemma_merged(t, 0);
            assert(m[0].block + 1 == q[1].block);
        } else {
            lemma_merged(t, i - 1);
            assert(t[i - 1] == q[i]);
        }
        assert forall|j: int| 0 <= j < m.len() implies q.contains(#[trigger] m[j]) by {
            assert(t.contains(m[j]));
            let k = choose|k: int| 0 <= k < t.len() && t[k] == m[j];
            assert(q[if k == 0 { 0 } else { k + 1 }] == m[j]);
        }
    } else {
        let t = q.skip(1);
        let rest = merged(t);
        assert(m == seq![q[0]] + rest);
        if i == 0 {
            lemma_merged(t, 0);
            assert(m[0] == q[0]);
        } else {
            lemma_merged(t, i - 1);
            assert(t[i - 1] == q[i]);
            if rest.contains(q[i]) {
                let k = choose|k: int| 0 <= k < rest.len() && rest[k] == q[i];
                assert(m[k + 1] == q[i]);
            } else {
                let j = choose|j: int|
                    0 <= j < rest.len() && (#[trigger] rest[j]).block + 1 == q[i].block && rest[j].write == q[i].write;
                assert(m[j + 1] == rest[j]);
            }
        }
        assert forall|j: int| 0 <= j < m.len() implies q.contains(#[trigger] m[j]) by {
            if j == 0 {
                assert(q[0] == m[0]);
            } else {
                assert(rest[j - 1] == m[j]);
                assert(t.contains(rest[j - 1]));
                let k = choose|k: int| 0 <= k < t.len() && t[k] == rest[j - 1];
                assert(q[k + 1] == m[j]);
            }
        }
    }
}

/// A batch is taken as its requests are, one for one and in order, all at the same time.
pub proof fn law_batch_is_its_requests(rs: Seq<(usize, bool, u8)>, tick: usize, i: int)
    requires
        0 <= i < rs.len(),
    ensures
        requests(rs, tick).len() == rs.len(),
        requests(rs, tick)[i].block == rs[i].0,
        requests(rs, tick)[i].write == rs[i].1,
        requests(rs, tick)[i].priority == rs[i].2,
        requests(rs, tick)[i].submitted_tick == tick,
{
}

/// The cache has a slot for block `k` where such slots are kept.
pub open spec fn is_in(c: CacheView, k: usize) -> bool {
    exists|i: int|
        0 <= i < c.chains[k as int % c.width as int].len() && (#[trigger] c.chains[k as int % c.width as int][i]).id == k
}

/// A block is found if a slot for it is there, and then as it was put in first. Reading it in
/// makes it found with what was read, unless it was there, and no other block is touched.
pub proof fn law_cache_finds_what_was_filled(c: CacheView, k: usize, tick: usize, other: usize)
    requires
        c.wf(),
    ensures
        c.cached(k) is Some <==> is_in(c, k),
        c.filled(k, tick).cached(k) == (if is_in(c, k) {
            c.cached(k)
        } else {
            Some(block_data(k, tick))
        }),
        other != k ==> c.filled(k, tick).cached(other) == c.cached(other),
        c.filled(k, tick).wf(),
        block_data(k, tick).len() == 512,
{
    let ch = c.chain(k);
    lemma_first_slot(ch, k);
    let now = c.filled(k, tick);
    let after = now.chain(k);
    lemma_home(c, k);
    assert(after == ch.push(SlotView { id: k, payload: block_data(k, tick), modified: false }));
    lemma_push_slot(ch, SlotView { id: k, payload: block_data(k, tick), modified: false }, k);
    lemma_home(c, other);
    lemma_first_slot(c.chain(other), other);
    if other != k && c.home(other) == c.home(k) {
        lemma_push_slot(ch, SlotView { id: k, payload: block_data(k, tick), modified: false }, other);
    }
}

proof fn lemma_home(c: CacheView, k: usize)
    requires
        c.wf(),
    ensures
        0 <= c.home(k) < c.width,
        c.home(k) == k as int % c.width as int,
{
    vstd::arithmetic::div_mod::lemma_mod_bound(k as int, c.width as int);
}

proof fn lemma_push_slot(s: Seq<SlotView>, x: SlotView, k: usize)
    ensures
        has_block(s, k) ==> first_slot(s.push(x), k) == first_slot(s, k) && has_block(s.push(x), k),
        !has_block(s, k) && x.id == k ==> first_slot(s.push(x), k) == s.len() && has_block(s.push(x), k),
        !has_block(s, k) && x.id != k ==> !has_block(s.push(x), k),
{
    let t = s.push(x);
    lemma_first_slot(s, k);
    lemma_first_slot(t, k);
    let a = first_slot(s, k);
    let b = first_slot(t, k);
    if has_block(s, k) {
        assert(t[a].id == k);
        assert(b <= a);
        if b < a {
            assert(s[b].id != k);
        }
    } else {
        assert forall|i: int| 0 <= i < s.len() implies (#[trigger] t[i]).id != k by {
            assert(s[i].id != k);
        }
        if x.id == k {
            assert(t[s.len() as int].id == k);
        }
    }
}

/// A block that is taken out is not found any more, and every other is as before.
pub proof fn law_cache_forgets(c: CacheView, k: usize, other: usize)
    requires
        c.wf(),
    ensures
        c.without(k).cached(k) is None,
        other != k ==> c.without(k).cached(other) == c.cached(other),
        c.without(k).wf(),
{
    lemma_home(c, k);
    lemma_discard(c.chain(k), k, other);
}

proof fn lemma_discard(s: Seq<SlotView>, k: usize, other: usize)
    ensures
        !has_block(s.filter(other_block(k)), k),
        other != k ==> has_block(s.filter(other_block(k)), other) == has_block(s, other),
        other != k && has_block(s, other) ==> s.filter(other_block(k))[first_slot(s.filter(other_block(k)), other)]
            == s[first_slot(s, other)],
    decreases s.len(),
{
    reveal(Seq::filter);
    if s.len() > 0 {
        let t = s.drop_last();
        let x = s.last();
        lemma_discard(t, k, other);
        let f = t.filter(other_block(k));
        assert(s =~= t.push(x));
        lemma_push_slot(t, x, other);
        lemma_push_slot(f, x, other);
        lemma_push_slot(f, x, k);
        lemma_first_slot(t, other);
        lemma_first_slot(f, other);
    }
}

/// The slot at place `j` of chain `i` and what became of it: only whether it counts as changed
/// may differ.
pub open spec fn slots_kept(c: CacheView, after: CacheView) -> bool {
    &&& after.width == c.width
    &&& after.chains.len() == c.chains.len()
    &&& forall|i: int| 0 <= i < c.chains.len() ==> (#[trigger] after.chains[i]).len() == c.chains[i].len()
    &&& forall|i: int, j: int|
        0 <= i < c.chains.len() && 0 <= j < c.chains[i].len() ==> (#[trigger] after.chains[i][j]).id == c.chains[i][j].id
            && after.chains[i][j].payload == c.chains[i][j].payload
}

/// Writing to a block that is there marks its first slot as changed and no other; writing back
/// leaves none marked. No slot is lost or altered.
pub proof fn law_cache_marks_changes(c: CacheView, k: usize, i: int, j: int)
    requires
        c.wf(),
        0 <= i < c.chains.len(),
        0 <= j < c.chains[i].len(),
    ensures
        slots_kept(c, c.dirtied(k)),
        slots_kept(c, c.all_clean()),
        !c.all_clean().chains[i][j].modified,
        c.dirtied(k).chains[i][j].modified == (c.chains[i][j].modified || (i == k as int % c.width as int
            && c.chains[i][j].id == k && forall|n: int| 0 <= n < j ==> (#[trigger] c.chains[i][n]).id != k)),
{
    lemma_first_slot(c.chain(k), k);
    lemma_home(c, k);
    if i == c.home(k) && c.chains[i][j].id == k {
        assert(has_block(c.chain(k), k));
        assert(first_slot(c.chain(k), k) <= j);
    }
}

/// A slot survives aging if it is clean or young enough. Its age is the time since three times
/// its number.
pub proof fn law_aging(s: Seq<SlotView>, now: usize, max_age: usize, x: SlotView)
    requires
        x.id * 3 <= now,
    ensures
        s.filter(warm(now, max_age)).contains(x) <==> s.contains(x) && (!x.modified || now - x.id * 3 < max_age),
{
    let keep = warm(now, max_age);
    let f = s.filter(keep);
    vstd::arithmetic::div_mod::lemma_small_mod((x.id * 3) as nat, (usize::MAX + 1) as nat);
    assert(x.id.wrapping_mul(3) == x.id * 3);
    assert(now.wrapping_sub(x.id.wrapping_mul(3)) == now - x.id * 3);
    assert(keep(x) == (!x.modified || now - x.id * 3 < max_age));
    if f.contains(x) {
        let i = choose|i: int| 0 <= i < f.len() && f[i] == x;
        s.lemma_filter_pred(keep, i);
        s.lemma_filter_contains_rev(keep, x);
    }
    if s.contains(x) && keep(x) {
        let i = choose|i: int| 0 <= i < s.len() && s[i] == x;
        s.lemma_filter_contains(keep, i);
    }
}

/// What the counts of a cache count: reading a block in makes one slot more, and an unchanged
/// one; writing back leaves none changed.
pub proof fn law_cache_counts(c: CacheView, k: usize, tick: usize)
    requires
        c.wf(),
    ensures
        count_slots(c.filled(k, tick).chains) == count_slots(c.chains) + 1,
        count_if(c.filled(k, tick).chains, is_dirty()) == count_if(c.chains, is_dirty()),
        count_if(c.all_clean().chains, is_dirty()) == 0,
        count_slots(c.all_clean().chains) == count_slots(c.chains),
        count_if(c.chains, is_dirty()) <= count_slots(c.chains),
{
    lemma_home(c, k);
    let x = SlotView { id: k, payload: block_data(k, tick), modified: false };
    lemma_counts_push(c.chains, c.home(k), x);
    lemma_counts_clean(c.chains);
    assert(c.all_clean().chains =~= c.chains.map_values(|s: Seq<SlotView>| crate::fs::cache::cleaned(s)));
}

proof fn lemma_counts_push(chains: Seq<Seq<SlotView>>, i: int, x: SlotView)
    requires
        0 <= i < chains.len(),
        !x.modified,
    ensures
        count_slots(chains.update(i, chains[i].push(x))) == count_slots(chains) + 1,
        count_if(chains.update(i, chains[i].push(x)), is_dirty()) == count_if(chains, is_dirty()),
    decreases chains.len(),
{
    let now = chains.update(i, chains[i].push(x));
    let t = chains.drop_last();
    if i == chains.len() - 1 {
        assert(now.drop_last() =~= t);
        crate::sequences::lemma_filter_push(chains[i], x, is_dirty());
    } else {
        lemma_counts_push(t, i, x);
        assert(now.drop_last() =~= t.update(i, t[i].push(x)));
    }
}

proof fn lemma_counts_clean(chains: Seq<Seq<SlotView>>)
    ensures
        count_if(chains.map_values(|s: Seq<SlotView>| crate::fs::cache::cleaned(s)), is_dirty()) == 0,
        count_slots(chains.map_values(|s: Seq<SlotView>| crate::fs::cache::cleaned(s))) == count_slots(chains),
        count_if(chains, is_dirty()) <= count_slots(chains),
    decreases chains.len(),
{
    let now = chains.map_values(|s: Seq<SlotView>| crate::fs::cache::cleaned(s));
    if chains.len() > 0 {
        let t = chains.drop_last();
        lemma_counts_clean(t);
        assert(now.drop_last() =~= t.map_values(|s: Seq<SlotView>| crate::fs::cache::cleaned(s)));
        let last = now.last();
        assert(last == crate::fs::cache::cleaned(chains.last()));
        let f = last.filter(is_dirty());
        if f.len() > 0 {
            last.lemma_filter_pred(is_dirty(), 0);
            last.lemma_filter_contains_rev(is_dirty(), f[0]);
        }
        lemma_filter_len(chains.last(), is_dirty());
    }
}

proof fn lemma_filter_len(s: Seq<SlotView>, keep: spec_fn(SlotView) -> bool)
    ensures
        s.filter(keep).len() <= s.len(),
    decreases s.len(),
{
    reveal(Seq::filter);
    if s.len() > 0 {
        lemma_filter_len(s.drop_last(), keep);
    }
}

/// Bytes of a block that is read in count up, and start anew at 256.
pub proof fn law_block_counts_up(k: usize, tick: usize, i: int)
    requires
        0 <= i < 511,
    ensures
        block_data(k, tick)[i + 1] == (block_data(k, tick)[i] + 1) % 256,
{
    let s = k.wrapping_mul(0x9E3779B9) ^ tick;
    let a = s.wrapping_add(i as usize);
    let b = s.wrapping_add((i + 1) as usize);
    assert(b == a.wrapping_add(1));
    lemma_low_bits(a);
    lemma_low_bits(b);
    if a == usize::MAX {
        assert(usize::MAX == 0xFFFF_FFFF || usize::MAX == 0xFFFF_FFFF_FFFF_FFFF);
    }
}

/// A read with a limit succeeds if fewer errors are left than the limit, or if there is none and
/// the disk does not fail for good. It uses up one error with each access that fails, and makes
/// one access more if it succeeds.
pub proof fn law_one_read(e: int, lim: int)
    requires
        0 <= e <= usize::MAX,
        0 <= lim,
        lim > 0 || e < usize::MAX,
    ensures
        succeeds(e, lim) <==> e < usize::MAX && (lim == 0 || e < lim),
        succeeds(e, lim) ==> accesses(e, lim, 1) == e + 1 && left(e, lim, 1) == 0 && fails(e, lim, 1) == e,
        !succeeds(e, lim) ==> accesses(e, lim, 1) == lim && fails(e, lim, 1) == lim && left(e, lim, 1) == (if e
            == usize::MAX {
            e
        } else {
            e - lim
        }),
{
    reveal_with_fuel(accesses, 2);
    reveal_with_fuel(left, 2);
    reveal_with_fuel(fails, 2);
}

/// A mount is found by its hash, and of those with the same hash the last. Nothing else is found.
pub proof fn law_mounts_by_their_hashes(ms: Seq<MountView>, n: nat, h: u64)
    requires
        n <= ms.len() <= usize::MAX,
    ensures
        rehashed(ms, n).dom().contains(h) <==> exists|i: int| 0 <= i < n && mount_hash(#[trigger] ms[i]) == h,
        rehashed(ms, n).dom().contains(h) ==> {
            let v = rehashed(ms, n)[h] as int;
            &&& 0 <= v < n
            &&& mount_hash(ms[v]) == h
            &&& forall|i: int| v < i < n ==> mount_hash(#[trigger] ms[i]) != h
        },
    decreases n,
{
    if n > 0 {
        law_mounts_by_their_hashes(ms, (n - 1) as nat, h);
        assert(mount_hash(ms[n - 1]) == h || mount_hash(ms[n - 1]) != h);
    }
}

/// A number leaks if it is free with one in use below it and one above, or if it is a file without
/// a path. A pipe or an epoll set never does.
pub proof fn law_leaks(files: Map<usize, FileLike>, a: usize, x: usize, b: usize)
    ensures
        files.dom().contains(a) && a < x < b && files.dom().contains(b) && !files.dom().contains(x) ==> leaked(files, x),
        (forall|y: usize| #[trigger] files.dom().contains(y) ==> y >= x) && !files.dom().contains(x) ==> !leaked(files, x),
        (forall|y: usize| #[trigger] files.dom().contains(y) ==> y <= x) && !files.dom().contains(x) ==> !leaked(files, x),
        files.dom().contains(x) ==> (leaked(files, x) <==> (files[x]@ matches FileView::File(h) && h.path.len() == 0)),
{
}

/// A new disk was never accessed, has the errors and the name it was made with, and no journal.
pub proof fn law_new_disk(errs: usize, label: Seq<char>)
    ensures
        blank(errs, label).ops == 0,
        blank(errs, label).errs == errs,
        blank(errs, label).label == label,
        blank(errs, label).journal is None,
{
}

} // verus!
