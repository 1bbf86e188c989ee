//! Pipes.

use crate::fs::file::overlaid;
use crate::fs::store::{pipes_delivered, PipeBuf, PipeView, Store, StoreView};
use crate::sync::event::{EventBitflag, EventBus, EventBusView};
use std::collections::VecDeque;
use vstd::prelude::*;

verus! {

#[derive(Clone, Copy, Debug, PartialEq, Eq, Structural)]
pub enum PipeDir {
    Read,
    Write,
}

/// One end of the pipe at place `data`.
#[derive(Clone, Copy)]
pub struct PipeNode {
    pub data: usize,
    pub dir: PipeDir,
}

impl PipeNode {
    pub open spec fn wf(self, st: StoreView) -> bool {
        self.data < st.pipes.len()
    }

    pub open spec fn pipe(self, st: StoreView) -> PipeView {
        st.pipes[self.data as int]
    }

    /// Both ends are open and there is something to read.
    pub open spec fn readable(self, st: StoreView) -> bool {
        self.dir == PipeDir::Read && self.pipe(st).buf.len() > 0 && self.pipe(st).ends == 2
    }

    pub open spec fn writable(self, st: StoreView) -> bool {
        self.dir == PipeDir::Write && self.pipe(st).ends == 2
    }

    /// An end was closed while there was still something to read.
    pub open spec fn broken(self, st: StoreView) -> bool {
        self.dir == PipeDir::Write && self.pipe(st).ends < 2 && self.pipe(st).buf.len() > 0
    }

    /// A read: the store after it, its result, and the buffer.
    pub open spec fn read_of(self, st: StoreView, buf: Seq<u8>) -> (StoreView, Result<usize, &'static str>, Seq<u8>) {
        let p = self.pipe(st);
        let n = if buf.len() < p.buf.len() {
            buf.len() as int
        } else {
            p.buf.len() as int
        };
        if self.dir != PipeDir::Read {
            (st, Err("This is not a read pipe"), buf)
        } else if buf.len() == 0 {
            (st, Ok(0), buf)
        } else if p.buf.len() == 0 && p.ends == 2 {
            (st, Err("again"), buf)
        } else {
            (
                st.set_pipe(
                    self.data as int,
                    PipeView {
                        buf: p.buf.skip(n),
                        bus: if n == p.buf.len() {
                            p.bus.clear(EventBitflag::READABLE)
                        } else {
                            p.bus
                        },
                        ends: p.ends,
                    },
                ),
                Ok(n as usize),
                overlaid(buf, p.buf.take(n)),
            )
        }
    }

    /// A write: the store after it and its result.
    pub open spec fn write_of(self, st: StoreView, buf: Seq<u8>) -> (StoreView, Result<usize, &'static str>) {
        let p = self.pipe(st);
        if self.dir != PipeDir::Write {
            (st, Err("This is not a write pipe"))
        } else if p.ends == 1 {
            (st, Err("No one is reading from the pipe"))
        } else {
            (
                st.set_pipe(
                    self.data as int,
                    PipeView { buf: p.buf + buf, bus: p.bus.set(EventBitflag::READABLE), ends: p.ends },
                ),
                Ok(buf.len() as usize),
            )
        }
    }

    /// The store after this end was dropped.
    pub open spec fn dropped(self, st: StoreView) -> StoreView {
        let p = self.pipe(st);
        st.set_pipe(
            self.data as int,
            PipeView { buf: p.buf, bus: p.bus.set(EventBitflag::CLOSED), ends: p.ends.wrapping_sub(1) },
        )
    }

    /// A new pipe with its two ends.
    pub fn pair(st: &mut Store) -> (r: (PipeNode, PipeNode))
        ensures
            r.0 == (PipeNode { data: old(st)@.pipes.len() as usize, dir: PipeDir::Read }),
            r.1 == (PipeNode { data: old(st)@.pipes.len() as usize, dir: PipeDir::Write }),
            r.0.wf(final(st)@),
            r.1.wf(final(st)@),
            final(st)@ == (StoreView {
                pipes: old(st)@.pipes.push(PipeView { buf: Seq::empty(), bus: EventBusView::new(), ends: 2 }),
                ..old(st)@
            }),
    {
        let data: usize = st.add_pipe(PipeBuf { buf: VecDeque::new(), bus: EventBus::make(), ends: 2 });
        (PipeNode { data, dir: PipeDir::Read }, PipeNode { data, dir: PipeDir::Write })
    }

    pub fn can_read(&self, st: &Store) -> (r: bool)
        requires
            self.wf(st@),
        ensures
            r == self.readable(st@),
    {
        self.dir == PipeDir::Read && st.pipes[self.data].buf.len() > 0 && st.pipes[self.data].ends == 2
    }

    pub fn can_write(&self, st: &Store) -> (r: bool)
        requires
            self.wf(st@),
        ensures
            r == self.writable(st@),
    {
        self.dir == PipeDir::Write && st.pipes[self.data].ends == 2
    }

    /// Takes bytes out of the pipe. An empty pipe with both ends open is to be asked again; one
    /// with an end closed has reached its end. Those who wait for the pipe's events hear of it.
    pub fn read_at<F: Fn(usize, u32) -> bool>(&self, st: &mut Store, buf: &mut [u8], run: &F) -> (r: Result<
        usize,
        &'static str,
    >)
        requires
            self.wf(old(st)@),
            forall|c: usize, e: u32| call_requires(*run, (c, e)),
        ensures
            r == self.read_of(old(st)@, old(buf)@).1,
            final(buf)@ == self.read_of(old(st)@, old(buf)@).2,
            pipes_delivered(*run, self.read_of(old(st)@, old(buf)@).0, final(st)@),
    {
        let r = self.note_read(st, buf);
        st.deliver(run);
        r
    }

    /// A read whose events are noted.
    pub(crate) fn note_read(&self, st: &mut Store, buf: &mut [u8]) -> (r: Result<usize, &'static str>)
        requires
            self.wf(old(st)@),
        ensures
            (final(st)@, r, final(buf)@) == self.read_of(old(st)@, old(buf)@),
    {
        if self.dir != PipeDir::Read {
            return Err("This is not a read pipe");
        }
        if buf.len() == 0 {
            return Ok(0);
        }
        if st.pipes[self.data].buf.len() == 0 && st.pipes[self.data].ends == 2 {
            return Err("again");
        }
        let n: usize = take(&mut st.pipes[self.data], buf);
        assert(st@.pipes =~= self.read_of(old(st)@, old(buf)@).0.pipes);
        Ok(n)
    }

    /// Puts bytes into the pipe. It takes any number of them. Those who wait for the pipe's
    /// events hear of it.
    pub fn write_at<F: Fn(usize, u32) -> bool>(&self, st: &mut Store, buf: &[u8], run: &F) -> (r: Result<
        usize,
        &'static str,
    >)
        requires
            self.wf(old(st)@),
            forall|c: usize, e: u32| call_requires(*run, (c, e)),
        ensures
            r == self.write_of(old(st)@, buf@).1,
            pipes_delivered(*run, self.write_of(old(st)@, buf@).0, final(st)@),
    {
        let r = self.note_write(st, buf);
        st.deliver(run);
        r
    }

    /// A write whose events are noted.
    pub(crate) fn note_write(&self, st: &mut Store, buf: &[u8]) -> (r: Result<usize, &'static str>)
        requires
            self.wf(old(st)@),
        ensures
            (final(st)@, r) == self.write_of(old(st)@, buf@),
    {
        if self.dir != PipeDir::Write {
            return Err("This is not a write pipe");
        }
        if st.pipes[self.data].ends == 1 {
            return Err("No one is reading from the pipe");
        }
        append(&mut st.pipes[self.data], buf);
        assert(st@.pipes =~= self.write_of(old(st)@, buf@).0.pipes);
        Ok(buf.len())
    }

    /// Whether this end can be read, can be written, and is broken. The pipe is locked while the
    /// three are put together, and the question that fits the end locks it once more. So neither
    /// a reading end nor a writing end is to be asked: that would wait for itself.
    pub fn poll(&self, st: &Store) -> (r: (bool, bool, bool))
        requires
            self.wf(st@),
            self.dir != PipeDir::Read,
            self.dir != PipeDir::Write,
        ensures
            r == (self.readable(st@), self.writable(st@), self.broken(st@)),
    {
        (
            self.can_read(st),
            self.can_write(st),
            st.pipes[self.data].ends < 2 && st.pipes[self.data].buf.len() > 0 && self.dir == PipeDir::Write,
        )
    }

    /// Closes this end. Those who wait for the pipe's events hear of it.
    pub fn release<F: Fn(usize, u32) -> bool>(&self, st: &mut Store, run: &F)
        requires
            self.wf(old(st)@),
            forall|c: usize, e: u32| call_requires(*run, (c, e)),
        ensures
            pipes_delivered(*run, self.dropped(old(st)@), final(st)@),
    {
        self.note_release(st);
        st.deliver(run);
    }

    /// Closes this end. Its events are noted.
    pub(crate) fn note_release(&self, st: &mut Store)
        requires
            self.wf(old(st)@),
        ensures
            final(st)@ == self.dropped(old(st)@),
    {
        let ends: i32 = st.pipes[self.data].ends;
        st.pipes[self.data].ends = ends.wrapping_sub(1);
        st.pipes[self.data].bus.note(0, EventBitflag::CLOSED);
        assert(st@.pipes =~= self.dropped(old(st)@).pipes);
    }
}

/// What is written to a pipe comes out behind what was there, in order and once, as much at a
/// time as the reader has room for.
pub proof fn law_pipe_is_fifo(w: PipeNode, r: PipeNode, st: StoreView, data: Seq<u8>, buf: Seq<u8>)
    requires
        w.wf(st),
        w.data == r.data,
        w.dir == PipeDir::Write,
        r.dir == PipeDir::Read,
        w.pipe(st).ends != 1,
        buf.len() > 0,
        w.pipe(st).buf.len() + data.len() > 0,
    ensures
        ({
            let (mid, wrote) = w.write_of(st, data);
            let (end, got, bytes) = r.read_of(mid, buf);
            let all = w.pipe(st).buf + data;
            let n = if buf.len() < all.len() {
                buf.len() as int
            } else {
                all.len() as int
            };
            &&& wrote == Ok::<usize, &'static str>(data.len() as usize)
            &&& got == Ok::<usize, &'static str>(n as usize)
            &&& bytes.take(n) == all.take(n)
            &&& r.pipe(end).buf == all.skip(n)
        }),
{
    let (mid, wrote) = w.write_of(st, data);
    let (end, got, bytes) = r.read_of(mid, buf);
    let all = w.pipe(st).buf + data;
    let n = if buf.len() < all.len() {
        buf.len() as int
    } else {
        all.len() as int
    };
    assert(bytes.take(n) =~= all.take(n));
}

/// Once one of the two ends was dropped, a writer is refused, and a reader gets what is left and
/// then nothing.
pub proof fn law_closed_pipe(gone: PipeNode, w: PipeNode, r: PipeNode, st: StoreView, data: Seq<u8>, buf: Seq<u8>)
    requires
        w.wf(st),
        w.data == r.data == gone.data,
        w.dir == PipeDir::Write,
        r.dir == PipeDir::Read,
        w.pipe(st).ends == 2,
    ensures
        ({
            let left = w.pipe(st).buf;
            let n = if buf.len() < left.len() {
                buf.len() as int
            } else {
                left.len() as int
            };
            &&& w.write_of(gone.dropped(st), data).1 == Err::<usize, _>("No one is reading from the pipe")
            &&& r.read_of(gone.dropped(st), buf).1 == Ok::<usize, &'static str>(n as usize)
            &&& r.read_of(gone.dropped(st), buf).2 == overlaid(buf, left.take(n))
        }),
{
    if buf.len() == 0 {
        assert(overlaid(buf, w.pipe(st).buf.take(0)) =~= buf);
    }
}

fn append(p: &mut PipeBuf, buf: &[u8])
    ensures
        final(p)@ == (PipeView {
            buf: old(p)@.buf + buf@,
            bus: old(p)@.bus.set(EventBitflag::READABLE),
            ends: old(p)@.ends,
        }),
{
    let mut i: usize = 0;
    assert(p@.buf =~= old(p)@.buf + buf@.take(0));
    while i < buf.len()
        invariant
            i <= buf@.len(),
            p@.buf == old(p)@.buf + buf@.take(i as int),
            p@.bus == old(p)@.bus,
            p@.ends == old(p)@.ends,
        decreases buf@.len() - i,
    {
        p.buf.push_back(buf[i]);
        i += 1;
        assert(p@.buf =~= old(p)@.buf + buf@.take(i as int));
    }
    assert(buf@.take(i as int) =~= buf@);
    p.bus.note(0, EventBitflag::READABLE);
}

fn take(p: &mut PipeBuf, buf: &mut [u8]) -> (n: usize)
    ensures
        n == (if old(buf)@.len() < old(p)@.buf.len() { old(buf)@.len() } else { old(p)@.buf.len() }),
        final(p)@ == (PipeView {
            buf: old(p)@.buf.skip(n as int),
            bus: if n == old(p)@.buf.len() {
                old(p)@.bus.clear(EventBitflag::READABLE)
            } else {
                old(p)@.bus
            },
            ends: old(p)@.ends,
        }),
        final(buf)@ == overlaid(old(buf)@, old(p)@.buf.take(n as int)),
{
    let n: usize = if buf.len() < p.buf.len() {
        buf.len()
    } else {
        p.buf.len()
    };
    let mut i: usize = 0;
    assert(p@.buf =~= old(p)@.buf.skip(0));
    assert(buf@ =~= overlaid(old(buf)@, old(p)@.buf.take(0)));
    while i < n
        invariant
            i <= n,
            n <= old(buf)@.len() == buf@.len(),
            n <= old(p)@.buf.len(),
            p@.buf == old(p)@.buf.skip(i as int),
            p@.bus == old(p)@.bus,
            p@.ends == old(p)@.ends,
            buf@ == overlaid(old(buf)@, old(p)@.buf.take(i as int)),
        decreases n - i,
    {
        if let Some(c) = p.buf.pop_front() {
            buf[i] = c;
        }
        i += 1;
        assert(p@.buf =~= old(p)@.buf.skip(i as int));
        assert(buf@ =~= overlaid(old(buf)@, old(p)@.buf.take(i as int)));
    }
    if p.buf.len() == 0 {
        p.bus.note(EventBitflag::READABLE, 0);
    }
    n
}

} // verus!
