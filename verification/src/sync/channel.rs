//! A bounded channel of bytes.

use crate::circbuf::CircBuf;
use crate::sync::lock::Spin;
use crate::sync::waitqueue::{SyncQueue, SyncView};
use vstd::prelude::*;

verus! {

/// Bytes on their way, the threads that wait for some, and whether the channel is shut.
pub struct Channel {
    pub buf: CircBuf,
    pub guard: Spin,
    pub wq: SyncQueue,
    pub shut: bool,
}

/// What a channel stands for.
#[verifier::ext_equal]
pub ghost struct ChannelView {
    pub buf: Seq<u8>,
    pub cap: usize,
    pub guard: bool,
    pub wq: SyncView,
    pub shut: bool,
}

impl View for Channel {
    type V = ChannelView;

    open spec fn view(&self) -> ChannelView {
        ChannelView { buf: self.buf@, cap: self.buf.cap, guard: self.guard.v, wq: self.wq@, shut: self.shut }
    }
}

/// One round of receiving.
#[derive(Clone, Copy, Debug, PartialEq, Eq, Structural)]
pub enum Received {
    Byte(u8),
    /// The channel is empty and shut.
    Closed,
    /// The channel is empty and the thread is queued: sleep, and try again.
    Park,
}

/// The most bytes that a channel can be made for.
pub const CHANNEL_MAX: usize = 0x10_0000;

/// How many bytes a channel holds that is asked to hold `cap`.
pub open spec fn effective_cap(cap: usize) -> usize {
    if cap == 0 {
        1
    } else if cap > CHANNEL_MAX {
        CHANNEL_MAX
    } else {
        cap
    }
}

impl Channel {
    pub open spec fn wf(&self) -> bool {
        self.buf.wf()
    }

    /// An empty channel. It holds at least one byte and at most [`CHANNEL_MAX`].
    pub fn new(cap: usize) -> (r: Self)
        ensures
            r.wf(),
            r@ == (ChannelView {
                buf: Seq::empty(),
                cap: effective_cap(cap),
                guard: false,
                wq: SyncView::new(),
                shut: false,
            }),
    {
        let c: usize = if cap == 0 {
            1
        } else if cap > CHANNEL_MAX {
            CHANNEL_MAX
        } else {
            cap
        };
        Channel { buf: CircBuf::new(c), guard: Spin::new(), wq: SyncQueue::new(), shut: false }
    }

    /// Takes a byte, finds the channel shut, or queues the thread. What is in the channel when
    /// it is shut can still be received.
    pub fn recv(&mut self, thread: usize) -> (r: Received)
        requires
            old(self).wf(),
            !old(self)@.guard,
        ensures
            final(self).wf(),
            old(self)@.buf.len() > 0 ==> r == Received::Byte(old(self)@.buf[0]) && final(self)@ == (ChannelView {
                buf: old(self)@.buf.skip(1),
                ..old(self)@
            }),
            old(self)@.buf.len() == 0 && old(self)@.shut ==> r == Received::Closed && final(self)@ == old(self)@,
            old(self)@.buf.len() == 0 && !old(self)@.shut ==> r == Received::Park && final(self)@ == (ChannelView {
                wq: old(self)@.wq.joined(thread),
                ..old(self)@
            }),
    {
        self.guard.acquire();
        match self.buf.pop() {
            Some(byte) => {
                self.guard.release();
                Received::Byte(byte)
            },
            None => if self.shut {
                self.guard.release();
                Received::Closed
            } else {
                self.guard.release();
                self.wq.wait_guard(thread);
                Received::Park
            },
        }
    }

    /// Puts a byte in if there is room, and wakes a receiver.
    pub fn send(&mut self, v: u8, unpark: &mut Vec<usize>) -> (ok: bool)
        requires
            old(self).wf(),
            old(self)@.buf.len() < old(self)@.cap && old(self)@.wq.q.len() == 0 ==> old(self)@.wq.extra_signal
                < usize::MAX,
        ensures
            final(self).wf(),
            ok == (old(self)@.buf.len() < old(self)@.cap),
            ok ==> {
                &&& final(self)@ == (ChannelView {
                    buf: old(self)@.buf.push(v),
                    wq: old(self)@.wq.signalled(1),
                    ..old(self)@
                })
                &&& final(unpark)@ == old(unpark)@ + old(self)@.wq.q.take(old(self)@.wq.woken(1) as int)
            },
            !ok ==> final(self)@ == old(self)@ && final(unpark)@ == old(unpark)@,
    {
        let ok: bool = self.buf.push(v);
        if ok {
            self.wq.signal(unpark);
        }
        ok
    }

    /// Shuts the channel and wakes all receivers.
    pub fn close(&mut self, unpark: &mut Vec<usize>)
        requires
            old(self).wf(),
        ensures
            final(self).wf(),
            final(self)@ == (ChannelView {
                shut: true,
                wq: SyncView { q: Seq::empty(), ..old(self)@.wq },
                ..old(self)@
            }),
            final(unpark)@ == old(unpark)@ + old(self)@.wq.q,
    {
        self.shut = true;
        self.wq.broadcast(unpark);
    }

    /// Takes a byte if there is one and nobody else is receiving.
    pub fn try_recv(&mut self) -> (r: Option<u8>)
        requires
            old(self).wf(),
        ensures
            final(self).wf(),
            old(self)@.guard || old(self)@.buf.len() == 0 ==> r is None && final(self)@ == old(self)@,
            !old(self)@.guard && old(self)@.buf.len() > 0 ==> r == Some(old(self)@.buf[0]) && final(self)@ == (
            ChannelView { buf: old(self)@.buf.skip(1), ..old(self)@ }),
    {
        if !self.guard.try_acquire() {
            return None;
        }
        let r = self.buf.pop();
        self.guard.release();
        r
    }

    /// Puts as many of the bytes in as there is room for, and wakes a receiver if that is any.
    pub fn send_batch(&mut self, data: &[u8], unpark: &mut Vec<usize>) -> (n: usize)
        requires
            old(self).wf(),
            data@.len() > 0 && old(self)@.buf.len() < old(self)@.cap && old(self)@.wq.q.len() == 0 ==> old(
                self,
            )@.wq.extra_signal < usize::MAX,
        ensures
            final(self).wf(),
            n == (if data@.len() < old(self)@.cap - old(self)@.buf.len() {
                data@.len() as int
            } else {
                old(self)@.cap - old(self)@.buf.len()
            }),
            final(self)@ == (ChannelView {
                buf: old(self)@.buf + data@.take(n as int),
                wq: if n > 0 {
                    old(self)@.wq.signalled(1)
                } else {
                    old(self)@.wq
                },
                ..old(self)@
            }),
            final(unpark)@ == old(unpark)@ + old(self)@.wq.q.take(
                if n > 0 {
                    old(self)@.wq.woken(1) as int
                } else {
                    0
                },
            ),
    {
        let n: usize = self.buf.fill_from(data);
        assert(unpark@ =~= unpark@ + old(self)@.wq.q.take(0));
        if n > 0 {
            self.wq.signal(unpark);
        }
        n
    }

    pub fn depth(&self) -> (r: usize)
        ensures
            r == self@.buf.len(),
    {
        self.buf.len()
    }

    /// Takes all bytes.
    pub fn drain_all(&mut self) -> (r: Vec<u8>)
        requires
            old(self).wf(),
        ensures
            final(self).wf(),
            r@ == old(self)@.buf,
            final(self)@ == (ChannelView { buf: Seq::empty(), ..old(self)@ }),
    {
        let mut out: Vec<u8> = Vec::new();
        self.buf.drain_to(&mut out, usize::MAX);
        assert(self@.buf =~= Seq::empty());
        assert(out@ =~= old(self)@.buf);
        out
    }

    pub fn is_closed(&self) -> (r: bool)
        ensures
            r == self@.shut,
    {
        self.shut
    }

    pub fn remaining_capacity(&self) -> (r: usize)
        requires
            self.wf(),
        ensures
            r == self@.cap - self@.buf.len(),
    {
        self.buf.remaining()
    }
}

} // verus!
