//! The propagation sink: the bounded outbound queue towards the peer-to-peer
//! subsystem. Sends never block; on a full queue the message is dropped and
//! the fragment stays in the local pools. The host process drains the queue
//! into the real network channel.

use vstd::prelude::*;
use crate::fragment::FragmentId;
use crate::fragment::FragmentOrigin;

verus! {

/// An outbound propagation message: one admitted fragment to forward.
pub struct NetworkMsg {
    pub id: FragmentId,
    pub data: Vec<u8>,
    pub origin: FragmentOrigin,
}

/// Bounded outbound queue with non-blocking sends.
pub struct PropagationSink {
    pub queue: Vec<NetworkMsg>,
    pub cap: usize,
}

impl PropagationSink {
    pub open spec fn wf(&self) -> bool {
        self.queue@.len() <= self.cap
    }

    pub fn new(cap: usize) -> (r: PropagationSink)
        ensures
            r.wf(),
            r.cap == cap,
            r.queue@.len() == 0,
    {
        PropagationSink { queue: Vec::new(), cap }
    }

    pub fn len(&self) -> (r: usize)
        ensures
            r == self.queue@.len(),
    {
        self.queue.len()
    }

    /// Non-blocking send: enqueued when there is room, dropped when the
    /// downstream is full. Returns whether the message was enqueued.
    pub fn try_send(&mut self, msg: NetworkMsg) -> (sent: bool)
        requires
            old(self).wf(),
        ensures
            final(self).wf(),
            final(self).cap == old(self).cap,
            sent == (old(self).queue@.len() < old(self).cap),
            sent ==> final(self).queue@ == old(self).queue@.push(msg),
            !sent ==> final(self).queue@ == old(self).queue@,
    {
        if self.queue.len() < self.cap {
            self.queue.push(msg);
            true
        } else {
            false
        }
    }

    /// Hands every queued message out, in send order, leaving the queue
    /// empty; the host process forwards them downstream.
    pub fn drain(&mut self) -> (r: Vec<NetworkMsg>)
        requires
            old(self).wf(),
        ensures
            final(self).wf(),
            final(self).cap == old(self).cap,
            r@ == old(self).queue@,
            final(self).queue@.len() == 0,
    {
        let mut out: Vec<NetworkMsg> = Vec::new();
        core::mem::swap(&mut out, &mut self.queue);
        out
    }
}

} // verus!
