use vstd::prelude::*;
use crate::executor::ExecutorOperation;

verus! {

/// The bounded FIFO queue of one edge. A full queue refuses `push`,
/// which is how backpressure stalls the upstream worker.
///
/// The ghost history records every message ever sent and how many have
/// been received, so the well-formedness invariant can state the FIFO
/// law: what has been received is exactly the first part of what was
/// sent, in send order.
pub struct ChannelQueue {
    items: Vec<ExecutorOperation>,
    cap: usize,
    history: Ghost<Seq<ExecutorOperation>>,
    taken: Ghost<Seq<ExecutorOperation>>,
}

impl ChannelQueue {
    /// Every message pushed so far, in send order.
    pub closed spec fn history(&self) -> Seq<ExecutorOperation> {
        self.history@
    }

    /// Every message popped so far, in receive order.
    pub closed spec fn received(&self) -> Seq<ExecutorOperation> {
        self.taken@
    }

    /// The messages sent and not yet received, oldest first.
    pub closed spec fn pending(&self) -> Seq<ExecutorOperation> {
        self.items@
    }

    /// The configured capacity.
    pub closed spec fn capacity(&self) -> usize {
        self.cap
    }

    /// FIFO per edge: the received messages are exactly the sent ones
    /// up to the receive count, in send order, and the pending ones are
    /// the rest.
    pub open spec fn wf(&self) -> bool {
        &&& self.capacity() >= 1
        &&& self.pending().len() <= self.capacity()
        &&& self.history() == self.received() + self.pending()
        &&& self.pending().len() <= self.history().len()
    }

    /// An empty queue of the given capacity.
    pub fn new(cap: usize) -> (r: Self)
        requires
            cap >= 1,
        ensures
            r.wf(),
            r.capacity() == cap,
            r.history() == Seq::<ExecutorOperation>::empty(),
            r.received() == Seq::<ExecutorOperation>::empty(),
    {
        let r = Self {
            items: Vec::new(),
            cap,
            history: Ghost(Seq::empty()),
            taken: Ghost(Seq::empty()),
        };
        proof {
            assert(r.history() =~= r.received() + r.pending());
        }
        r
    }

    /// How many messages wait in the queue.
    pub fn len(&self) -> (r: usize)
        ensures
            r == self.pending().len(),
    {
        self.items.len()
    }

    /// The configured capacity.
    pub fn capacity_exec(&self) -> (r: usize)
        ensures
            r == self.capacity(),
    {
        self.cap
    }

    /// Whether a `push` would block a real channel's sender.
    pub fn is_full(&self) -> (r: bool)
        ensures
            r == (self.pending().len() == self.capacity()),
    {
        self.items.len() == self.cap
    }

    /// Whether nothing waits in the queue.
    pub fn is_empty(&self) -> (r: bool)
        ensures
            r == (self.pending().len() == 0),
    {
        self.items.len() == 0
    }

    /// Sends a message: appends it behind everything already pending.
    pub fn push(&mut self, m: ExecutorOperation)
        requires
            old(self).wf(),
            old(self).pending().len() < old(self).capacity(),
        ensures
            final(self).wf(),
            final(self).capacity() == old(self).capacity(),
            final(self).history() == old(self).history().push(m),
            final(self).received() == old(self).received(),
            final(self).pending() == old(self).pending().push(m),
    {
        self.items.push(m);
        proof {
            self.history@ = self.history@.push(self.items@.last());
            assert(self.history() =~= self.received() + self.pending());
        }
    }

    /// Receives the oldest pending message.
    ///
    /// FIFO per edge: the message returned is the one at the current
    /// receive position of the send history, so messages are received
    /// exactly in the order they were sent.
    pub fn pop(&mut self) -> (m: ExecutorOperation)
        requires
            old(self).wf(),
            old(self).pending().len() > 0,
        ensures
            final(self).wf(),
            final(self).capacity() == old(self).capacity(),
            final(self).history() == old(self).history(),
            m == old(self).history()[old(self).received().len() as int],
            final(self).received() == old(self).received().push(m),
            final(self).pending() == old(self).pending().drop_first(),
    {
        let m = self.items.remove(0);
        proof {
            let pre = *old(self);
            assert(pre.history()[pre.received().len() as int] == pre.pending()[0]);
            self.taken@ = self.taken@.push(m);
            assert(self.items@ =~= pre.pending().drop_first());
            assert(self.history() =~= self.received() + self.pending());
        }
        m
    }
}

/// Law (FIFO per edge): when one message is sent before another on the
/// same edge, it is also received before it — the k-th message
/// received is the k-th message sent.
pub proof fn lemma_channel_fifo(q: &ChannelQueue, k: int)
    requires
        q.wf(),
        0 <= k < q.received().len(),
    ensures
        q.received()[k] == q.history()[k],
{
    assert(q.history() == q.received() + q.pending());
}

} // verus!
