//! Bounded handoff queue between the gossip engine and the verification
//! worker.
//!
//! The engine pushes `(hash, statement)` pairs; the worker drains them in
//! order, submits each statement to the store and reports the result back to
//! the engine. When the queue is full or closed, a statement is dropped, not
//! queued unbounded.

use vstd::prelude::*;

use crate::types::StatementHash;

verus! {

/// One statement awaiting verification, with its hash.
pub struct QueueItem {
    pub hash: StatementHash,
    pub statement: Vec<u8>,
}

/// Outcome of trying to push onto the queue.
#[derive(Clone, Copy, Debug, PartialEq, Eq, Structural)]
pub enum TrySendOutcome {
    Sent,
    Full,
    Closed,
}

/// Bounded FIFO of statements awaiting verification.
pub struct ValidationQueue {
    items: Vec<QueueItem>,
    capacity: usize,
    closed: bool,
}

impl View for ValidationQueue {
    type V = Seq<(StatementHash, Seq<u8>)>;

    closed spec fn view(&self) -> Seq<(StatementHash, Seq<u8>)> {
        self.items@.map_values(|q: QueueItem| (q.hash, q.statement@))
    }
}

impl ValidationQueue {
    /// Capacity the queue was created with.
    pub closed spec fn spec_capacity(&self) -> usize {
        self.capacity
    }

    /// Whether the consumer end has gone away.
    pub closed spec fn spec_closed(&self) -> bool {
        self.closed
    }

    /// Well-formedness: positive capacity, never holding more than it.
    pub open spec fn wf(&self) -> bool {
        &&& self.spec_capacity() > 0
        &&& self@.len() <= self.spec_capacity()
    }

    /// An empty, open queue with the given capacity.
    pub fn new(capacity: usize) -> (r: ValidationQueue)
        requires
            capacity > 0,
        ensures
            r.wf(),
            r@ == Seq::<(StatementHash, Seq<u8>)>::empty(),
            r.spec_capacity() == capacity,
            !r.spec_closed(),
    {
        ValidationQueue { items: Vec::new(), capacity, closed: false }
    }

    /// Number of queued statements.
    pub fn len(&self) -> (r: usize)
        ensures
            r == self@.len(),
    {
        self.items.len()
    }

    /// Try to push a statement; fails without queuing when the queue is
    /// closed or full.
    pub fn try_send(&mut self, hash: StatementHash, statement: Vec<u8>) -> (o: TrySendOutcome)
        requires
            old(self).wf(),
        ensures
            final(self).wf(),
            final(self).spec_capacity() == old(self).spec_capacity(),
            final(self).spec_closed() == old(self).spec_closed(),
            (o == TrySendOutcome::Closed) <==> old(self).spec_closed(),
            (o == TrySendOutcome::Full) <==> (!old(self).spec_closed() && old(self)@.len()
                >= old(self).spec_capacity()),
            o != TrySendOutcome::Sent ==> final(self)@ == old(self)@,
            o == TrySendOutcome::Sent ==> final(self)@ == old(self)@.push((hash, statement@)),
    {
        if self.closed {
            return TrySendOutcome::Closed;
        }
        if self.items.len() >= self.capacity {
            return TrySendOutcome::Full;
        }
        let ghost v0 = self@;
        let ghost s0 = statement@;
        self.items.push(QueueItem { hash, statement });
        proof {
            assert(self@ =~= v0.push((hash, s0)));
        }
        TrySendOutcome::Sent
    }

    /// Remove and return the oldest queued statement, if any.
    pub fn next_item(&mut self) -> (r: Option<QueueItem>)
        requires
            old(self).wf(),
        ensures
            final(self).wf(),
            final(self).spec_capacity() == old(self).spec_capacity(),
            final(self).spec_closed() == old(self).spec_closed(),
            (r is Some) <==> old(self)@.len() > 0,
            r is None ==> final(self)@ == old(self)@,
            r is Some ==> (r.unwrap().hash, r.unwrap().statement@) == old(self)@[0]
                && final(self)@ == old(self)@.drop_first(),
    {
        if self.items.len() == 0 {
            return None;
        }
        let ghost v0 = self@;
        let item = self.items.remove(0);
        proof {
            assert(self@ =~= v0.drop_first());
        }
        Some(item)
    }

    /// Mark the queue closed: nothing can be pushed any more.
    pub fn close(&mut self)
        requires
            old(self).wf(),
        ensures
            final(self).wf(),
            final(self)@ == old(self)@,
            final(self).spec_capacity() == old(self).spec_capacity(),
            final(self).spec_closed(),
    {
        self.closed = true;
    }
}

} // verus!
