//! The sequencer: an arrival-ordered queue of submissions between the client
//! front door and whatever drives the lock-then-execute cycle.
use vstd::prelude::*;
use std::collections::VecDeque;
use crate::processor::Transaction;

verus! {

pub struct Sequencer {
    queue: VecDeque<(Transaction, Vec<u8>)>,
    capacity: Option<usize>,
}

impl View for Sequencer {
    type V = Seq<(Transaction, Vec<u8>)>;

    closed spec fn view(&self) -> Seq<(Transaction, Vec<u8>)> {
        self.queue@
    }
}

impl Sequencer {
    /// The bound given at creation, if any.
    pub closed spec fn bound(&self) -> Option<usize> {
        self.capacity
    }

    /// Whether a queue in this state refuses a further submission.
    pub open spec fn is_full(&self) -> bool {
        self.bound() matches Some(c) && self@.len() >= c
    }

    /// A queue without a bound.
    pub fn unbounded() -> (r: Sequencer)
        ensures
            r@ == Seq::<(Transaction, Vec<u8>)>::empty(),
            r.bound() is None,
    {
        Sequencer { queue: VecDeque::new(), capacity: None }
    }

    /// A queue that holds at most `capacity` submissions.
    pub fn bounded(capacity: usize) -> (r: Sequencer)
        ensures
            r@ == Seq::<(Transaction, Vec<u8>)>::empty(),
            r.bound() == Some(capacity),
    {
        Sequencer { queue: VecDeque::new(), capacity: Some(capacity) }
    }

    pub fn len(&self) -> (r: usize)
        ensures
            r == self@.len(),
    {
        self.queue.len()
    }

    /// Appends a submission at the back, or hands it back when the queue is full.
    pub fn submit(&mut self, tx: Transaction, key: Vec<u8>) -> (r: Result<(), (Transaction, Vec<u8>)>)
        ensures
            final(self).bound() == old(self).bound(),
            !old(self).is_full() <==> r is Ok,
            r is Ok ==> final(self)@ == old(self)@.push((tx, key)),
            r is Err ==> final(self)@ == old(self)@ && r == Err::<(), (Transaction, Vec<u8>)>((tx, key)),
    {
        let full = match self.capacity {
            Some(c) => self.queue.len() >= c,
            None => false,
        };
        if full {
            return Err((tx, key));
        }
        self.queue.push_back((tx, key));
        Ok(())
    }

    /// Takes the oldest submission.
    pub fn next(&mut self) -> (r: Option<(Transaction, Vec<u8>)>)
        ensures
            final(self).bound() == old(self).bound(),
            old(self)@.len() == 0 ==> r is None && final(self)@ == old(self)@,
            old(self)@.len() > 0 ==> r == Some(old(self)@[0]) && final(self)@ == old(self)@.drop_first(),
    {
        let r = self.queue.pop_front();
        proof {
            if old(self)@.len() > 0 {
                assert(self@ =~= old(self)@.drop_first());
            }
        }
        r
    }
}

} // verus!
