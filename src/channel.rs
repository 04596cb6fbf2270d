use std::collections::VecDeque;
use vstd::prelude::*;

verus! {

/// What a producer's attempt to push a value comes to.
pub enum SendOutcome<U> {
    /// The value is now buffered.
    Sent,
    /// The buffer holds `capacity` values: the producer must wait. The value
    /// is handed back.
    Full(U),
    /// The receiving side is gone: the value is handed back and can never be
    /// delivered.
    Closed(U),
}

/// What the consumer's attempt to receive comes to.
pub enum RecvOutcome<U> {
    /// The oldest buffered value.
    Value(U),
    /// Nothing buffered yet, but some producer may still send.
    Empty,
    /// Nothing buffered and every producer is gone: no value will come again.
    Ended,
}

/// A first-in first-out channel of fixed capacity between a number of
/// producers and one consumer, as seen one operation at a time.
pub struct BoundedChannel<U> {
    buffer: VecDeque<U>,
    capacity: usize,
    senders: usize,
    receiver_open: bool,
}

impl<U> BoundedChannel<U> {
    /// The values sent and not yet received, oldest first.
    pub closed spec fn buffered(&self) -> Seq<U> {
        self.buffer@
    }

    pub closed spec fn capacity_spec(&self) -> nat {
        self.capacity as nat
    }

    /// How many producers still hold a sending handle.
    pub closed spec fn senders_spec(&self) -> nat {
        self.senders as nat
    }

    pub closed spec fn receiver_open_spec(&self) -> bool {
        self.receiver_open
    }

    /// Never more than `capacity` values wait in the buffer.
    pub closed spec fn wf(&self) -> bool {
        &&& self.capacity >= 1
        &&& self.buffer@.len() <= self.capacity
    }

    /// Never more than `capacity` values wait unread: a producer that finds
    /// the buffer full has to wait.
    pub proof fn lemma_bounded(&self)
        requires
            self.wf(),
        ensures
            1 <= self.capacity_spec(),
            self.buffered().len() <= self.capacity_spec(),
    {
    }

    /// An empty channel with room for `capacity` values and `senders`
    /// producers.
    pub fn new(capacity: usize, senders: usize) -> (c: Self)
        requires
            capacity >= 1,
        ensures
            c.wf(),
            c.buffered() == Seq::<U>::empty(),
            c.capacity_spec() == capacity,
            c.senders_spec() == senders,
            c.receiver_open_spec(),
    {
        BoundedChannel { buffer: VecDeque::new(), capacity, senders, receiver_open: true }
    }

    pub fn capacity(&self) -> (n: usize)
        ensures
            n == self.capacity_spec(),
    {
        self.capacity
    }

    pub fn len(&self) -> (n: usize)
        ensures
            n == self.buffered().len(),
    {
        self.buffer.len()
    }

    pub fn senders(&self) -> (n: usize)
        ensures
            n == self.senders_spec(),
    {
        self.senders
    }

    pub fn is_receiver_open(&self) -> (b: bool)
        ensures
            b == self.receiver_open_spec(),
    {
        self.receiver_open
    }

    /// Pushes `v` unless the receiver is gone or the buffer is full.
    pub fn try_send(&mut self, v: U) -> (r: SendOutcome<U>)
        requires
            old(self).wf(),
        ensures
            final(self).wf(),
            final(self).capacity_spec() == old(self).capacity_spec(),
            final(self).senders_spec() == old(self).senders_spec(),
            final(self).receiver_open_spec() == old(self).receiver_open_spec(),
            !old(self).receiver_open_spec() ==> r == SendOutcome::Closed(v)
                && final(self).buffered() == old(self).buffered(),
            old(self).receiver_open_spec() && old(self).buffered().len()
                == old(self).capacity_spec() ==> r == SendOutcome::Full(v)
                && final(self).buffered() == old(self).buffered(),
            old(self).receiver_open_spec() && old(self).buffered().len()
                < old(self).capacity_spec() ==> r == SendOutcome::<U>::Sent
                && final(self).buffered() == old(self).buffered().push(v),
    {
        if !self.receiver_open {
            SendOutcome::Closed(v)
        } else if self.buffer.len() >= self.capacity {
            SendOutcome::Full(v)
        } else {
            self.buffer.push_back(v);
            SendOutcome::Sent
        }
    }

    /// Takes the oldest buffered value, if any.
    pub fn try_recv(&mut self) -> (r: RecvOutcome<U>)
        requires
            old(self).wf(),
        ensures
            final(self).wf(),
            final(self).capacity_spec() == old(self).capacity_spec(),
            final(self).senders_spec() == old(self).senders_spec(),
            final(self).receiver_open_spec() == old(self).receiver_open_spec(),
            old(self).buffered().len() > 0 ==> r == RecvOutcome::Value(old(self).buffered()[0])
                && final(self).buffered() == old(self).buffered().drop_first(),
            old(self).buffered().len() == 0 && old(self).senders_spec() > 0 ==> r
                == RecvOutcome::<U>::Empty && final(self).buffered() == old(self).buffered(),
            old(self).buffered().len() == 0 && old(self).senders_spec() == 0 ==> r
                == RecvOutcome::<U>::Ended && final(self).buffered() == old(self).buffered(),
    {
        match self.buffer.pop_front() {
            Some(v) => {
                assert(self.buffer@ =~= old(self).buffer@.drop_first());
                RecvOutcome::Value(v)
            },
            None => {
                if self.senders == 0 {
                    RecvOutcome::Ended
                } else {
                    RecvOutcome::Empty
                }
            },
        }
    }

    /// A producer lets go of its sending handle.
    pub fn drop_sender(&mut self)
        requires
            old(self).wf(),
            old(self).senders_spec() > 0,
        ensures
            final(self).wf(),
            final(self).senders_spec() == old(self).senders_spec() - 1,
            final(self).buffered() == old(self).buffered(),
            final(self).capacity_spec() == old(self).capacity_spec(),
            final(self).receiver_open_spec() == old(self).receiver_open_spec(),
    {
        self.senders = self.senders - 1;
    }

    /// The consumer goes away: what was buffered is dropped, and every later
    /// push fails.
    pub fn close_receiver(&mut self)
        requires
            old(self).wf(),
        ensures
            final(self).wf(),
            !final(self).receiver_open_spec(),
            final(self).buffered() == Seq::<U>::empty(),
            final(self).senders_spec() == old(self).senders_spec(),
            final(self).capacity_spec() == old(self).capacity_spec(),
    {
        self.receiver_open = false;
        self.buffer = VecDeque::new();
    }
}

} // verus!
