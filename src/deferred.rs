use vstd::prelude::*;

verus! {

/// Where a deferred computation stands, as its one awaiting caller sees it.
pub enum Slot<T> {
    /// The computation has not delivered yet.
    Pending,
    /// The value is there and has not been taken.
    Ready(T),
    /// The value has been handed to the caller.
    Taken,
    /// The computing side went away without delivering.
    Closed,
}

/// What one look at the slot gives the caller.
pub enum Poll<T> {
    /// The value, handed out now and never again.
    Value(T),
    /// Nothing yet: the computation may still deliver. A caller that stops
    /// waiting here cancels nothing.
    NotYet,
    /// No value will ever come: the computing side went away, or the value
    /// was already taken.
    ChannelClosed,
}

/// A single-value channel from a background computation to one caller. The
/// slot is written at most once: a second delivery is ignored.
pub struct Deferred<T> {
    slot: Slot<T>,
}

impl<T> View for Deferred<T> {
    type V = Slot<T>;

    closed spec fn view(&self) -> Slot<T> {
        self.slot
    }
}

impl<T> Deferred<T> {
    pub fn new() -> (d: Self)
        ensures
            d@ == Slot::<T>::Pending,
    {
        Deferred { slot: Slot::Pending }
    }

    /// The computation delivers `v`. Only the first delivery counts: it
    /// returns whether this one did.
    pub fn resolve(&mut self, v: T) -> (accepted: bool)
        ensures
            accepted == (old(self)@ is Pending),
            accepted ==> final(self)@ == Slot::Ready(v),
            !accepted ==> final(self)@ == old(self)@,
    {
        match self.slot {
            Slot::Pending => {
                self.slot = Slot::Ready(v);
                true
            },
            _ => false,
        }
    }

    /// The computing side goes away. If it had not delivered, the caller
    /// will learn that no value is coming.
    pub fn drop_sender(&mut self)
        ensures
            old(self)@ is Pending ==> final(self)@ == Slot::<T>::Closed,
            !(old(self)@ is Pending) ==> final(self)@ == old(self)@,
    {
        if let Slot::Pending = self.slot {
            self.slot = Slot::Closed;
        }
    }

    /// The caller looks once.
    pub fn poll(&mut self) -> (r: Poll<T>)
        ensures
            old(self)@ is Pending ==> r is NotYet && final(self)@ == old(self)@,
            old(self)@ is Ready ==> r == Poll::Value(old(self)@->Ready_0) && final(self)@
                == Slot::<T>::Taken,
            (old(self)@ is Taken || old(self)@ is Closed) ==> r is ChannelClosed && final(self)@
                == old(self)@,
    {
        let mut s = Slot::Taken;
        std::mem::swap(&mut s, &mut self.slot);
        match s {
            Slot::Pending => {
                self.slot = Slot::Pending;
                Poll::NotYet
            },
            Slot::Ready(v) => Poll::Value(v),
            Slot::Taken => Poll::ChannelClosed,
            Slot::Closed => {
                self.slot = Slot::Closed;
                Poll::ChannelClosed
            },
        }
    }
}

} // verus!
