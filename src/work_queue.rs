use std::collections::VecDeque;
use vstd::prelude::*;

verus! {

/// The shared source of a mapping run: a cursor over the items not yet handed
/// out. Each call of `take_next` hands out one item, in source order, so no two
/// workers ever see the same item.
pub struct WorkQueue<T> {
    pending: VecDeque<T>,
}

impl<T> View for WorkQueue<T> {
    type V = Seq<T>;

    /// The items not yet taken, in source order.
    closed spec fn view(&self) -> Seq<T> {
        self.pending@
    }
}

impl<T> WorkQueue<T> {
    /// A queue over `items`, in their order.
    pub fn new(items: Vec<T>) -> (q: Self)
        ensures
            q@ == items@,
    {
        let mut items = items;
        let mut pending: VecDeque<T> = VecDeque::new();
        let ghost all = items@;
        while items.len() > 0
            invariant
                all == items@ + pending@,
            decreases items.len(),
        {
            let x = items.pop().unwrap();
            pending.push_front(x);
            assert(all == items@ + pending@);
        }
        assert(items@ + pending@ =~= pending@);
        WorkQueue { pending }
    }

    /// Hands out the next item, or `None` once the source is exhausted.
    pub fn take_next(&mut self) -> (r: Option<T>)
        ensures
            old(self)@.len() == 0 ==> r.is_none() && final(self)@ == old(self)@,
            old(self)@.len() > 0 ==> r == Some(old(self)@[0]) && final(self)@ == old(self)@.drop_first(),
    {
        self.pending.pop_front()
    }

    /// How many items are still to be handed out.
    pub fn remaining(&self) -> (n: usize)
        ensures
            n == self@.len(),
    {
        self.pending.len()
    }

    pub fn is_exhausted(&self) -> (b: bool)
        ensures
            b == (self@.len() == 0),
    {
        self.pending.len() == 0
    }
}

} // verus!
