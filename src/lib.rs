//! Bounded parallel mapping, modelled step by step: a shared source handed
//! out one item at a time, a fixed pool of workers, and an output channel of
//! bounded capacity, together with a write-once slot for a single deferred
//! value.

use vstd::prelude::*;

pub mod channel;
pub mod deferred;
pub mod mapper;
pub mod parallel;
pub mod work_queue;

use crate::mapper::Event;
use crate::parallel::{lemma_outputs_are_images, parallel_map};

verus! {

broadcast use vstd::seq_lib::group_to_multiset_ensures;

/// The squares of 0 to 9, as the demonstration run computes them: five
/// workers take turns, and the consumer pulls after each round of steps.
/// They come in the order the run produced them.
pub fn run() -> (squares: Vec<usize>)
    ensures
        squares@.len() == 10,
        squares@.to_multiset() == Seq::new(10, |i: int| (i * i) as usize).to_multiset(),
{
    let mut items: Vec<usize> = Vec::new();
    let mut i: usize = 0;
    while i < 10
        invariant
            i <= 10,
            items@.len() == i,
            forall|k: int| 0 <= k < i ==> #[trigger] items@[k] == k,
        decreases 10 - i,
    {
        items.push(i);
        i = i + 1;
    }
    let mut schedule: Vec<Event> = Vec::new();
    let mut round: usize = 0;
    while round < 3
        invariant
            round <= 3,
        decreases 3 - round,
    {
        let mut w: usize = 0;
        while w < 5
            invariant
                w <= 5,
            decreases 5 - w,
        {
            schedule.push(Event::Worker(w));
            w = w + 1;
        }
        schedule.push(Event::Consume);
        round = round + 1;
    }
    let op = |x: usize| -> (r: usize)
        requires
            x < 10,
        ensures
            r == x * x,
        {
            assert(x * x <= 81) by (nonlinear_arith)
                requires
                    x < 10,
            ;
            x * x
        };
    let ghost src = items@;
    let squares = parallel_map(items, op, 5, &schedule);
    proof {
        let f = |x: usize| (x * x) as usize;
        lemma_outputs_are_images(src, squares@, op, f);
        assert(src.map_values(f) =~= Seq::new(10, |i: int| (i * i) as usize));
    }
    squares
}

} // verus!
