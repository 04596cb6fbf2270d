use vstd::prelude::*;

use crate::channel::{BoundedChannel, RecvOutcome, SendOutcome};
use crate::work_queue::WorkQueue;

verus! {

/// Where one worker stands in its loop.
pub enum WorkerState<U> {
    /// About to take the next item from the shared source.
    Ready,
    /// Has applied the operation to an item and waits to push the result.
    Holding(U),
    /// Has exited: the source was exhausted or the consumer went away.
    Finished,
}

/// Whether a worker state is counted: with `holding`, the workers that hold
/// a result; without, the workers that have not exited.
pub open spec fn counted<U>(s: WorkerState<U>, holding: bool) -> bool {
    if holding {
        s is Holding
    } else {
        !(s is Finished)
    }
}

/// How many of `ws` are counted (see `counted`).
pub open spec fn tally<U>(ws: Seq<WorkerState<U>>, holding: bool) -> nat
    decreases ws.len(),
{
    if ws.len() == 0 {
        0
    } else {
        tally(ws.drop_last(), holding) + if counted(ws.last(), holding) {
            1nat
        } else {
            0nat
        }
    }
}

proof fn lemma_tally_update<U>(ws: Seq<WorkerState<U>>, i: int, s: WorkerState<U>, holding: bool)
    requires
        0 <= i < ws.len(),
    ensures
        tally(ws.update(i, s), holding) + (if counted(ws[i], holding) {
            1nat
        } else {
            0nat
        }) == tally(ws, holding) + (if counted(s, holding) {
            1nat
        } else {
            0nat
        }),
    decreases ws.len(),
{
    let u = ws.update(i, s);
    if i == ws.len() - 1 {
        assert(u.drop_last() =~= ws.drop_last());
    } else {
        assert(u.drop_last() =~= ws.drop_last().update(i, s));
        lemma_tally_update(ws.drop_last(), i, s, holding);
    }
}

proof fn lemma_tally_zero<U>(ws: Seq<WorkerState<U>>, holding: bool)
    ensures
        tally(ws, holding) == 0 <==> forall|i: int| 0 <= i < ws.len() ==> !counted(#[trigger] ws[i], holding),
    decreases ws.len(),
{
    if ws.len() > 0 {
        lemma_tally_zero(ws.drop_last(), holding);
        assert forall|i: int| 0 <= i < ws.len() - 1 implies ws.drop_last()[i] == ws[i] by {}
        if tally(ws, holding) == 0 {
            assert forall|i: int| 0 <= i < ws.len() implies !counted(#[trigger] ws[i], holding) by {
                if i < ws.len() - 1 {
                    assert(ws.drop_last()[i] == ws[i]);
                }
            }
        }
    }
}

/// What a single step of a mapping run came to.
pub enum StepResult<U> {
    /// A worker took an item from the source and applied the operation.
    Pulled,
    /// A worker found the source exhausted and exited.
    Exhausted,
    /// A worker pushed its result into the output channel.
    Pushed,
    /// A worker's push found the output channel full: it keeps its result.
    Blocked,
    /// A worker's push found the consumer gone: the result is dropped and
    /// the worker exits.
    Dropped,
    /// The worker named has exited already, or there is no such worker.
    Idle,
    /// The consumer received a value.
    Received(U),
    /// The consumer found the channel empty while some worker still runs.
    Waiting,
    /// The consumer found the channel empty and every worker exited: the
    /// output sequence is over.
    Ended,
}

/// Who moves next in a mapping run.
pub enum Event {
    /// The worker of this number takes its next step.
    Worker(usize),
    /// The consumer pulls from the output channel.
    Consume,
}

/// One run of the bounded parallel mapper, advanced one step at a time: a
/// shared source handed out item by item, `n` workers that apply `op`, and an
/// output channel of capacity `n` read by one consumer.
#[verifier::reject_recursive_types(T)]
#[verifier::reject_recursive_types(U)]
pub struct Mapper<T, U, F: Fn(T) -> U> {
    queue: WorkQueue<T>,
    channel: BoundedChannel<U>,
    workers: Vec<WorkerState<U>>,
    op: F,
    source: Ghost<Seq<T>>,
    held: Ghost<Seq<int>>,
    sent_idx: Ghost<Seq<int>>,
    sent_vals: Ghost<Seq<U>>,
    received: Ghost<nat>,
}

impl<T, U, F: Fn(T) -> U> Mapper<T, U, F> {
    /// Every item the run started with, in source order.
    pub closed spec fn source(&self) -> Seq<T> {
        self.source@
    }

    pub closed spec fn op(&self) -> F {
        self.op
    }

    /// The items not yet taken by any worker.
    pub closed spec fn remaining(&self) -> Seq<T> {
        self.queue@
    }

    /// How many items the workers have taken so far.
    pub open spec fn taken(&self) -> int {
        self.source().len() - self.remaining().len()
    }

    pub closed spec fn workers(&self) -> Seq<WorkerState<U>> {
        self.workers@
    }

    /// The values pushed and not yet received, oldest first.
    pub closed spec fn buffered(&self) -> Seq<U> {
        self.channel.buffered()
    }

    pub closed spec fn consumer_present(&self) -> bool {
        self.channel.receiver_open_spec()
    }

    /// The values the consumer has received, in the order received.
    pub closed spec fn received(&self) -> Seq<U> {
        self.sent_vals@.take(self.received@ as int)
    }

    /// For each received value, the position in the source of the item it
    /// was computed from.
    pub closed spec fn origin(&self) -> Seq<int> {
        self.sent_idx@.take(self.received@ as int)
    }

    /// Every worker has exited and nothing waits in the channel.
    pub open spec fn is_done(&self) -> bool {
        &&& forall|w: int| 0 <= w < self.workers().len() ==> #[trigger] self.workers()[w] is Finished
        &&& self.buffered().len() == 0
    }

    pub closed spec fn wf(&self) -> bool {
        let src = self.source@;
        let taken = self.taken();
        let sent = self.sent_idx@;
        let ws = self.workers@;
        &&& ws.len() >= 1
        &&& self.channel.wf()
        &&& self.channel.capacity_spec() == ws.len()
        &&& self.channel.senders_spec() == tally(ws, false)
        &&& self.queue@.len() <= src.len()
        &&& self.queue@ == src.subrange(taken, src.len() as int)
        &&& forall|i: int| 0 <= i < src.len() ==> call_requires(self.op, (#[trigger] src[i],))
        &&& self.held@.len() == ws.len()
        &&& sent.len() == self.sent_vals@.len()
        &&& self.received@ <= sent.len()
        &&& self.channel.buffered() == self.sent_vals@.subrange(
            self.received@ as int,
            sent.len() as int,
        )
        &&& forall|k: int| 0 <= k < sent.len() ==> 0 <= #[trigger] sent[k] < taken
        &&& forall|k: int, l: int| 0 <= k < l < sent.len() ==> #[trigger] sent[k] != #[trigger] sent[l]
        &&& forall|k: int|
            0 <= k < sent.len() ==> call_ensures(self.op, (src[#[trigger] sent[k]],), self.sent_vals@[k])
        &&& forall|w: int|
            0 <= w < ws.len() && (#[trigger] ws[w] is Holding) ==> {
                &&& 0 <= self.held@[w] < taken
                &&& !sent.contains(self.held@[w])
                &&& call_ensures(self.op, (src[self.held@[w]],), ws[w]->Holding_0)
            }
        &&& forall|w: int, v: int|
            0 <= w < ws.len() && 0 <= v < ws.len() && w != v && (#[trigger] ws[w] is Holding)
                && (#[trigger] ws[v] is Holding) ==> self.held@[w] != self.held@[v]
        &&& self.channel.receiver_open_spec() ==> forall|w: int|
            0 <= w < ws.len() && (#[trigger] ws[w] is Finished) ==> self.queue@.len() == 0
        &&& self.channel.receiver_open_spec() ==> sent.len() + tally(ws, true) == taken
        &&& (self.channel.receiver_open_spec() && ws.len() == 1) ==> {
            &&& forall|k: int| 0 <= k < sent.len() ==> #[trigger] sent[k] == k
            &&& ws[0] is Holding ==> self.held@[0] == sent.len() && taken == sent.len() + 1
            &&& !(ws[0] is Holding) ==> taken == sent.len()
        }
    }

    /// A run over `items` with `n` workers, before any of them has moved.
    pub fn new(items: Vec<T>, op: F, n: usize) -> (m: Self)
        requires
            n >= 1,
            forall|i: int| 0 <= i < items@.len() ==> call_requires(op, (#[trigger] items@[i],)),
        ensures
            m.wf(),
            m.source() == items@,
            m.remaining() == items@,
            m.op() == op,
            m.workers().len() == n,
            forall|w: int| 0 <= w < n ==> #[trigger] m.workers()[w] is Ready,
            m.buffered().len() == 0,
            m.received().len() == 0,
            m.consumer_present(),
    {
        let ghost src = items@;
        let queue = WorkQueue::new(items);
        let mut workers: Vec<WorkerState<U>> = Vec::new();
        let mut i: usize = 0;
        while i < n
            invariant
                i <= n,
                workers@.len() == i,
                forall|w: int| 0 <= w < i ==> #[trigger] workers@[w] is Ready,
            decreases n - i,
        {
            workers.push(WorkerState::Ready);
            i = i + 1;
        }
        proof {
            lemma_tally_all(workers@);
        }
        let channel = BoundedChannel::new(n, n);
        let m = Mapper {
            queue,
            channel,
            workers,
            op,
            source: Ghost(src),
            held: Ghost(Seq::new(n as nat, |w: int| 0)),
            sent_idx: Ghost(Seq::empty()),
            sent_vals: Ghost(Seq::empty()),
            received: Ghost(0),
        };
        assert(m.queue@ =~= src.subrange(0, src.len() as int));
        assert(m.sent_vals@.take(0) =~= Seq::<U>::empty());
        assert(m.sent_vals@.subrange(0, 0) =~= Seq::<U>::empty());
        m
    }

    /// What one step of worker `w` does, from this state to `post`, given
    /// that it returned `r`.
    pub open spec fn worker_step(self, post: Self, w: usize, r: StepResult<U>) -> bool {
        &&& post.received() == self.received()
        &&& post.origin() == self.origin()
        &&& post.consumer_present() == self.consumer_present()
        &&& !(r is Received)
        &&& (w >= self.workers().len() || self.workers()[w as int] is Finished) ==> {
                &&& r is Idle
                &&& post.workers() == self.workers()
                &&& post.remaining() == self.remaining()
                &&& post.buffered() == self.buffered()
                }
        &&& w < self.workers().len() && self.workers()[w as int] is Ready
                && self.remaining().len() > 0 ==> {
                &&& r is Pulled
                &&& post.workers()[w as int] is Holding
                &&& call_ensures(
                    self.op(),
                    (self.remaining()[0],),
                    post.workers()[w as int]->Holding_0,
                )
                &&& post.workers() == self.workers().update(
                    w as int,
                    post.workers()[w as int],
                )
                &&& post.remaining() == self.remaining().drop_first()
                &&& post.buffered() == self.buffered()
                }
        &&& w < self.workers().len() && self.workers()[w as int] is Ready
                && self.remaining().len() == 0 ==> {
                &&& r is Exhausted
                &&& post.workers() == self.workers().update(
                    w as int,
                    WorkerState::Finished,
                )
                &&& post.remaining() == self.remaining()
                &&& post.buffered() == self.buffered()
                }
        &&& w < self.workers().len() && self.workers()[w as int] is Holding
                && self.consumer_present() && self.buffered().len() < self.workers().len() ==> {
                &&& r is Pushed
                &&& post.workers() == self.workers().update(w as int, WorkerState::Ready)
                &&& post.remaining() == self.remaining()
                &&& post.buffered() == self.buffered().push(
                    self.workers()[w as int]->Holding_0,
                )
                }
        &&& w < self.workers().len() && self.workers()[w as int] is Holding
                && self.consumer_present() && self.buffered().len() == self.workers().len() ==> {
                &&& r is Blocked
                &&& post.workers() == self.workers()
                &&& post.remaining() == self.remaining()
                &&& post.buffered() == self.buffered()
                }
        &&& w < self.workers().len() && self.workers()[w as int] is Holding
                && !self.consumer_present() ==> {
                &&& r is Dropped
                &&& post.workers() == self.workers().update(
                    w as int,
                    WorkerState::Finished,
                )
                &&& post.remaining() == self.remaining()
                &&& post.buffered() == self.buffered()
                }
    }

    /// What one pull of the consumer does, from this state to `post`, given
    /// that it returned `r`.
    pub open spec fn consumer_step(self, post: Self, r: StepResult<U>) -> bool {
        &&& post.workers() == self.workers()
        &&& post.remaining() == self.remaining()
        &&& post.consumer_present()
        &&& self.buffered().len() > 0 ==> {
                &&& r == StepResult::Received(self.buffered()[0])
                &&& post.buffered() == self.buffered().drop_first()
                &&& post.received() == self.received().push(self.buffered()[0])
                }
        &&& self.buffered().len() == 0 ==> {
                &&& post.buffered() == self.buffered()
                &&& post.received() == self.received()
                &&& post.origin() == self.origin()
                &&& (r is Ended <==> forall|w: int|
                    0 <= w < self.workers().len() ==> #[trigger] self.workers()[w] is Finished)
                &&& (r is Ended || r is Waiting)
                }
    }

    /// Worker `w` takes its next step: it takes an item and applies the
    /// operation, or exits on an exhausted source, or pushes the result it
    /// holds, which waits while the channel is full and is dropped, with the
    /// worker, once the consumer has gone.
    pub fn step_worker(&mut self, w: usize) -> (r: StepResult<U>)
        requires
            old(self).wf(),
        ensures
            final(self).wf(),
            final(self).source() == old(self).source(),
            final(self).op() == old(self).op(),
            final(self).workers().len() == old(self).workers().len(),
            old(self).worker_step(*final(self), w, r),
    {
        if w >= self.workers.len() {
            return StepResult::Idle;
        }
        let ghost old_ws = self.workers@;
        let ghost t = self.taken();
        let ghost sent = self.sent_idx@;
        let ghost src = self.source@;
        let mut st = WorkerState::Ready;
        self.workers.set_and_swap(w, &mut st);
        match st {
            WorkerState::Finished => {
                self.workers.set(w, WorkerState::Finished);
                assert(self.workers@ =~= old_ws);
                StepResult::Idle
            },
            WorkerState::Ready => {
                match self.queue.take_next() {
                    Some(x) => {
                        assert(x == src[t]);
                        let y = (self.op)(x);
                        self.workers.set(w, WorkerState::Holding(y));
                        self.held = Ghost(self.held@.update(w as int, t));
                        proof {
                            lemma_tally_update(old_ws, w as int, WorkerState::Holding(y), true);
                            lemma_tally_update(old_ws, w as int, WorkerState::Holding(y), false);
                            assert(self.workers@ =~= old_ws.update(w as int, WorkerState::Holding(y)));
                            assert(self.queue@ =~= src.subrange(self.taken(), src.len() as int));
                            if sent.contains(t) {
                                let k = choose|k: int| 0 <= k < sent.len() && sent[k] == t;
                                assert(sent[k] < t);
                            }
                        }
                        StepResult::Pulled
                    },
                    None => {
                        self.workers.set(w, WorkerState::Finished);
                        proof {
                            lemma_tally_update(old_ws, w as int, WorkerState::Finished, true);
                            lemma_tally_update(old_ws, w as int, WorkerState::Finished, false);
                            assert(self.workers@ =~= old_ws.update(w as int, WorkerState::Finished));
                        }
                        self.channel.drop_sender();
                        StepResult::Exhausted
                    },
                }
            },
            WorkerState::Holding(y) => {
                let ghost gy = y;
                let ghost h = self.held@[w as int];
                proof {
                    self.channel.lemma_bounded();
                }
                match self.channel.try_send(y) {
                    SendOutcome::Sent => {
                        self.workers.set(w, WorkerState::Ready);
                        self.sent_idx = Ghost(sent.push(h));
                        self.sent_vals = Ghost(self.sent_vals@.push(gy));
                        proof {
                            lemma_tally_update(old_ws, w as int, WorkerState::Ready, true);
                            lemma_tally_update(old_ws, w as int, WorkerState::Ready, false);
                            assert(self.workers@ =~= old_ws.update(w as int, WorkerState::Ready));
                            assert(self.sent_vals@.take(self.received@ as int)
                                =~= old(self).sent_vals@.take(self.received@ as int));
                            assert(self.sent_idx@.take(self.received@ as int)
                                =~= old(self).sent_idx@.take(self.received@ as int));
                            assert(self.channel.buffered() =~= self.sent_vals@.subrange(
                                self.received@ as int,
                                self.sent_vals@.len() as int,
                            ));
                            assert forall|v: int|
                                0 <= v < self.workers@.len() && (#[trigger] self.workers@[v] is Holding)
                                implies !self.sent_idx@.contains(self.held@[v]) by {
                                assert(old_ws[v] is Holding);
                                if self.sent_idx@.contains(self.held@[v]) {
                                    let k = choose|k: int|
                                        0 <= k < self.sent_idx@.len() && self.sent_idx@[k] == self.held@[v];
                                    if k < sent.len() {
                                        assert(sent.contains(self.held@[v]));
                                    }
                                }
                            }
                            assert forall|k: int, l: int|
                                0 <= k < l < self.sent_idx@.len() implies #[trigger] self.sent_idx@[k]
                                != #[trigger] self.sent_idx@[l] by {
                                if l == sent.len() {
                                    assert(sent[k] == self.sent_idx@[k]);
                                    assert(sent.contains(sent[k]));
                                }
                            }
                        }
                        StepResult::Pushed
                    },
                    SendOutcome::Full(y) => {
                        self.workers.set(w, WorkerState::Holding(y));
                        assert(self.workers@ =~= old_ws);
                        StepResult::Blocked
                    },
                    SendOutcome::Closed(_) => {
                        self.workers.set(w, WorkerState::Finished);
                        proof {
                            lemma_tally_update(old_ws, w as int, WorkerState::Finished, true);
                            lemma_tally_update(old_ws, w as int, WorkerState::Finished, false);
                            assert(self.workers@ =~= old_ws.update(w as int, WorkerState::Finished));
                        }
                        self.channel.drop_sender();
                        StepResult::Dropped
                    },
                }
            },
        }
    }

    /// The consumer pulls once: the oldest buffered value if there is one,
    /// else the end of the sequence once every worker has exited, else
    /// nothing yet.
    pub fn step_consumer(&mut self) -> (r: StepResult<U>)
        requires
            old(self).wf(),
            old(self).consumer_present(),
        ensures
            final(self).wf(),
            final(self).source() == old(self).source(),
            final(self).op() == old(self).op(),
            old(self).consumer_step(*final(self), r),
    {
        proof {
            lemma_tally_zero(self.workers@, false);
        }
        let ghost rc = self.received@ as int;
        let r = self.channel.try_recv();
        match r {
            RecvOutcome::Value(v) => {
                self.received = Ghost(self.received@ + 1);
                assert(self.sent_vals@.take(rc + 1) =~= self.sent_vals@.take(rc).push(
                    self.sent_vals@[rc],
                ));
                assert(old(self).channel.buffered()[0] == self.sent_vals@[rc]);
                assert(self.channel.buffered() =~= self.sent_vals@.subrange(
                    rc + 1,
                    self.sent_vals@.len() as int,
                ));
                StepResult::Received(v)
            },
            RecvOutcome::Empty => StepResult::Waiting,
            RecvOutcome::Ended => StepResult::Ended,
        }
    }

    /// Lets whoever `e` names take one step.
    pub fn step(&mut self, e: &Event) -> (r: StepResult<U>)
        requires
            old(self).wf(),
            old(self).consumer_present(),
        ensures
            final(self).wf(),
            final(self).source() == old(self).source(),
            final(self).op() == old(self).op(),
            final(self).workers().len() == old(self).workers().len(),
            final(self).consumer_present(),
            match e {
                Event::Worker(w) => old(self).worker_step(*final(self), *w, r),
                Event::Consume => old(self).consumer_step(*final(self), r),
            },
    {
        match e {
            Event::Worker(w) => self.step_worker(*w),
            Event::Consume => self.step_consumer(),
        }
    }

    /// The number of workers.
    pub fn worker_count(&self) -> (n: usize)
        requires
            self.wf(),
        ensures
            n == self.workers().len(),
    {
        self.workers.len()
    }

    /// How many items are still to be taken.
    pub fn remaining_len(&self) -> (n: usize)
        ensures
            n == self.remaining().len(),
    {
        self.queue.remaining()
    }

    /// How many values wait in the channel.
    pub fn buffered_len(&self) -> (n: usize)
        ensures
            n == self.buffered().len(),
    {
        self.channel.len()
    }

    /// Whether worker `w` holds a result it has not pushed yet.
    pub fn is_holding(&self, w: usize) -> (b: bool)
        requires
            w < self.workers().len(),
        ensures
            b == self.workers()[w as int] is Holding,
    {
        match &self.workers[w] {
            WorkerState::Holding(_) => true,
            _ => false,
        }
    }

    /// Whether worker `w` has exited.
    pub fn is_finished(&self, w: usize) -> (b: bool)
        requires
            w < self.workers().len(),
        ensures
            b == self.workers()[w as int] is Finished,
    {
        match &self.workers[w] {
            WorkerState::Finished => true,
            _ => false,
        }
    }

    /// The consumer receives everything that waits in the channel.
    pub fn receive_buffered(&mut self, into: &mut Vec<U>)
        requires
            old(self).wf(),
            old(self).consumer_present(),
        ensures
            final(self).wf(),
            final(self).source() == old(self).source(),
            final(self).op() == old(self).op(),
            final(self).workers() == old(self).workers(),
            final(self).remaining() == old(self).remaining(),
            final(self).consumer_present(),
            final(self).buffered().len() == 0,
            final(self).received() == old(self).received() + old(self).buffered(),
            final(into)@ == old(into)@ + old(self).buffered(),
    {
        while self.buffered_len() > 0
            invariant
                self.wf(),
                self.source() == old(self).source(),
                self.op() == old(self).op(),
                self.workers() == old(self).workers(),
                self.remaining() == old(self).remaining(),
                self.consumer_present(),
                old(self).received() + old(self).buffered() == self.received() + self.buffered(),
                old(into)@ + old(self).buffered() == into@ + self.buffered(),
            decreases self.buffered().len(),
        {
            let ghost b = self.buffered();
            let ghost rc = self.received();
            let ghost iv = into@;
            match self.step_consumer() {
                StepResult::Received(v) => {
                    into.push(v);
                    assert(rc + b =~= rc.push(b[0]) + b.drop_first());
                    assert(iv + b =~= iv.push(b[0]) + b.drop_first());
                },
                _ => {},
            }
        }
    }

    /// Runs the mapping to its end under a fixed order of steps, handing
    /// out every value still to come.
    pub fn drain(&mut self) -> (rest: Vec<U>)
        requires
            old(self).wf(),
            old(self).consumer_present(),
        ensures
            final(self).wf(),
            final(self).source() == old(self).source(),
            final(self).op() == old(self).op(),
            final(self).workers().len() == old(self).workers().len(),
            final(self).consumer_present(),
            final(self).is_done(),
            final(self).received() == old(self).received() + rest@,
    {
        let mut rest: Vec<U> = Vec::new();
        let n = self.worker_count();
        let mut w: usize = 0;
        // every result held by a worker reaches the channel
        while w < n
            invariant
                self.wf(),
                self.source() == old(self).source(),
                self.op() == old(self).op(),
                self.workers().len() == n,
                self.consumer_present(),
                self.received() == old(self).received() + rest@,
                w <= n,
                forall|v: int| 0 <= v < w ==> !(#[trigger] self.workers()[v] is Holding),
            decreases n - w,
        {
            self.receive_buffered(&mut rest);
            if self.is_holding(w) {
                self.step_worker(w);
            }
            w = w + 1;
        }
        // one worker takes the rest of the source
        while self.remaining_len() > 0
            invariant
                self.wf(),
                self.source() == old(self).source(),
                self.op() == old(self).op(),
                self.workers().len() == n,
                self.consumer_present(),
                self.received() == old(self).received() + rest@,
                forall|v: int| 0 <= v < n ==> !(#[trigger] self.workers()[v] is Holding),
            decreases self.remaining().len(),
        {
            assert(!(self.workers@[0] is Finished));
            let ghost ws0 = self.workers();
            self.step_worker(0);
            self.receive_buffered(&mut rest);
            self.step_worker(0);
            assert forall|v: int| 0 <= v < n implies !(#[trigger] self.workers()[v] is Holding) by {
                if v != 0 {
                    assert(self.workers()[v] == ws0[v]);
                }
            }
        }
        // every worker finds the source exhausted
        w = 0;
        while w < n
            invariant
                self.wf(),
                self.source() == old(self).source(),
                self.op() == old(self).op(),
                self.workers().len() == n,
                self.consumer_present(),
                self.received() == old(self).received() + rest@,
                self.remaining().len() == 0,
                w <= n,
                forall|v: int| 0 <= v < n ==> !(#[trigger] self.workers()[v] is Holding),
                forall|v: int| 0 <= v < w ==> #[trigger] self.workers()[v] is Finished,
            decreases n - w,
        {
            self.step_worker(w);
            w = w + 1;
        }
        self.receive_buffered(&mut rest);
        rest
    }

    /// The consumer goes away before the end. What waited in the channel is
    /// dropped, and every worker exits within two steps of its own: a value
    /// in flight is still computed, and its push then fails.
    pub fn abandon(&mut self)
        requires
            old(self).wf(),
        ensures
            final(self).wf(),
            final(self).source() == old(self).source(),
            final(self).op() == old(self).op(),
            final(self).workers().len() == old(self).workers().len(),
            final(self).received() == old(self).received(),
            !final(self).consumer_present(),
            final(self).is_done(),
    {
        let ghost rc = self.received@ as int;
        self.channel.close_receiver();
        self.sent_idx = Ghost(self.sent_idx@.take(rc));
        self.sent_vals = Ghost(self.sent_vals@.take(rc));
        proof {
            assert(self.sent_vals@.take(rc) =~= self.sent_vals@);
            assert(self.sent_idx@.take(rc) =~= self.sent_idx@);
            assert(self.sent_vals@.subrange(rc, rc) =~= Seq::<U>::empty());
            assert forall|v: int|
                0 <= v < self.workers@.len() && (#[trigger] self.workers@[v] is Holding)
                implies !self.sent_idx@.contains(self.held@[v]) by {
                if self.sent_idx@.contains(self.held@[v]) {
                    let k = choose|k: int|
                        0 <= k < self.sent_idx@.len() && self.sent_idx@[k] == self.held@[v];
                    assert(old(self).sent_idx@[k] == self.held@[v]);
                    assert(old(self).sent_idx@.contains(self.held@[v]));
                }
            }
        }
        let n = self.worker_count();
        let mut w: usize = 0;
        while w < n
            invariant
                self.wf(),
                self.source() == old(self).source(),
                self.op() == old(self).op(),
                self.workers().len() == n,
                self.received() == old(self).received(),
                !self.consumer_present(),
                self.buffered().len() == 0,
                w <= n,
                forall|v: int| 0 <= v < w ==> #[trigger] self.workers()[v] is Finished,
            decreases n - w,
        {
            let ghost ws0 = self.workers();
            self.step_worker(w);
            self.step_worker(w);
            assert forall|v: int| 0 <= v <= w implies #[trigger] self.workers()[v] is Finished by {
                if v < w {
                    assert(self.workers()[v] == ws0[v]);
                }
            }
            w = w + 1;
        }
    }


    /// Backpressure: the channel never holds more than one unread value per
    /// worker, so producers cannot run ahead of a slow consumer.
    pub proof fn lemma_backpressure(&self)
        requires
            self.wf(),
        ensures
            self.buffered().len() <= self.workers().len(),
    {
        self.channel.lemma_bounded();
    }


    /// Every item taken so far is accounted for while the consumer is
    /// present: it was received, or waits in the channel, or is held by a
    /// worker whose push has not gone through. So the workers run at most two
    /// items per worker ahead of the consumer: one buffered and one held.
    pub proof fn lemma_items_accounted(&self)
        requires
            self.wf(),
            self.consumer_present(),
        ensures
            self.taken() == self.received().len() + self.buffered().len() + tally(
                self.workers(),
                true,
            ),
            tally(self.workers(), true) <= self.workers().len(),
            self.taken() <= self.received().len() + 2 * self.workers().len(),
    {
        self.channel.lemma_bounded();
        lemma_tally_le_len(self.workers@, true);
    }

    /// Each value the consumer has received was computed by `op` from its
    /// own item of the source: no item is delivered twice. This holds also
    /// after the consumer has gone.
    pub proof fn lemma_received_from_distinct_items(&self)
        requires
            self.wf(),
        ensures
            self.origin().len() == self.received().len(),
            self.taken() <= self.source().len(),
            forall|k: int| 0 <= k < self.origin().len() ==> 0 <= #[trigger] self.origin()[k] < self.taken(),
            forall|k: int, l: int|
                0 <= k < l < self.origin().len() ==> #[trigger] self.origin()[k] != #[trigger] self.origin()[l],
            forall|k: int|
                0 <= k < self.origin().len() ==> call_ensures(
                    self.op(),
                    (self.source()[#[trigger] self.origin()[k]],),
                    self.received()[k],
                ),
    {
    }


    /// Never more workers hold a result than there are items in the source:
    /// with more workers than items, the extra ones find the source
    /// exhausted on their first pull and exit without applying `op` (see
    /// `worker_step`).
    pub proof fn lemma_busy_workers_bounded(&self)
        requires
            self.wf(),
            self.consumer_present(),
        ensures
            tally(self.workers(), true) <= self.taken() <= self.source().len(),
    {
    }

    /// At the end of a run that the consumer saw through, it has received
    /// one value for each item of the source: `origin` pairs them off one to
    /// one, and with a single worker in source order.
    pub proof fn lemma_done(&self)
        requires
            self.wf(),
            self.is_done(),
            self.consumer_present(),
        ensures
            self.received().len() == self.source().len(),
            self.origin().len() == self.source().len(),
            forall|k: int| 0 <= k < self.origin().len() ==> 0 <= #[trigger] self.origin()[k] < self.source().len(),
            forall|k: int, l: int|
                0 <= k < l < self.origin().len() ==> #[trigger] self.origin()[k] != #[trigger] self.origin()[l],
            forall|k: int|
                0 <= k < self.origin().len() ==> call_ensures(
                    self.op(),
                    (self.source()[#[trigger] self.origin()[k]],),
                    self.received()[k],
                ),
            self.workers().len() == 1 ==> forall|k: int|
                0 <= k < self.origin().len() ==> #[trigger] self.origin()[k] == k,
    {
        lemma_tally_zero(self.workers@, true);
        assert(self.workers@[0] is Finished);
        let rc = self.received@ as int;
        assert(self.sent_vals@.subrange(rc, self.sent_vals@.len() as int).len() == 0);
        assert(self.sent_idx@.take(rc) =~= self.sent_idx@);
        assert(self.sent_vals@.take(rc) =~= self.sent_vals@);
    }
}

proof fn lemma_tally_le_len<U>(ws: Seq<WorkerState<U>>, holding: bool)
    ensures
        tally(ws, holding) <= ws.len(),
    decreases ws.len(),
{
    if ws.len() > 0 {
        lemma_tally_le_len(ws.drop_last(), holding);
    }
}

proof fn lemma_tally_all<U>(ws: Seq<WorkerState<U>>)
    requires
        forall|w: int| 0 <= w < ws.len() ==> #[trigger] ws[w] is Ready,
    ensures
        tally(ws, false) == ws.len(),
        tally(ws, true) == 0,
    decreases ws.len(),
{
    if ws.len() > 0 {
        assert forall|w: int| 0 <= w < ws.len() - 1 implies #[trigger] ws.drop_last()[w] is Ready by {
            assert(ws.drop_last()[w] == ws[w]);
        }
        lemma_tally_all(ws.drop_last());
    }
}

} // verus!
