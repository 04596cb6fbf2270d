use parmap::channel::{BoundedChannel, RecvOutcome, SendOutcome};
use parmap::deferred::{Deferred, Poll};
use parmap::mapper::{Event, Mapper, StepResult};
use parmap::parallel::{parallel_map, parallel_map_then_drop};
use parmap::run;
use parmap::work_queue::WorkQueue;

fn round_robin(workers: usize, rounds: usize) -> Vec<Event> {
    let mut schedule = Vec::new();
    for _ in 0..rounds {
        for w in 0..workers {
            schedule.push(Event::Worker(w));
        }
        schedule.push(Event::Consume);
    }
    schedule
}

fn sorted(mut v: Vec<usize>) -> Vec<usize> {
    v.sort();
    v
}

#[test]
fn squares_with_five_workers() {
    let items: Vec<usize> = (0..10).collect();
    let out = parallel_map(items, |i: usize| i * i, 5, &round_robin(5, 2));
    assert_eq!(out.len(), 10);
    assert_eq!(sorted(out), vec![0, 1, 4, 9, 16, 25, 36, 49, 64, 81]);
}

#[test]
fn run_yields_the_ten_squares() {
    let out = run();
    assert_eq!(out.len(), 10);
    assert_eq!(sorted(out), vec![0, 1, 4, 9, 16, 25, 36, 49, 64, 81]);
}

#[test]
fn empty_source_yields_nothing() {
    let items: Vec<usize> = Vec::new();
    let out = parallel_map(items, |i: usize| i, 3, &round_robin(3, 2));
    assert!(out.is_empty());
}

#[test]
fn empty_source_consumer_sees_the_end() {
    let mut m = Mapper::new(Vec::<usize>::new(), |i: usize| i, 3);
    assert!(matches!(m.step_consumer(), StepResult::Waiting));
    for w in 0..3 {
        assert!(matches!(m.step_worker(w), StepResult::Exhausted));
    }
    assert!(matches!(m.step_consumer(), StepResult::Ended));
}

#[test]
fn single_worker_keeps_source_order() {
    let items: Vec<u64> = vec![5, 3, 9, 1, 7, 2];
    let schedule = vec![
        Event::Worker(0),
        Event::Worker(0),
        Event::Worker(0),
        Event::Consume,
        Event::Worker(0),
        Event::Worker(0),
        Event::Consume,
        Event::Consume,
    ];
    let out = parallel_map(items, |x: u64| x + 100, 1, &schedule);
    assert_eq!(out, vec![105, 103, 109, 101, 107, 102]);
}

#[test]
fn more_workers_than_items() {
    let items: Vec<usize> = vec![1, 2, 3];
    let out = parallel_map(items, |x: usize| x * 10, 8, &round_robin(8, 3));
    assert_eq!(out.len(), 3);
    assert_eq!(sorted(out), vec![10, 20, 30]);
}

#[test]
fn more_workers_than_items_extra_workers_exit_at_once() {
    let mut m = Mapper::new(vec![1usize, 2], |x: usize| x, 4);
    assert!(matches!(m.step_worker(0), StepResult::Pulled));
    assert!(matches!(m.step_worker(1), StepResult::Pulled));
    assert!(matches!(m.step_worker(2), StepResult::Exhausted));
    assert!(matches!(m.step_worker(3), StepResult::Exhausted));
    assert!(m.is_finished(2));
    assert!(m.is_finished(3));
    assert!(!m.is_finished(0));
}

#[test]
fn outputs_follow_completion_order() {
    let mut m = Mapper::new(vec![1usize, 2], |x: usize| x * 2, 2);
    assert!(matches!(m.step(&Event::Worker(0)), StepResult::Pulled));
    assert!(matches!(m.step(&Event::Worker(1)), StepResult::Pulled));
    assert!(matches!(m.step(&Event::Worker(1)), StepResult::Pushed));
    assert!(matches!(m.step(&Event::Worker(0)), StepResult::Pushed));
    assert!(matches!(m.step(&Event::Consume), StepResult::Received(4)));
    assert!(matches!(m.step(&Event::Consume), StepResult::Received(2)));
    assert!(matches!(m.step(&Event::Consume), StepResult::Waiting));
}

#[test]
fn multiset_of_outputs_for_any_schedule() {
    let items: Vec<usize> = (0..20).collect();
    let expected: Vec<usize> = (0..20).map(|x| x * 3 + 1).collect();
    let schedules = vec![
        Vec::new(),
        round_robin(4, 10),
        vec![Event::Worker(3), Event::Worker(3), Event::Worker(2), Event::Consume, Event::Worker(3)],
        vec![Event::Consume, Event::Worker(9), Event::Worker(1), Event::Worker(1)],
    ];
    for s in schedules.iter() {
        let out = parallel_map(items.clone(), |x: usize| x * 3 + 1, 4, s);
        assert_eq!(sorted(out), expected);
    }
}

#[test]
fn full_channel_blocks_producer() {
    let mut m = Mapper::new(vec![1usize, 2, 3], |x: usize| x, 2);
    for w in 0..2 {
        assert!(matches!(m.step_worker(w), StepResult::Pulled));
        assert!(matches!(m.step_worker(w), StepResult::Pushed));
    }
    assert_eq!(m.buffered_len(), 2);
    assert!(matches!(m.step_worker(0), StepResult::Pulled));
    assert!(matches!(m.step_worker(0), StepResult::Blocked));
    assert!(m.is_holding(0));
    assert!(matches!(m.step_consumer(), StepResult::Received(1)));
    assert!(matches!(m.step_worker(0), StepResult::Pushed));
    assert_eq!(m.buffered_len(), 2);
}

#[test]
fn step_of_unknown_worker_does_nothing() {
    let mut m = Mapper::new(vec![1usize], |x: usize| x, 1);
    assert!(matches!(m.step_worker(5), StepResult::Idle));
    assert_eq!(m.remaining_len(), 1);
}

#[test]
fn dropping_consumer_partway_lets_every_worker_exit() {
    let items: Vec<usize> = (0..50).collect();
    let mut m = Mapper::new(items, |x: usize| x + 1, 4);
    for e in round_robin(4, 3).iter() {
        m.step(e);
    }
    m.abandon();
    for w in 0..m.worker_count() {
        assert!(m.is_finished(w));
    }
    assert_eq!(m.buffered_len(), 0);
}

#[test]
fn abandoned_worker_finishes_its_item_first() {
    let mut m = Mapper::new(vec![1usize, 2, 3], |x: usize| x, 1);
    assert!(matches!(m.step_worker(0), StepResult::Pulled));
    m.abandon();
    assert!(m.is_finished(0));
    assert_eq!(m.remaining_len(), 2);
}

#[test]
fn drain_delivers_what_is_left() {
    let mut m = Mapper::new(vec![4usize, 5, 6], |x: usize| x * x, 2);
    assert!(matches!(m.step_worker(1), StepResult::Pulled));
    let rest = m.drain();
    assert_eq!(sorted(rest), vec![16, 25, 36]);
    assert!(matches!(m.step_consumer(), StepResult::Ended));
}

#[test]
fn work_queue_hands_out_in_order_once() {
    let mut q = WorkQueue::new(vec!['a', 'b', 'c']);
    assert_eq!(q.remaining(), 3);
    assert_eq!(q.take_next(), Some('a'));
    assert_eq!(q.take_next(), Some('b'));
    assert_eq!(q.take_next(), Some('c'));
    assert!(q.is_exhausted());
    assert_eq!(q.take_next(), None);
}

#[test]
fn channel_fifo_capacity_and_end() {
    let mut c: BoundedChannel<u8> = BoundedChannel::new(2, 1);
    assert!(matches!(c.try_send(1), SendOutcome::Sent));
    assert!(matches!(c.try_send(2), SendOutcome::Sent));
    assert!(matches!(c.try_send(3), SendOutcome::Full(3)));
    assert_eq!(c.len(), 2);
    assert!(matches!(c.try_recv(), RecvOutcome::Value(1)));
    assert!(matches!(c.try_recv(), RecvOutcome::Value(2)));
    assert!(matches!(c.try_recv(), RecvOutcome::Empty));
    c.drop_sender();
    assert_eq!(c.senders(), 0);
    assert!(matches!(c.try_recv(), RecvOutcome::Ended));
}

#[test]
fn channel_closed_receiver_refuses_values() {
    let mut c: BoundedChannel<u8> = BoundedChannel::new(3, 2);
    assert!(matches!(c.try_send(7), SendOutcome::Sent));
    c.close_receiver();
    assert!(!c.is_receiver_open());
    assert_eq!(c.len(), 0);
    assert!(matches!(c.try_send(8), SendOutcome::Closed(8)));
    assert_eq!(c.capacity(), 3);
}

#[test]
fn deferred_value_arrives_after_caller_gave_up_waiting() {
    let mut d: Deferred<u32> = Deferred::new();
    // the caller's deadline passes before the computation delivers
    assert!(matches!(d.poll(), Poll::NotYet));
    assert!(d.resolve(42));
    assert!(matches!(d.poll(), Poll::Value(42)));
    assert!(matches!(d.poll(), Poll::ChannelClosed));
}

#[test]
fn deferred_second_resolution_is_ignored() {
    let mut d: Deferred<&str> = Deferred::new();
    assert!(d.resolve("first"));
    assert!(!d.resolve("second"));
    assert!(matches!(d.poll(), Poll::Value("first")));
}

#[test]
fn deferred_sender_gone_reports_closed() {
    let mut d: Deferred<u32> = Deferred::new();
    d.drop_sender();
    assert!(matches!(d.poll(), Poll::ChannelClosed));
    assert!(!d.resolve(1));
}

#[test]
fn failing_item_reaches_the_consumer_as_a_tagged_result() {
    let items: Vec<i32> = vec![4, -1, 9, -7];
    let op = |x: i32| -> Result<i32, String> {
        if x < 0 {
            Err(format!("negative input {}", x))
        } else {
            Ok(x * 2)
        }
    };
    let out = parallel_map(items, op, 2, &round_robin(2, 3));
    assert_eq!(out.len(), 4);
    let mut oks: Vec<i32> = out.iter().filter_map(|r| r.clone().ok()).collect();
    oks.sort();
    let mut errs: Vec<String> = out.iter().filter_map(|r| r.clone().err()).collect();
    errs.sort();
    assert_eq!(oks, vec![8, 18]);
    assert_eq!(errs, vec!["negative input -1".to_string(), "negative input -7".to_string()]);
}

#[test]
fn dropping_consumer_after_some_values_returns_them_and_ends_every_worker() {
    let items: Vec<usize> = (0..30).collect();
    let (out, m) = parallel_map_then_drop(items, |x: usize| x * 2, 3, &round_robin(3, 4));
    assert!(!out.is_empty());
    assert!(out.len() < 30);
    let mut seen = out.clone();
    seen.sort();
    seen.dedup();
    assert_eq!(seen.len(), out.len());
    assert!(out.iter().all(|v| v % 2 == 0 && *v < 60));
    for w in 0..m.worker_count() {
        assert!(m.is_finished(w));
    }
    assert_eq!(m.buffered_len(), 0);
}

#[test]
fn dropping_consumer_before_any_value() {
    let items: Vec<usize> = (0..5).collect();
    let (out, m) = parallel_map_then_drop(items, |x: usize| x, 2, &Vec::new());
    assert!(out.is_empty());
    assert!(m.is_finished(0));
    assert!(m.is_finished(1));
    // each worker finishes the item it takes next, then its push fails
    assert_eq!(m.remaining_len(), 3);
}
