use vstd::prelude::*;

use crate::mapper::{Event, Mapper, StepResult};

verus! {

broadcast use vstd::seq_lib::group_to_multiset_ensures, vstd::multiset::group_multiset_axioms;

/// `origin` pairs `len` outputs one to one with `len` source positions.
pub open spec fn is_pairing(origin: Seq<int>, len: nat) -> bool {
    &&& origin.len() == len
    &&& forall|k: int| 0 <= k < len ==> 0 <= #[trigger] origin[k] < len
    &&& forall|k: int, l: int| 0 <= k < l < len ==> #[trigger] origin[k] != #[trigger] origin[l]
}

/// `out` is `op` applied to each item of `src` exactly once, in some order.
pub open spec fn is_rearranged_map<T, U, F: Fn(T) -> U>(src: Seq<T>, out: Seq<U>, op: F) -> bool {
    exists|origin: Seq<int>|
        #![trigger is_pairing(origin, src.len())]
        is_pairing(origin, src.len()) && out.len() == src.len() && forall|k: int|
            0 <= k < out.len() ==> call_ensures(op, (src[#[trigger] origin[k]],), out[k])
}

/// Maps `op` over `items` with `n` workers, the consumer pulling until the
/// end. `schedule` is the interleaving of steps the run starts with; whatever
/// it is, every item is mapped exactly once, and a single worker delivers in
/// source order.
pub fn parallel_map<T, U, F: Fn(T) -> U>(items: Vec<T>, op: F, n: usize, schedule: &Vec<Event>) -> (out: Vec<U>)
    requires
        n >= 1,
        forall|i: int| 0 <= i < items@.len() ==> call_requires(op, (#[trigger] items@[i],)),
    ensures
        out@.len() == items@.len(),
        is_rearranged_map(items@, out@, op),
        n == 1 ==> forall|k: int| 0 <= k < out@.len() ==> call_ensures(op, (items@[k],), #[trigger] out@[k]),
{
    let ghost src = items@;
    let mut m = Mapper::new(items, op, n);
    let mut out: Vec<U> = Vec::new();
    let mut i: usize = 0;
    while i < schedule.len()
        invariant
            m.wf(),
            m.source() == src,
            m.op() == op,
            m.workers().len() == n,
            m.consumer_present(),
            m.received() == out@,
            i <= schedule.len(),
        decreases schedule.len() - i,
    {
        match m.step(&schedule[i]) {
            StepResult::Received(v) => {
                out.push(v);
            },
            _ => {},
        }
        i = i + 1;
    }
    let mut rest = m.drain();
    out.append(&mut rest);
    proof {
        m.lemma_done();
        let origin = m.origin();
        assert(is_pairing(origin, src.len()));
        if n == 1 {
            assert forall|k: int| 0 <= k < out@.len() implies call_ensures(
                op,
                (src[k],),
                #[trigger] out@[k],
            ) by {
                assert(origin[k] == k);
            }
        }
    }
    out
}

/// `origin` pairs its outputs one to one with distinct source positions
/// below `len`.
pub open spec fn is_partial_pairing(origin: Seq<int>, len: nat) -> bool {
    &&& origin.len() <= len
    &&& forall|k: int| 0 <= k < origin.len() ==> 0 <= #[trigger] origin[k] < len
    &&& forall|k: int, l: int| 0 <= k < l < origin.len() ==> #[trigger] origin[k] != #[trigger] origin[l]
}

/// `out` is `op` applied to some of the items of `src`, each at most once,
/// in some order.
pub open spec fn is_partial_rearranged_map<T, U, F: Fn(T) -> U>(src: Seq<T>, out: Seq<U>, op: F) -> bool {
    exists|origin: Seq<int>|
        #![trigger is_partial_pairing(origin, src.len())]
        is_partial_pairing(origin, src.len()) && origin.len() == out.len() && forall|k: int|
            0 <= k < out.len() ==> call_ensures(op, (src[#[trigger] origin[k]],), out[k])
}

/// Maps `op` over `items` with `n` workers, but the consumer goes away once
/// the steps of `schedule` are taken. Nothing fails: what the consumer had
/// received is returned, each value from an item of its own, and the run
/// comes back with every worker exited and nothing left in the channel.
pub fn parallel_map_then_drop<T, U, F: Fn(T) -> U>(
    items: Vec<T>,
    op: F,
    n: usize,
    schedule: &Vec<Event>,
) -> (r: (Vec<U>, Mapper<T, U, F>))
    requires
        n >= 1,
        forall|i: int| 0 <= i < items@.len() ==> call_requires(op, (#[trigger] items@[i],)),
    ensures
        is_partial_rearranged_map(items@, r.0@, op),
        r.0@ == r.1.received(),
        r.1.source() == items@,
        r.1.workers().len() == n,
        !r.1.consumer_present(),
        r.1.is_done(),
{
    let ghost src = items@;
    let mut m = Mapper::new(items, op, n);
    let mut out: Vec<U> = Vec::new();
    let mut i: usize = 0;
    while i < schedule.len()
        invariant
            m.wf(),
            m.source() == src,
            m.op() == op,
            m.workers().len() == n,
            m.consumer_present(),
            m.received() == out@,
            i <= schedule.len(),
        decreases schedule.len() - i,
    {
        match m.step(&schedule[i]) {
            StepResult::Received(v) => {
                out.push(v);
            },
            _ => {},
        }
        i = i + 1;
    }
    m.abandon();
    proof {
        m.lemma_received_from_distinct_items();
        let origin = m.origin();
        lemma_injective_range_len(origin, src.len());
        assert(is_partial_pairing(origin, src.len()));
    }
    (out, m)
}

/// An injective sequence of positions below `len` is no longer than `len`.
proof fn lemma_injective_range_len(s: Seq<int>, len: nat)
    requires
        forall|k: int| 0 <= k < s.len() ==> 0 <= #[trigger] s[k] < len,
        forall|k: int, l: int| 0 <= k < l < s.len() ==> #[trigger] s[k] != #[trigger] s[l],
    ensures
        s.len() <= len,
{
    broadcast use vstd::set::group_set_axioms, vstd::seq_lib::group_seq_properties;

    let t = s.to_set();
    assert forall|i: int, j: int| 0 <= i < s.len() && 0 <= j < s.len() && i != j implies s[i]
        != s[j] by {
        if i < j {
            assert(s[i] != s[j]);
        } else {
            assert(s[j] != s[i]);
        }
    }
    s.unique_seq_to_set();
    let range = vstd::set_lib::set_int_range(0, len as int);
    assert forall|x: int| t.contains(x) implies range.contains(x) by {
        assert(s.contains(x));
    }
    vstd::set_lib::lemma_int_range(0, len as int);
    vstd::set_lib::lemma_len_subset(t, range);
}

/// Read through a pairing, the images `g(0)`, ..., `g(len - 1)` form the same
/// multiset as in position order. The induction takes the last output away
/// and moves the positions above the one it came from down by one.
proof fn lemma_pairing_multiset<U>(origin: Seq<int>, len: nat, g: spec_fn(int) -> U)
    requires
        is_pairing(origin, len),
    ensures
        origin.map_values(g).to_multiset() == Seq::new(len, |i: int| g(i)).to_multiset(),
    decreases len,
{
    if len == 0 {
        assert(origin.map_values(g) =~= Seq::<U>::empty());
        assert(Seq::new(len, |i: int| g(i)) =~= Seq::<U>::empty());
    } else {
        let o = origin[len - 1];
        let front = origin.drop_last();
        let shifted = front.map_values(|x: int| if x > o { x - 1 } else { x });
        let g2 = |i: int| if i >= o { g(i + 1) } else { g(i) };
        assert forall|k: int| 0 <= k < len - 1 implies 0 <= #[trigger] shifted[k] < len - 1 by {
            assert(origin[k] != origin[len - 1]);
        }
        assert forall|k: int, l: int| 0 <= k < l < len - 1 implies #[trigger] shifted[k]
            != #[trigger] shifted[l] by {
            assert(origin[k] != origin[l]);
            assert(origin[k] != o);
            assert(origin[l] != o);
        }
        lemma_pairing_multiset(shifted, (len - 1) as nat, g2);
        assert forall|k: int| 0 <= k < len - 1 implies shifted.map_values(g2)[k]
            == front.map_values(g)[k] by {
            assert(origin[k] != o);
        }
        assert(shifted.map_values(g2) =~= front.map_values(g));
        let full = Seq::new(len, |i: int| g(i));
        assert(Seq::new((len - 1) as nat, |i: int| g2(i)) =~= full.remove(o));
        assert(origin.map_values(g) =~= front.map_values(g).push(g(o)));
        assert(full[o] == g(o));
        assert(full.to_multiset().count(g(o)) > 0) by {
            assert(full.contains(g(o)));
        }
        assert(full.to_multiset().remove(g(o)).insert(g(o)) =~= full.to_multiset());
    }
}

/// With an operation whose result is a function `f` of its argument, the
/// outputs of a mapping run are, as a multiset, the images under `f` of the
/// items: the order is the only thing the workers' race decides.
pub proof fn lemma_outputs_are_images<T, U, F: Fn(T) -> U>(
    src: Seq<T>,
    out: Seq<U>,
    op: F,
    f: spec_fn(T) -> U,
)
    requires
        is_rearranged_map(src, out, op),
        forall|x: T, y: U| call_ensures(op, (x,), y) ==> y == f(x),
    ensures
        out.to_multiset() == src.map_values(f).to_multiset(),
{
    let origin = choose|origin: Seq<int>|
        #![trigger is_pairing(origin, src.len())]
        is_pairing(origin, src.len()) && out.len() == src.len() && forall|k: int|
            0 <= k < out.len() ==> call_ensures(op, (src[#[trigger] origin[k]],), out[k]);
    let g = |i: int| f(src[i]);
    lemma_pairing_multiset(origin, src.len(), g);
    assert forall|k: int| 0 <= k < out.len() implies out[k] == origin.map_values(g)[k] by {
        assert(call_ensures(op, (src[origin[k]],), out[k]));
    }
    assert(out =~= origin.map_values(g));
    assert(src.map_values(f) =~= Seq::new(src.len(), |i: int| g(i)));
}

} // verus!
