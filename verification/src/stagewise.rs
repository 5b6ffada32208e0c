//! The stage-by-stage runner: every stage runs to its end before the next
//! one starts. The source fills the lanes, each worker works off what waits
//! for it, and the sink drains the lanes one after the other, so that the
//! fragments arrive lane by lane and not in the order of emission; sorting
//! them by sequence number restores it.

use crate::distributor::{
    distribute, index_at, lane_of, lanes_of, lemma_fragment_has_one_lane, lemma_lanes_reassemble,
    lemma_round_robin_is_fair,
};
use crate::fragment::{stamped, Fragment};
use crate::moves::reversed;
use crate::reassembler::{in_sequence_order, lemma_in_sequence_order_exists, reassemble};
use crate::transform::{
    callable_along, deterministic, lemma_failure_stays, outcome, through, transformed, witnessed,
    witnessed_at,
};
use vstd::prelude::*;

verus! {

/// The fragments of a lane after `levels` levels: fragment `p` carries its
/// sequence number and its payload after those levels.
spec fn lane_after<T, F: Fn(usize, T) -> Option<T>>(
    f: F,
    levels: nat,
    lane: Seq<Fragment<T>>,
) -> Seq<Fragment<T>> {
    Seq::new(
        lane.len(),
        |p: int|
            Fragment { sequence: lane[p].sequence, payload: through(f, levels, lane[p].payload)->Some_0 },
    )
}

/// One worker works off its lane: it takes the fragments in their order and
/// transforms each. Stops at the first fragment on which the transform fails.
#[verifier::spinoff_prover]
fn work_off<T, F: Fn(usize, T) -> Option<T>>(
    waiting: Vec<Fragment<T>>,
    level: usize,
    transform: &F,
    Ghost(start): Ghost<Seq<Fragment<T>>>,
    Ghost(depth): Ghost<nat>,
) -> (done: Option<Vec<Fragment<T>>>)
    requires
        level < depth,
        deterministic(*transform),
        forall|p: int| 0 <= p < start.len() ==> callable_along(*transform, depth, (#[trigger] start[p]).payload),
        forall|p: int| 0 <= p < start.len() ==> through(*transform, level as nat, (#[trigger] start[p]).payload) is Some,
        forall|p: int| 0 <= p < start.len() ==> witnessed(*transform, level as nat, (#[trigger] start[p]).payload),
        waiting@ == lane_after(*transform, level as nat, start),
    ensures
        match done {
            Some(next) => {
                &&& next@ == lane_after(*transform, (level + 1) as nat, start)
                &&& forall|p: int|
                    0 <= p < start.len() ==> through(
                        *transform,
                        (level + 1) as nat,
                        (#[trigger] start[p]).payload,
                    ) is Some
                &&& forall|p: int|
                    0 <= p < start.len() ==> witnessed(
                        *transform,
                        (level + 1) as nat,
                        (#[trigger] start[p]).payload,
                    )
            },
            None => exists|p: int|
                0 <= p < start.len() && through(
                    *transform,
                    (level + 1) as nat,
                    (#[trigger] start[p]).payload,
                ) is None,
        },
{
    let ghost before = waiting@;
    let mut pending = reversed(waiting);
    let mut done: Vec<Fragment<T>> = Vec::new();
    while pending.len() > 0
        invariant
            level < depth,
            deterministic(*transform),
            before == lane_after(*transform, level as nat, start),
            forall|p: int|
                0 <= p < start.len() ==> callable_along(*transform, depth, (#[trigger] start[p]).payload),
            forall|p: int|
                0 <= p < start.len() ==> through(
                    *transform,
                    level as nat,
                    (#[trigger] start[p]).payload,
                ) is Some,
            forall|p: int|
                0 <= p < start.len() ==> witnessed(
                    *transform,
                    level as nat,
                    (#[trigger] start[p]).payload,
                ),
            pending.len() + done.len() == start.len(),
            forall|p: int| 0 <= p < pending.len() ==> pending[p] == before[before.len() - 1 - p],
            forall|p: int|
                0 <= p < done.len() ==> #[trigger] done[p] == lane_after(
                    *transform,
                    (level + 1) as nat,
                    start,
                )[p],
            forall|p: int|
                0 <= p < done.len() ==> through(
                    *transform,
                    (level + 1) as nat,
                    (#[trigger] start[p]).payload,
                ) is Some,
            forall|p: int|
                0 <= p < done.len() ==> witnessed(
                    *transform,
                    (level + 1) as nat,
                    (#[trigger] start[p]).payload,
                ),
        decreases pending.len(),
    {
        let ghost at = done.len() as int;
        let fragment = pending.pop().unwrap();
        let sequence: u64 = fragment.sequence;
        proof {
            assert(fragment == before[at]);
            assert(through(*transform, level as nat, start[at].payload) == Some(fragment.payload));
            assert(callable_along(*transform, depth, start[at].payload));
        }
        let result = transform(level, fragment.payload);
        proof {
            assert(result == outcome(*transform, level, fragment.payload));
            assert(through(*transform, (level + 1) as nat, start[at].payload) == result);
            assert(witnessed_at(*transform, level as nat, start[at].payload));
            assert(witnessed(*transform, level as nat, start[at].payload));
            assert(witnessed(*transform, (level + 1) as nat, start[at].payload));
        }
        match result {
            Some(payload) => {
                done.push(Fragment { sequence, payload });
            },
            None => {
                return None;
            },
        }
    }
    assert(done@ =~= lane_after(*transform, (level + 1) as nat, start));
    Some(done)
}

/// Runs `inputs` through `workers` lanes of `depth` levels, stage by stage:
/// the source distributes every fragment, each worker works off its lane,
/// the sink drains lane after lane and puts what it collected in sequence
/// order. Returns `None` if there is no lane, or if the transform fails on a
/// fragment.
#[verifier::spinoff_prover]
pub fn run_stage_by_stage<T, F: Fn(usize, T) -> Option<T>>(
    inputs: Vec<T>,
    workers: usize,
    depth: usize,
    transform: &F,
) -> (output: Option<Vec<T>>)
    requires
        deterministic(*transform),
        forall|i: int|
            0 <= i < inputs@.len() ==> callable_along(*transform, depth as nat, #[trigger] inputs@[i]),
    ensures
        output is Some <==> workers > 0 && forall|i: int|
            0 <= i < inputs@.len() ==> through(*transform, depth as nat, #[trigger] inputs@[i]) is Some,
        output matches Some(payloads) ==> {
            &&& payloads@ == transformed(*transform, depth as nat, inputs@)
            &&& forall|i: int|
                0 <= i < inputs@.len() ==> witnessed(
                    *transform,
                    depth as nat,
                    #[trigger] inputs@[i],
                )
        },
{
    let ghost original = inputs@;
    let ghost emission = stamped(original);
    let ghost d = depth as nat;
    let ghost w = workers as nat;
    let total: usize = inputs.len();
    let lanes = match distribute(inputs, workers) {
        Some(lanes) => lanes,
        None => {
            return None;
        },
    };
    let mut waiting = reversed(lanes);
    let mut arrivals: Vec<Fragment<T>> = Vec::new();
    let mut lane: usize = 0;
    let ghost goal = stamped(transformed(*transform, d, original));
    proof {
        assert(arrivals@ =~= lanes_of(goal, w).take(0).flatten());
        lemma_round_robin_is_fair(original.len(), w, 0);
    }
    while lane < workers
        invariant
            lane <= workers,
            w == workers,
            d == depth,
            emission == stamped(original),
            goal == stamped(transformed(*transform, d, original)),
            original == inputs@,
            original.len() == total,
            deterministic(*transform),
            forall|i: int|
                0 <= i < original.len() ==> callable_along(*transform, d, #[trigger] original[i]),
            waiting.len() + lane == workers,
            forall|p: int|
                0 <= p < waiting.len() ==> (#[trigger] waiting[p])@ == lane_of(
                    emission,
                    w,
                    (workers - 1 - p) as nat,
                ),
            arrivals@ == lanes_of(goal, w).take(lane as int).flatten(),
            forall|k: int, p: int|
                0 <= k < lane && 0 <= p < lane_of(emission, w, k as nat).len() ==> through(
                    *transform,
                    d,
                    (#[trigger] lane_of(emission, w, k as nat)[p]).payload,
                ) is Some && witnessed(*transform, d, lane_of(emission, w, k as nat)[p].payload),
        decreases workers - lane,
    {
        let mut current = waiting.pop().unwrap();
        let ghost start = lane_of(emission, w, lane as nat);
        proof {
            lemma_round_robin_is_fair(original.len(), w, lane as nat);
            assert forall|p: int| 0 <= p < start.len() implies callable_along(
                *transform,
                d,
                (#[trigger] start[p]).payload,
            ) && through(*transform, 0, start[p].payload) is Some && witnessed(
                *transform,
                0,
                start[p].payload,
            ) by {
                let i = index_at(w, lane as nat, p as nat);
                assert(i < original.len());
                assert(start[p] == emission[i as int]);
                assert(start[p].payload == original[i as int]);
            }
            assert(current@ =~= lane_after(*transform, 0, start));
        }
        let mut level: usize = 0;
        while level < depth
            invariant
                level <= depth,
                d == depth,
                deterministic(*transform),
                forall|p: int|
                    0 <= p < start.len() ==> callable_along(
                        *transform,
                        d,
                        (#[trigger] start[p]).payload,
                    ),
                forall|p: int|
                    0 <= p < start.len() ==> through(
                        *transform,
                        level as nat,
                        (#[trigger] start[p]).payload,
                    ) is Some,
                forall|p: int|
                    0 <= p < start.len() ==> witnessed(
                        *transform,
                        level as nat,
                        (#[trigger] start[p]).payload,
                    ),
                current@ == lane_after(*transform, level as nat, start),
                original == inputs@,
                start == lane_of(stamped(original), workers as nat, lane as nat),
                lane < workers,
            decreases depth - level,
        {
            match work_off(current, level, transform, Ghost(start), Ghost(d)) {
                Some(next) => {
                    current = next;
                },
                None => {
                    proof {
                        let p = choose|p: int|
                            0 <= p < start.len() && through(
                                *transform,
                                (level + 1) as nat,
                                (#[trigger] start[p]).payload,
                            ) is None;
                        lemma_round_robin_is_fair(
                            original.len(),
                            workers as nat,
                            lane as nat,
                        );
                        let i = index_at(workers as nat, lane as nat, p as nat);
                        assert(i < original.len());
                        assert(start[p].payload == original[i as int]);
                        lemma_failure_stays(*transform, (level + 1) as nat, d, original[i as int]);
                    }
                    return None;
                },
            }
            level = level + 1;
        }
        proof {
            let finished = lanes_of(goal, w)[lane as int];
            assert(finished.len() == start.len());
            assert forall|p: int| 0 <= p < start.len() implies current@[p] == finished[p] by {
                let i = index_at(w, lane as nat, p as nat);
                assert(i < original.len());
                assert(start[p] == emission[i as int]);
            }
            assert(current@ =~= finished);
            let taken = lanes_of(goal, w).take(lane as int);
            assert(lanes_of(goal, w).take(lane + 1) =~= taken.push(finished));
            taken.lemma_flatten_push(finished);
        }
        let ghost before = arrivals@;
        arrivals.append(&mut current);
        lane = lane + 1;
    }
    proof {
        assert(lanes_of(goal, w).take(lane as int) =~= lanes_of(goal, w));
        assert forall|i: int| 0 <= i < original.len() implies through(
            *transform,
            d,
            #[trigger] original[i],
        ) is Some && witnessed(*transform, d, original[i]) by {
            lemma_fragment_has_one_lane(emission, w, i as nat);
            let k = (i as nat % w) as int;
            let p = (i as nat / w) as int;
            assert(lane_of(emission, w, k as nat)[p] == emission[i]);
        }
    }
    let ghost collected = arrivals@;
    let output = reassemble(arrivals);
    proof {
        let sorted = in_sequence_order(collected);
        // What the sort gives is a reassembly of what was collected.
        lemma_in_sequence_order_exists(collected);
        lemma_lanes_reassemble(transformed(*transform, d, original), w, sorted);
        assert(output@ =~= transformed(*transform, d, original));
    }
    Some(output)
}

} // verus!
