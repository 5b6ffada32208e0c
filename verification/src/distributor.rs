//! Distribution at a fan-out point: a source hands fragment `i` to
//! destination `i mod W` of its ordered destination list.

use crate::fragment::{stamped, Fragment};
use crate::moves::reversed;
use crate::reassembler::{is_reassembly, lemma_reassembly_restores_emission};
use crate::stage_id::StageId;
use vstd::arithmetic::div_mod::{
    lemma_fundamental_div_mod, lemma_fundamental_div_mod_converse, lemma_small_mod,
};
use vstd::prelude::*;
use vstd::seq_lib::{lemma_multiset_commutative, to_multiset_build};

verus! {

/// How many of the first `total` fragments go to lane `lane` of `workers` lanes.
pub open spec fn lane_len(total: nat, workers: nat, lane: nat) -> nat {
    if lane < total % workers {
        total / workers + 1
    } else {
        total / workers
    }
}

/// The index in the emission of the fragment at place `place` of lane `lane`.
pub open spec fn index_at(workers: nat, lane: nat, place: nat) -> nat {
    lane + place * workers
}

/// The fragments that lane `lane` receives, in the order it receives them:
/// the fragments at the positions `lane`, `lane + W`, `lane + 2W`, ... of the emission.
pub open spec fn lane_of<T>(emitted: Seq<Fragment<T>>, workers: nat, lane: nat) -> Seq<Fragment<T>> {
    Seq::new(
        lane_len(emitted.len(), workers, lane),
        |p: int| emitted[index_at(workers, lane, p as nat) as int],
    )
}

/// The destination of fragment `index` under round-robin distribution.
pub open spec fn route(destinations: Seq<StageId>, index: nat) -> StageId {
    destinations[(index % destinations.len()) as int]
}

/// Quotient and remainder of the successor.
proof fn lemma_successor(index: nat, workers: nat)
    requires
        workers > 0,
    ensures
        index % workers < workers,
        index == workers * (index / workers) + index % workers,
        index % workers + 1 == workers ==> (index + 1) % workers == 0 && (index + 1) / workers
            == index / workers + 1,
        index % workers + 1 < workers ==> (index + 1) % workers == index % workers + 1 && (index
            + 1) / workers == index / workers,
{
    let i = index as int;
    let w = workers as int;
    lemma_fundamental_div_mod(i, w);
    let q = i / w;
    let r = i % w;
    if r + 1 == w {
        assert(i + 1 == (q + 1) * w + 0) by (nonlinear_arith)
            requires
                i == w * q + r,
                r + 1 == w,
        ;
        lemma_fundamental_div_mod_converse(i + 1, w, q + 1, 0);
    } else {
        assert(i + 1 == q * w + (r + 1)) by (nonlinear_arith)
            requires
                i == w * q + r,
        ;
        lemma_fundamental_div_mod_converse(i + 1, w, q, r + 1);
    }
}

/// One more fragment makes lane `total mod W` one longer and leaves the
/// other lanes as they are; before it, that lane held `total / W` fragments.
pub proof fn lemma_next_fragment_joins_one_lane(total: nat, workers: nat, lane: nat)
    requires
        workers > 0,
        lane < workers,
    ensures
        total % workers < workers,
        lane_len(total, workers, total % workers) == total / workers,
        lane_len(total, workers, lane) <= total,
        lane_len(total + 1, workers, lane) == lane_len(total, workers, lane) + (if lane == total
            % workers {
            1nat
        } else {
            0nat
        }),
        (total + 1) % workers == (if total % workers + 1 >= workers {
            0nat
        } else {
            total % workers + 1
        }),
{
    lemma_successor(total, workers);
    let w = workers as int;
    let q = total as int / w;
    assert(q <= total) by (nonlinear_arith)
        requires
            total == w * q + total as int % w,
            0 <= total as int % w,
            w >= 1,
            q >= 0 || total >= q,
    ;
    if lane < total % workers {
        assert(q + 1 <= total) by (nonlinear_arith)
            requires
                total == w * q + total as int % w,
                total as int % w >= 1,
                w >= 1,
                q >= 0 || total > q,
        ;
    }
}

/// The next fragment takes the next free place of its lane: fragment `total`
/// is the fragment at place `total / W` of lane `total mod W`.
pub proof fn lemma_next_place(total: nat, workers: nat)
    requires
        workers > 0,
    ensures
        total % workers < workers,
        lane_len(total, workers, total % workers) == total / workers,
        index_at(workers, total % workers, total / workers) == total,
{
    lemma_successor(total, workers);
    assert(total % workers + (total / workers) * workers == total) by (nonlinear_arith)
        requires
            total == workers * (total / workers) + total % workers,
    ;
}

/// Round-robin fairness. Lane `lane` of `workers` receives `floor(total / workers)`
/// fragments or one more, and never more than the ceiling; the fragment at
/// place `p` of the lane is fragment `lane + p * workers` of the emission,
/// whose index leaves the remainder `lane`.
pub proof fn lemma_round_robin_is_fair(total: nat, workers: nat, lane: nat)
    requires
        workers > 0,
        lane < workers,
    ensures
        lane_len(total, workers, lane) == total / workers || lane_len(total, workers, lane)
            == total / workers + 1,
        total % workers == 0 ==> lane_len(total, workers, lane) == total / workers,
        forall|p: nat|
            p < lane_len(total, workers, lane) ==> #[trigger] index_at(workers, lane, p) < total
                && index_at(workers, lane, p) % workers == lane,
{
    let w = workers as int;
    lemma_fundamental_div_mod(total as int, w);
    assert forall|p: nat| p < lane_len(total, workers, lane) implies #[trigger] index_at(
        workers,
        lane,
        p,
    ) < total && index_at(workers, lane, p) % workers == lane by {
        lemma_fundamental_div_mod_converse((lane + p * workers) as int, w, p as int, lane as int);
        assert(lane + p * workers < total) by (nonlinear_arith)
            requires
                total == w * (total as int / w) + total as int % w,
                0 <= lane < w,
                0 <= p,
                p < total as int / w || (p == total as int / w && lane < total as int % w),
                w == workers,
        ;
    }
}

/// Worker `j mod W` receives fragment `j`, as the fragment at place `j / W` of
/// its lane.
pub proof fn lemma_fragment_has_one_lane<T>(emitted: Seq<Fragment<T>>, workers: nat, j: nat)
    requires
        workers > 0,
        j < emitted.len(),
    ensures
        j % workers < workers,
        j / workers < lane_len(emitted.len(), workers, j % workers),
        lane_of(emitted, workers, j % workers)[(j / workers) as int] == emitted[j as int],
{
    let w = workers as int;
    let total = emitted.len() as int;
    lemma_fundamental_div_mod(j as int, w);
    lemma_fundamental_div_mod(total, w);
    assert(j as int / w < lane_len(emitted.len(), workers, j % workers)) by (nonlinear_arith)
        requires
            w > 0,
            0 <= j < total,
            j == w * (j as int / w) + j as int % w,
            total == w * (total / w) + total % w,
            0 <= j as int % w < w,
            0 <= total % w < w,
            lane_len(emitted.len(), workers, j % workers) == (if j as int % w < total % w {
                total / w + 1
            } else {
                total / w
            }),
    ;
    assert(j % workers + (j / workers) * workers == j) by (nonlinear_arith)
        requires
            j == w * (j as int / w) + j as int % w,
            w == workers,
    ;
}

/// The fragment at place `p` of lane `lane` is in no other lane and at no
/// other place: its index `lane + p * W` gives back both.
pub proof fn lemma_place_names_one_fragment(workers: nat, lane: nat, p: nat)
    requires
        lane < workers,
    ensures
        (lane + p * workers) % workers == lane,
        (lane + p * workers) / workers == p,
{
    lemma_fundamental_div_mod_converse(
        (lane + p * workers) as int,
        workers as int,
        p as int,
        lane as int,
    );
}

/// All lanes, in lane order.
pub open spec fn lanes_of<T>(emitted: Seq<Fragment<T>>, workers: nat) -> Seq<Seq<Fragment<T>>> {
    Seq::new(workers, |lane: int| lane_of(emitted, workers, lane as nat))
}

/// One more fragment changes one lane: it goes to the end of lane `n mod W`.
#[verifier::spinoff_prover]
proof fn lemma_lanes_grow<T>(emitted: Seq<Fragment<T>>, next: Fragment<T>, workers: nat)
    requires
        workers > 0,
    ensures
        emitted.len() % workers < workers,
        lanes_of(emitted.push(next), workers) == lanes_of(emitted, workers).update(
            (emitted.len() % workers) as int,
            lane_of(emitted, workers, emitted.len() % workers).push(next),
        ),
{
    let n = emitted.len();
    let to = n % workers;
    let longer = emitted.push(next);
    lemma_successor(n, workers);
    assert forall|lane: int| 0 <= lane < workers implies #[trigger] lanes_of(longer, workers)[lane]
        == lanes_of(emitted, workers).update(
        to as int,
        lane_of(emitted, workers, to).push(next),
    )[lane] by {
        lemma_next_fragment_joins_one_lane(n, workers, lane as nat);
        lemma_round_robin_is_fair(n, workers, lane as nat);
        lemma_round_robin_is_fair(n + 1, workers, lane as nat);
        let before = lane_of(emitted, workers, lane as nat);
        let after = lane_of(longer, workers, lane as nat);
        if lane == to {
            assert(to + (n / workers) * workers == n) by (nonlinear_arith)
                requires
                    n == workers * (n / workers) + n % workers,
                    to == n % workers,
            ;
            assert forall|p: int| 0 <= p < after.len() implies after[p] == before.push(next)[p] by {
                if p < before.len() {
                    assert(index_at(workers, lane as nat, p as nat) < n);
                }
            }
            assert(after =~= before.push(next));
        } else {
            assert forall|p: int| 0 <= p < after.len() implies after[p] == before[p] by {
                assert(index_at(workers, lane as nat, p as nat) < n);
            }
            assert(after =~= before);
        }
    }
    assert(lanes_of(longer, workers) =~= lanes_of(emitted, workers).update(
        to as int,
        lane_of(emitted, workers, to).push(next),
    ));
}

/// Appending a value to one of the runs adds that value, once, to what the
/// runs hold together.
#[verifier::spinoff_prover]
pub proof fn lemma_flatten_grows<A>(runs: Seq<Seq<A>>, at: int, value: A)
    requires
        0 <= at < runs.len(),
    ensures
        runs.update(at, runs[at].push(value)).flatten().to_multiset() == runs.flatten().to_multiset().insert(
            value,
        ),
    decreases runs.len(),
{
    let front = runs.drop_last();
    let last = runs.last();
    let grown = runs.update(at, runs[at].push(value));
    assert(runs =~= front.push(last));
    front.lemma_flatten_push(last);
    if at == runs.len() - 1 {
        assert(grown =~= front.push(last.push(value)));
        front.lemma_flatten_push(last.push(value));
        assert(front.flatten() + last.push(value) =~= (front.flatten() + last).push(value));
        to_multiset_build(front.flatten() + last, value);
    } else {
        let front_grown = front.update(at, front[at].push(value));
        assert(grown =~= front_grown.push(last));
        front_grown.lemma_flatten_push(last);
        lemma_flatten_grows(front, at, value);
        lemma_multiset_commutative(front_grown.flatten(), last);
        lemma_multiset_commutative(front.flatten(), last);
        assert(grown.flatten().to_multiset() =~= runs.flatten().to_multiset().insert(value));
    }
}

/// No loss at the fan-out: the lanes together hold every emitted fragment
/// exactly once, however many lanes there are.
pub proof fn lemma_lanes_hold_the_emission<T>(emitted: Seq<Fragment<T>>, workers: nat)
    requires
        workers > 0,
    ensures
        lanes_of(emitted, workers).flatten().to_multiset() == emitted.to_multiset(),
    decreases emitted.len(),
{
    if emitted.len() == 0 {
        let lanes = lanes_of(emitted, workers);
        assert forall|lane: int| 0 <= lane < lanes.len() implies (#[trigger] lanes[lane]).len()
            == 0 by {
            lemma_next_fragment_joins_one_lane(0, workers, lane as nat);
        }
        lemma_flatten_of_empty_runs(lanes);
        assert(lanes.flatten() =~= emitted);
    } else {
        let front = emitted.drop_last();
        let last = emitted.last();
        assert(emitted =~= front.push(last));
        lemma_lanes_hold_the_emission(front, workers);
        lemma_lanes_grow(front, last, workers);
        lemma_flatten_grows(lanes_of(front, workers), (front.len() % workers) as int, last);
        to_multiset_build(front, last);
    }
}

/// Runs that are all empty hold nothing together.
proof fn lemma_flatten_of_empty_runs<A>(runs: Seq<Seq<A>>)
    requires
        forall|i: int| 0 <= i < runs.len() ==> (#[trigger] runs[i]).len() == 0,
    ensures
        runs.flatten().len() == 0,
    decreases runs.len(),
{
    if runs.len() > 0 {
        let front = runs.drop_last();
        assert(runs =~= front.push(runs.last()));
        front.lemma_flatten_push(runs.last());
        lemma_flatten_of_empty_runs(front);
    }
}

/// Order preservation across fan-out and fan-in. Distribute the emission for
/// `inputs` round-robin over any number of lanes, let the sink drain the
/// lanes one after the other, and reassemble what it collected: the output is
/// the emission, fragment `i` at place `i`.
pub proof fn lemma_lanes_reassemble<T>(inputs: Seq<T>, workers: nat, output: Seq<Fragment<T>>)
    requires
        workers > 0,
        inputs.len() <= u64::MAX,
        is_reassembly(output, lanes_of(stamped(inputs), workers).flatten()),
    ensures
        output == stamped(inputs),
{
    lemma_lanes_hold_the_emission(stamped(inputs), workers);
    lemma_reassembly_restores_emission(
        inputs,
        lanes_of(stamped(inputs), workers).flatten(),
        output,
    );
}

/// Parallelism changes the time, not the result: whatever the numbers of
/// lanes of two runs on the same inputs, what the two sinks reassemble is the
/// same.
pub proof fn lemma_width_is_irrelevant<T>(
    inputs: Seq<T>,
    narrow: nat,
    wide: nat,
    narrow_output: Seq<Fragment<T>>,
    wide_output: Seq<Fragment<T>>,
)
    requires
        narrow > 0,
        wide > 0,
        inputs.len() <= u64::MAX,
        is_reassembly(narrow_output, lanes_of(stamped(inputs), narrow).flatten()),
        is_reassembly(wide_output, lanes_of(stamped(inputs), wide).flatten()),
    ensures
        narrow_output == wide_output,
{
    lemma_lanes_reassemble(inputs, narrow, narrow_output);
    lemma_lanes_reassemble(inputs, wide, wide_output);
}

/// The work of a source, done at once: stamps payload `i` with the sequence
/// number `i` and puts it at the end of lane `i mod W`. Returns `None` if
/// there is no lane.
#[verifier::spinoff_prover]
pub fn distribute<T>(payloads: Vec<T>, workers: usize) -> (lanes: Option<Vec<Vec<Fragment<T>>>>)
    ensures
        workers == 0 <==> lanes is None,
        lanes matches Some(filled) ==> {
            &&& filled@.len() == workers
            &&& forall|lane: int|
                0 <= lane < workers ==> (#[trigger] filled@[lane])@ == lane_of(
                    stamped(payloads@),
                    workers as nat,
                    lane as nat,
                )
        },
{
    if workers == 0 {
        return None;
    }
    let ghost emission = stamped(payloads@);
    let total: usize = payloads.len();
    let mut pending = reversed(payloads);
    let mut lanes: Vec<Vec<Fragment<T>>> = Vec::new();
    let mut lane: usize = 0;
    while lane < workers
        invariant
            lane <= workers,
            lanes@.len() == lane,
            forall|k: int| 0 <= k < lane ==> (#[trigger] lanes@[k])@.len() == 0,
        decreases workers - lane,
    {
        lanes.push(Vec::new());
        lane = lane + 1;
    }
    let mut index: usize = 0;
    let mut order: usize = 0;
    proof {
        assert forall|k: int| 0 <= k < workers implies (#[trigger] lanes@[k])@ == lane_of(
            emission.take(0),
            workers as nat,
            k as nat,
        ) by {
            lemma_next_fragment_joins_one_lane(0, workers as nat, k as nat);
            assert(lanes@[k]@ =~= lane_of(emission.take(0), workers as nat, k as nat));
        }
        lemma_next_fragment_joins_one_lane(0, workers as nat, 0);
    }
    while pending.len() > 0
        invariant
            workers > 0,
            total == emission.len(),
            order + pending.len() == total,
            index == order as nat % workers as nat,
            forall|p: int|
                0 <= p < pending.len() ==> #[trigger] pending[p] == emission[total - 1 - p].payload,
            forall|i: int| 0 <= i < total ==> (#[trigger] emission[i]).sequence == i as u64,
            lanes@.len() == workers,
            forall|k: int|
                0 <= k < workers ==> (#[trigger] lanes@[k])@ == lane_of(
                    emission.take(order as int),
                    workers as nat,
                    k as nat,
                ),
        decreases pending.len(),
    {
        let payload = pending.pop().unwrap();
        let fragment = Fragment { sequence: order as u64, payload };
        let ghost before = lanes@;
        proof {
            assert(fragment == emission[order as int]);
            lemma_lanes_grow(emission.take(order as int), fragment, workers as nat);
            assert(emission.take(order as int).push(fragment) =~= emission.take(order + 1));
            lemma_next_fragment_joins_one_lane(order as nat, workers as nat, index as nat);
        }
        lanes[index].push(fragment);
        proof {
            let grown = lanes_of(emission.take(order + 1), workers as nat);
            assert forall|k: int| 0 <= k < workers implies (#[trigger] lanes@[k])@ == lane_of(
                emission.take(order + 1),
                workers as nat,
                k as nat,
            ) by {
                assert(grown[k] == lane_of(emission.take(order + 1), workers as nat, k as nat));
                if k != index {
                    assert(lanes@[k] == before[k]);
                    assert(lanes_of(emission.take(order as int), workers as nat)[k] == lane_of(
                        emission.take(order as int),
                        workers as nat,
                        k as nat,
                    ));
                }
            }
        }
        index = index + 1;
        order = order + 1;
        if index >= workers {
            index = 0;
        }
    }
    proof {
        assert(emission.take(order as int) =~= emission);
    }
    Some(lanes)
}

/// One decision of a distributor: where the next fragment goes, and the
/// sequence number it is stamped with.
#[derive(Clone, Copy, Debug, PartialEq, Eq, Structural)]
pub struct Assignment {
    pub destination: StageId,
    /// The place of the destination in the destination list.
    pub slot: usize,
    pub sequence: u64,
}

/// The round-robin policy of a source stage over its ordered destination list.
pub struct Distributor {
    destinations: Vec<StageId>,
    progress: Progress,
}

/// Where a distributor stands: the place in the destination list of the next
/// fragment's destination, and the number of fragments assigned so far.
struct Progress {
    cursor: usize,
    emitted: u64,
}

impl Distributor {
    #[verifier::type_invariant]
    spec fn cursor_follows_count(self) -> bool {
        &&& self.destinations.len() > 0
        &&& self.progress.cursor == self.progress.emitted as nat % self.destinations@.len()
    }

    /// The destination list, in the order it was given.
    pub closed spec fn destinations(&self) -> Seq<StageId> {
        self.destinations@
    }

    /// The number of fragments assigned so far: the next sequence number.
    pub closed spec fn emitted(&self) -> u64 {
        self.progress.emitted
    }

    /// A distributor over `destinations`, or `None` if the list is empty.
    pub fn new(destinations: Vec<StageId>) -> (distributor: Option<Distributor>)
        ensures
            destinations.len() == 0 <==> distributor is None,
            distributor matches Some(d) ==> d.destinations() == destinations@ && d.emitted() == 0,
    {
        if destinations.len() == 0 {
            None
        } else {
            proof {
                lemma_small_mod(0, destinations@.len());
            }
            Some(Distributor { destinations, progress: Progress { cursor: 0, emitted: 0 } })
        }
    }

    /// The number of fragments assigned so far.
    pub fn count(&self) -> (count: u64)
        ensures
            count == self.emitted(),
    {
        self.progress.emitted
    }

    /// The number of destinations.
    pub fn width(&self) -> (width: usize)
        ensures
            width == self.destinations().len(),
            width > 0,
    {
        proof {
            use_type_invariant(self);
        }
        self.destinations.len()
    }

    /// Assigns the next fragment: it goes to destination `i mod W` and is
    /// stamped `i`, where `i` fragments were assigned before. Returns `None`,
    /// and changes nothing, once the sequence numbers are used up.
    pub fn assign(&mut self) -> (assignment: Option<Assignment>)
        ensures
            final(self).destinations() == old(self).destinations(),
            old(self).emitted() == u64::MAX <==> assignment is None,
            assignment is None ==> final(self).emitted() == old(self).emitted(),
            assignment matches Some(a) ==> {
                &&& a.sequence == old(self).emitted()
                &&& a.slot == old(self).emitted() as nat % old(self).destinations().len()
                &&& a.destination == route(old(self).destinations(), old(self).emitted() as nat)
                &&& final(self).emitted() == old(self).emitted() + 1
            },
    {
        proof {
            use_type_invariant(&*self);
            lemma_successor(self.progress.emitted as nat, self.destinations@.len());
        }
        let cursor: usize = self.progress.cursor;
        let emitted: u64 = self.progress.emitted;
        if emitted == u64::MAX {
            return None;
        }
        let assignment = Assignment {
            destination: self.destinations[cursor],
            slot: cursor,
            sequence: emitted,
        };
        let next: usize = if cursor + 1 >= self.destinations.len() {
            0
        } else {
            cursor + 1
        };
        self.progress = Progress { cursor: next, emitted: emitted + 1 };
        Some(assignment)
    }
}

} // verus!
