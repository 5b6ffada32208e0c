//! The runner: builds the pipeline of a configuration, drives every stage to
//! `Terminated`, and hands back the reassembled output.
//!
//! The stages are run cooperatively, one step at a time. A fragment is
//! stamped and sent by the source, received, transformed and sent on by each
//! worker of its lane, and received by the sink, before the source emits the
//! next one; the channels carry every fragment, and the closures travel down
//! the lanes when the source is done.

use crate::channel::{Channel, ChannelState};
use crate::distributor::{lane_len, lemma_next_fragment_joins_one_lane, Distributor};
use crate::fragment::{ordered, Fragment};
use crate::layout::{build_pipeline, lays_out, worker_id, PipelineLayout};
use crate::moves::reversed;
use crate::reassembler::lemma_order_is_determined;
use crate::sink::Sink;
use crate::stage::{advance, all_producers, DrainPolicy, StageEvent, StageState};
use crate::stage_id::StageId;
use crate::transform::{
    callable_along, deterministic, fails_at, outcome, through, transformed, witnessed, witnessed_at,
};
use crate::worker::{Phase, Worker, WorkerView};
use vstd::prelude::*;

verus! {

/// What a run is built from. It is fixed before the run starts.
#[derive(Clone, Copy, Debug, PartialEq, Eq, Structural)]
pub struct PipelineConfig {
    /// The number of parallel lanes.
    pub workers: usize,
    /// The number of worker stages in each lane.
    pub depth: usize,
    /// The number of fragments that a channel holds at most.
    pub capacity: usize,
}

/// Why a run did not give an output.
#[derive(Clone, Copy, Debug, PartialEq, Eq, Structural)]
pub enum RunError {
    /// The configuration names no lane.
    NoWorkers,
    /// The configuration names no worker stage.
    NoStages,
    /// The channels would hold nothing.
    ZeroCapacity,
    /// The graph would have more stages than there are handles.
    TooManyStages,
    /// The transform failed on a fragment; the run was given up.
    TransformFailed { sequence: u64, level: usize, stage: StageId },
}

/// What became of one stage.
#[derive(Clone, Copy, Debug, PartialEq, Eq, Structural)]
pub struct StageReport {
    pub stage: StageId,
    pub state: StageState,
    /// The number of fragments that the stage handled.
    pub handled: usize,
}

/// The result of a run that came to its end.
pub struct RunReport<T> {
    /// The payloads, in the order of emission.
    pub output: Vec<T>,
    pub source: StageReport,
    pub sink: StageReport,
    /// `lanes[k][j]` reports on the worker at level `j` of lane `k`.
    pub lanes: Vec<Vec<StageReport>>,
}

/// What is wrong with the configuration, if anything.
pub open spec fn config_error(config: PipelineConfig) -> Option<RunError> {
    if config.workers == 0 {
        Some(RunError::NoWorkers)
    } else if config.depth == 0 {
        Some(RunError::NoStages)
    } else if config.capacity == 0 {
        Some(RunError::ZeroCapacity)
    } else if 2 + config.workers * config.depth > usize::MAX {
        Some(RunError::TooManyStages)
    } else {
        None
    }
}

/// Closure propagation and fairness, as the report shows them: every stage
/// is terminated; source and sink handled every fragment, and each worker of
/// lane `k` the fragments `k`, `k + W`, `k + 2W`, ... and no others.
pub open spec fn all_terminated<T>(report: RunReport<T>, config: PipelineConfig, total: nat) -> bool {
    &&& report.source == (StageReport {
        stage: StageId(0),
        state: StageState::Terminated,
        handled: total as usize,
    })
    &&& report.sink == (StageReport {
        stage: StageId(1),
        state: StageState::Terminated,
        handled: total as usize,
    })
    &&& report.lanes@.len() == config.workers
    &&& forall|lane: int|
        0 <= lane < config.workers ==> (#[trigger] report.lanes@[lane])@ == Seq::new(
            config.depth as nat,
            |level: int|
                StageReport {
                    stage: worker_id(config.depth as nat, true, lane as nat, level as nat),
                    state: StageState::Terminated,
                    handled: lane_len(total, config.workers as nat, lane as nat) as usize,
                },
        )
}

/// One lane at run time: channel `j` feeds the worker at level `j`, the last
/// channel feeds the sink.
pub(crate) struct Lane<T> {
    pub(crate) channels: Vec<Channel<T>>,
    pub(crate) workers: Vec<Worker<T>>,
}

/// A channel with nothing on its way.
pub(crate) open spec fn quiet<T>(channel: ChannelState<T>, capacity: nat, closed: bool) -> bool {
    &&& channel.queued.len() == 0
    &&& channel.capacity == capacity
    &&& channel.closed == closed
    &&& !channel.broken
}

/// A channel with exactly one fragment on its way.
pub(crate) open spec fn carries<T>(channel: ChannelState<T>, capacity: nat, fragment: Fragment<T>) -> bool {
    &&& channel.queued.len() == 1
    &&& channel.queued[0] == fragment
    &&& channel.capacity == capacity
    &&& !channel.closed
    &&& !channel.broken
}

pub(crate) open spec fn lane_shape<T>(lane: Lane<T>, depth: nat) -> bool {
    &&& lane.channels@.len() == depth + 1
    &&& lane.workers@.len() == depth
}

/// The worker at level `level` in phase `phase`, with `count` fragments received.
pub(crate) open spec fn worker_in<T>(worker: WorkerView<T>, level: int, phase: Phase<T>, count: nat) -> bool {
    worker == (WorkerView { level: level as usize, phase, handled: count as usize })
}

/// Every worker of the lane waits for input, and has received `count`
/// fragments; the channels before the last are empty and open.
pub(crate) open spec fn lane_waiting<T>(lane: Lane<T>, depth: nat, capacity: nat, count: nat) -> bool {
    &&& lane_shape(lane, depth)
    &&& forall|j: int| 0 <= j < depth ==> quiet((#[trigger] lane.channels@[j])@, capacity, false)
    &&& forall|j: int|
        0 <= j < depth ==> worker_in((#[trigger] lane.workers@[j])@, j, Phase::Waiting, count)
}

/// The lane is at rest: its workers wait, and nothing is on its way to the sink.
pub(crate) open spec fn lane_idle<T>(lane: Lane<T>, depth: nat, capacity: nat, count: nat) -> bool {
    &&& lane_waiting(lane, depth, capacity, count)
    &&& quiet(lane.channels@[depth as int]@, capacity, false)
}

/// Every worker of the lane is terminated and every channel closed and empty.
pub(crate) open spec fn lane_done<T>(lane: Lane<T>, depth: nat, capacity: nat, count: nat) -> bool {
    &&& lane_shape(lane, depth)
    &&& forall|j: int| 0 <= j <= depth ==> quiet((#[trigger] lane.channels@[j])@, capacity, true)
    &&& forall|j: int|
        0 <= j < depth ==> worker_in((#[trigger] lane.workers@[j])@, j, Phase::Terminated, count)
}

/// A lane at rest, with its channels and workers.
pub(crate) fn new_lane<T>(depth: usize, capacity: usize) -> (lane: Lane<T>)
    requires
        capacity > 0,
        depth < usize::MAX,
    ensures
        lane_idle(lane, depth as nat, capacity as nat, 0),
{
    let mut channels: Vec<Channel<T>> = Vec::new();
    let mut workers: Vec<Worker<T>> = Vec::new();
    let mut level: usize = 0;
    while level < depth
        invariant
            level <= depth,
            capacity > 0,
            channels@.len() == level,
            workers@.len() == level,
            forall|j: int| 0 <= j < level ==> quiet((#[trigger] channels@[j])@, capacity as nat, false),
            forall|j: int|
                0 <= j < level ==> worker_in((#[trigger] workers@[j])@, j, Phase::Waiting, 0),
        decreases depth - level,
    {
        let channel: Channel<T> = Channel::new(capacity).unwrap();
        channels.push(channel);
        workers.push(Worker::new(level));
        level = level + 1;
    }
    let last: Channel<T> = Channel::new(capacity).unwrap();
    channels.push(last);
    Lane { channels, workers }
}

/// The steps of one fragment in its lane: the source sends it, and each
/// worker in turn receives it, transforms it and sends it on, until it waits
/// in the last channel for the sink. Gives the level of the worker whose
/// transform failed, if one did.
#[verifier::spinoff_prover]
fn drive<T, F: Fn(usize, T) -> Option<T>>(
    lane: &mut Lane<T>,
    fragment: Fragment<T>,
    transform: &F,
    depth: usize,
    Ghost(capacity): Ghost<nat>,
    Ghost(count): Ghost<nat>,
) -> (failed: Option<usize>)
    requires
        lane_idle(*old(lane), depth as nat, capacity, count),
        capacity > 0,
        count < usize::MAX,
        deterministic(*transform),
        callable_along(*transform, depth as nat, fragment.payload),
    ensures
        match failed {
            None => {
                &&& witnessed(*transform, depth as nat, fragment.payload)
                &&& through(*transform, depth as nat, fragment.payload) matches Some(payload)
                &&& lane_waiting(*final(lane), depth as nat, capacity, count + 1)
                &&& carries(
                    final(lane).channels@[depth as int]@,
                    capacity,
                    Fragment { sequence: fragment.sequence, payload },
                )
            },
            Some(level) => level < depth && fails_at(*transform, level as nat, fragment.payload)
                && witnessed(*transform, (level + 1) as nat, fragment.payload),
        },
{
    let ghost first = fragment.payload;
    let ghost sequence = fragment.sequence;
    let sent = lane.channels[0].send(fragment);
    assert(sent is Ok);
    let mut level: usize = 0;
    while level < depth
        invariant
            level <= depth,
            capacity > 0,
            count < usize::MAX,
            deterministic(*transform),
            callable_along(*transform, depth as nat, first),
            first == fragment.payload,
            sequence == fragment.sequence,
            witnessed(*transform, level as nat, first),
            lane_shape(*lane, depth as nat),
            forall|j: int|
                0 <= j <= depth && j != level ==> quiet(
                    (#[trigger] lane.channels@[j])@,
                    capacity,
                    false,
                ),
            through(*transform, level as nat, first) matches Some(payload) && carries(
                lane.channels@[level as int]@,
                capacity,
                Fragment { sequence, payload },
            ),
            forall|j: int|
                0 <= j < depth ==> worker_in(
                    (#[trigger] lane.workers@[j])@,
                    j,
                    Phase::Waiting,
                    if j < level {
                        count + 1
                    } else {
                        count
                    },
                ),
        decreases depth - level,
    {
        let ghost before = *lane;
        let ghost arrived = lane.channels@[level as int]@.queued[0];
        assert(worker_in(before.workers@[level as int]@, level as int, Phase::Waiting, count));
        let received = lane.workers[level].receive_from(&mut lane.channels[level]);
        proof {
            assert(through(*transform, level as nat, first) == Some(arrived.payload));
            assert(lane.workers@[level as int]@.phase == Phase::Processing(arrived));
        }
        let worked = lane.workers[level].process(transform);
        proof {
            let result = outcome(*transform, level, arrived.payload);
            assert(through(*transform, (level + 1) as nat, first) == result);
            assert(witnessed_at(*transform, level as nat, first));
        }
        match worked {
            Some(StageEvent::TransformFailed) => {
                return Some(level);
            },
            _ => {},
        }
        let passed = lane.workers[level].send_to(&mut lane.channels[level + 1]);
        proof {
            assert(passed == Some(StageEvent::Sent));
            assert forall|j: int| 0 <= j <= depth && j != level + 1 implies quiet(
                (#[trigger] lane.channels@[j])@,
                capacity,
                false,
            ) by {
                if j != level {
                    assert(lane.channels@[j] == before.channels@[j]);
                }
            }
            assert forall|j: int| 0 <= j < depth implies worker_in(
                (#[trigger] lane.workers@[j])@,
                j,
                Phase::Waiting,
                if j < level + 1 {
                    count + 1
                } else {
                    count
                },
            ) by {
                if j != level {
                    assert(lane.workers@[j] == before.workers@[j]);
                }
            }
        }
        level = level + 1;
    }
    None
}

/// The source has closed the first channel of the lane: each worker in turn
/// finds its input closed and empty, closes its output and terminates.
#[verifier::spinoff_prover]
fn shut_lane<T>(lane: &mut Lane<T>, depth: usize, Ghost(capacity): Ghost<nat>, Ghost(count): Ghost<nat>)
    requires
        lane_shape(*old(lane), depth as nat),
        quiet(old(lane).channels@[0]@, capacity, true),
        forall|j: int| 1 <= j <= depth ==> quiet((#[trigger] old(lane).channels@[j])@, capacity, false),
        forall|j: int|
            0 <= j < depth ==> worker_in(
                (#[trigger] old(lane).workers@[j])@,
                j,
                Phase::Waiting,
                count,
            ),
    ensures
        lane_done(*final(lane), depth as nat, capacity, count),
{
    let mut level: usize = 0;
    while level < depth
        invariant
            level <= depth,
            lane_shape(*lane, depth as nat),
            forall|j: int| 0 <= j <= level ==> quiet((#[trigger] lane.channels@[j])@, capacity, true),
            forall|j: int|
                level < j <= depth ==> quiet((#[trigger] lane.channels@[j])@, capacity, false),
            forall|j: int|
                0 <= j < depth ==> worker_in(
                    (#[trigger] lane.workers@[j])@,
                    j,
                    if j < level {
                        Phase::Terminated
                    } else {
                        Phase::Waiting
                    },
                    count,
                ),
        decreases depth - level,
    {
        let ghost before = *lane;
        assert(worker_in(before.workers@[level as int]@, level as int, Phase::Waiting, count));
        let found = lane.workers[level].receive_from(&mut lane.channels[level]);
        assert(found == Some(StageEvent::InputsExhausted));
        let closed = lane.workers[level].close_output(&mut lane.channels[level + 1]);
        proof {
            assert(closed == Some(StageEvent::OutputsClosed));
            assert forall|j: int| 0 <= j <= level + 1 implies quiet(
                (#[trigger] lane.channels@[j])@,
                capacity,
                true,
            ) by {
                if j <= level {
                    assert(lane.channels@[j]@ == before.channels@[j]@);
                }
            }
            assert forall|j: int| level + 1 < j <= depth implies quiet(
                (#[trigger] lane.channels@[j])@,
                capacity,
                false,
            ) by {
                assert(lane.channels@[j] == before.channels@[j]);
            }
            assert forall|j: int| 0 <= j < depth implies worker_in(
                (#[trigger] lane.workers@[j])@,
                j,
                if j < level + 1 {
                    Phase::Terminated
                } else {
                    Phase::Waiting
                },
                count,
            ) by {
                if j != level {
                    assert(lane.workers@[j] == before.workers@[j]);
                }
            }
        }
        level = level + 1;
    }
}

/// The fragments `0 .. count` of the output: fragment `i` carries the
/// sequence number `i` and input `i` after all levels.
spec fn delivered<T, F: Fn(usize, T) -> Option<T>>(
    f: F,
    depth: nat,
    inputs: Seq<T>,
    count: nat,
) -> Seq<Fragment<T>> {
    Seq::new(
        count,
        |i: int| Fragment { sequence: i as u64, payload: through(f, depth, inputs[i])->Some_0 },
    )
}

/// The handles of the workers at level `level` of every lane, in lane order.
pub(crate) fn level_ids(layout: &PipelineLayout, level: usize, Ghost(depth): Ghost<nat>) -> (ids: Vec<StageId>)
    requires
        lays_out(*layout, layout.lanes@.len(), depth, true),
        level < depth,
    ensures
        ids@ == Seq::new(
            layout.lanes@.len(),
            |lane: int| worker_id(depth, true, lane as nat, level as nat),
        ),
{
    let mut ids: Vec<StageId> = Vec::new();
    let mut lane: usize = 0;
    while lane < layout.lanes.len()
        invariant
            lane <= layout.lanes@.len(),
            lays_out(*layout, layout.lanes@.len(), depth, true),
            level < depth,
            ids@ == Seq::new(lane as nat, |k: int| worker_id(depth, true, k as nat, level as nat)),
        decreases layout.lanes@.len() - lane,
    {
        assert(layout.lanes@[lane as int]@.len() == depth);
        ids.push(layout.lanes[lane][level]);
        lane = lane + 1;
        assert(ids@ =~= Seq::new(
            lane as nat,
            |k: int| worker_id(depth, true, k as nat, level as nat),
        ));
    }
    ids
}

/// Reports on the workers of the lanes.
#[verifier::spinoff_prover]
fn report_lanes<T>(
    lanes: &Vec<Lane<T>>,
    layout: &PipelineLayout,
    config: &PipelineConfig,
    Ghost(total): Ghost<nat>,
) -> (reports: Vec<Vec<StageReport>>)
    requires
        lays_out(*layout, config.workers as nat, config.depth as nat, true),
        lanes@.len() == config.workers,
        forall|k: int|
            0 <= k < config.workers ==> lane_done(
                #[trigger] lanes@[k],
                config.depth as nat,
                config.capacity as nat,
                lane_len(total, config.workers as nat, k as nat),
            ),
    ensures
        reports@.len() == config.workers,
        forall|lane: int|
            0 <= lane < config.workers ==> (#[trigger] reports@[lane])@ == Seq::new(
                config.depth as nat,
                |level: int|
                    StageReport {
                        stage: worker_id(config.depth as nat, true, lane as nat, level as nat),
                        state: StageState::Terminated,
                        handled: lane_len(total, config.workers as nat, lane as nat) as usize,
                    },
            ),
{
    let mut reports: Vec<Vec<StageReport>> = Vec::new();
    let mut k: usize = 0;
    while k < config.workers
        invariant
            k <= config.workers,
            lays_out(*layout, config.workers as nat, config.depth as nat, true),
            lanes@.len() == config.workers,
            forall|k: int|
                0 <= k < config.workers ==> lane_done(
                    #[trigger] lanes@[k],
                    config.depth as nat,
                    config.capacity as nat,
                    lane_len(total, config.workers as nat, k as nat),
                ),
            reports@.len() == k,
            forall|lane: int|
                0 <= lane < k ==> (#[trigger] reports@[lane])@ == Seq::new(
                    config.depth as nat,
                    |level: int|
                        StageReport {
                            stage: worker_id(config.depth as nat, true, lane as nat, level as nat),
                            state: StageState::Terminated,
                            handled: lane_len(total, config.workers as nat, lane as nat) as usize,
                        },
                ),
        decreases config.workers - k,
    {
        let lane = &lanes[k];
        let ids = &layout.lanes[k];
        assert(lane_done(
            lanes@[k as int],
            config.depth as nat,
            config.capacity as nat,
            lane_len(total, config.workers as nat, k as nat),
        ));
        assert(layout.lanes@[k as int]@.len() == config.depth);
        let mut row: Vec<StageReport> = Vec::new();
        let mut level: usize = 0;
        while level < config.depth
            invariant
                level <= config.depth,
                k < config.workers,
                ids@ == Seq::new(
                    config.depth as nat,
                    |j: int| worker_id(config.depth as nat, true, k as nat, j as nat),
                ),
                lane_done(
                    *lane,
                    config.depth as nat,
                    config.capacity as nat,
                    lane_len(total, config.workers as nat, k as nat),
                ),
                row@ == Seq::new(
                    level as nat,
                    |j: int|
                        StageReport {
                            stage: worker_id(config.depth as nat, true, k as nat, j as nat),
                            state: StageState::Terminated,
                            handled: lane_len(total, config.workers as nat, k as nat) as usize,
                        },
                ),
            decreases config.depth - level,
        {
            assert(worker_in(
                lane.workers@[level as int]@,
                level as int,
                Phase::Terminated,
                lane_len(total, config.workers as nat, k as nat),
            ));
            row.push(
                StageReport {
                    stage: ids[level],
                    state: lane.workers[level].state(),
                    handled: lane.workers[level].handled(),
                },
            );
            level = level + 1;
            assert(row@ =~= Seq::new(
                level as nat,
                |j: int|
                    StageReport {
                        stage: worker_id(config.depth as nat, true, k as nat, j as nat),
                        state: StageState::Terminated,
                        handled: lane_len(total, config.workers as nat, k as nat) as usize,
                    },
            ));
        }
        reports.push(row);
        k = k + 1;
    }
    reports
}

/// Checks the configuration before any stage starts.
pub(crate) fn check_config(config: &PipelineConfig) -> (error: Option<RunError>)
    ensures
        error == config_error(*config),
{
    if config.workers == 0 {
        Some(RunError::NoWorkers)
    } else if config.depth == 0 {
        Some(RunError::NoStages)
    } else if config.capacity == 0 {
        Some(RunError::ZeroCapacity)
    } else {
        match config.workers.checked_mul(config.depth) {
            None => Some(RunError::TooManyStages),
            Some(product) => if product > usize::MAX - 2 {
                Some(RunError::TooManyStages)
            } else {
                None
            },
        }
    }
}

/// Runs the pipeline of `config` on `inputs` to its end.
///
/// The source stamps input `i` with the sequence number `i` and hands it to
/// lane `i mod W`; the workers of the lane apply `transform(level, payload)`
/// level by level; the sink collects what the lanes deliver, going round the
/// lanes, and puts it in sequence order. When the inputs are used up the
/// source closes its outputs, and the closure travels down every lane to the
/// sink. A configuration error is reported before any stage starts; a failed
/// transform gives up the run.
#[verifier::spinoff_prover]
pub fn run<T, F: Fn(usize, T) -> Option<T>>(
    inputs: Vec<T>,
    config: &PipelineConfig,
    transform: &F,
) -> (result: Result<RunReport<T>, RunError>)
    requires
        deterministic(*transform),
        forall|i: int|
            0 <= i < inputs@.len() ==> callable_along(
                *transform,
                config.depth as nat,
                #[trigger] inputs@[i],
            ),
    ensures
        match result {
            Ok(report) => {
                &&& config_error(*config) is None
                &&& forall|i: int|
                    0 <= i < inputs@.len() ==> through(
                        *transform,
                        config.depth as nat,
                        #[trigger] inputs@[i],
                    ) is Some
                &&& forall|i: int|
                    0 <= i < inputs@.len() ==> witnessed(
                        *transform,
                        config.depth as nat,
                        #[trigger] inputs@[i],
                    )
                &&& report.output@ == transformed(*transform, config.depth as nat, inputs@)
                &&& all_terminated(report, *config, inputs@.len())
            },
            Err(RunError::TransformFailed { sequence, level, stage }) => {
                &&& config_error(*config) is None
                &&& sequence < inputs@.len()
                &&& forall|i: int|
                    0 <= i < sequence ==> through(
                        *transform,
                        config.depth as nat,
                        #[trigger] inputs@[i],
                    ) is Some
                &&& level < config.depth
                &&& fails_at(*transform, level as nat, inputs@[sequence as int])
                &&& witnessed(*transform, (level + 1) as nat, inputs@[sequence as int])
                &&& stage == worker_id(
                    config.depth as nat,
                    true,
                    sequence as nat % config.workers as nat,
                    level as nat,
                )
            },
            Err(error) => config_error(*config) == Some(error),
        },
{
    match check_config(config) {
        Some(error) => {
            return Err(error);
        },
        None => {},
    }
    let workers: usize = config.workers;
    let depth: usize = config.depth;
    let capacity: usize = config.capacity;
    let ghost w = workers as nat;
    let ghost d = depth as nat;
    let ghost cap = capacity as nat;
    proof {
        assert(depth <= workers * depth) by (nonlinear_arith)
            requires
                workers >= 1,
        ;
    }
    let layout = build_pipeline(workers, depth, true).unwrap();
    let firsts = level_ids(&layout, 0, Ghost(d));
    let lasts = level_ids(&layout, depth - 1, Ghost(d));
    let mut distributor = Distributor::new(firsts).unwrap();
    let mut sink: Sink<T> = Sink::new(&lasts, DrainPolicy::RoundRobin);
    let mut lanes: Vec<Lane<T>> = Vec::new();
    let mut k: usize = 0;
    while k < workers
        invariant
            k <= workers,
            capacity > 0,
            depth < usize::MAX,
            cap == capacity,
            d == depth,
            lanes@.len() == k,
            forall|x: int| 0 <= x < k ==> lane_idle(#[trigger] lanes@[x], d, cap, 0),
        decreases workers - k,
    {
        lanes.push(new_lane(depth, capacity));
        k = k + 1;
    }
    let total: usize = inputs.len();
    let ghost original = inputs@;
    let mut pending = reversed(inputs);
    let mut source_state = StageState::WaitingForInput;
    let mut emitted: usize = 0;
    proof {
        assert forall|x: int| 0 <= x < w implies lane_idle(
            #[trigger] lanes@[x],
            d,
            cap,
            lane_len(0, w, x as nat),
        ) by {
            lemma_next_fragment_joins_one_lane(0, w, x as nat);
        }
        lemma_next_fragment_joins_one_lane(0, w, 0);
        assert(sink.collected() =~= delivered(*transform, d, original, 0));
    }
    while pending.len() > 0
        invariant
            workers > 0,
            depth > 0,
            capacity > 0,
            w == workers,
            d == depth,
            cap == capacity,
            config.workers == workers,
            config.depth == depth,
            config_error(*config) is None,
            original == inputs@,
            total == original.len(),
            deterministic(*transform),
            forall|i: int|
                0 <= i < original.len() ==> callable_along(*transform, d, #[trigger] original[i]),
            lays_out(layout, w, d, true),
            emitted + pending.len() == total,
            forall|p: int| 0 <= p < pending.len() ==> pending[p] == original[total - 1 - p],
            lanes@.len() == workers,
            forall|x: int|
                0 <= x < w ==> lane_idle(#[trigger] lanes@[x], d, cap, lane_len(emitted as nat, w, x as nat)),
            distributor.emitted() == emitted,
            distributor.destinations().len() == workers,
            sink.live() == all_producers(lasts@),
            lasts@.len() == workers,
            sink.position() == emitted as nat % w,
            sink.policy() == DrainPolicy::RoundRobin,
            source_state == StageState::WaitingForInput,
            sink.collected() == delivered(*transform, d, original, emitted as nat),
            forall|i: int| 0 <= i < emitted ==> through(*transform, d, #[trigger] original[i]) is Some,
            forall|i: int| 0 <= i < emitted ==> witnessed(*transform, d, #[trigger] original[i]),
        decreases pending.len(),
    {
        let payload = pending.pop().unwrap();
        source_state = advance(source_state, StageEvent::Received);
        let assignment = distributor.assign().unwrap();
        let slot: usize = assignment.slot;
        let fragment = Fragment::new(assignment.sequence, payload);
        source_state = advance(source_state, StageEvent::Transformed);
        proof {
            lemma_next_fragment_joins_one_lane(emitted as nat, w, slot as nat);
            assert(payload == original[emitted as int]);
            assert(lane_idle(lanes@[slot as int], d, cap, lane_len(emitted as nat, w, slot as nat)));
        }
        let ghost count = lane_len(emitted as nat, w, slot as nat);
        let ghost lanes_before = lanes@;
        let failed = drive(&mut lanes[slot], fragment, transform, depth, Ghost(cap), Ghost(count));
        match failed {
            Some(level) => {
                assert(layout.lanes@[slot as int]@.len() == d);
                return Err(
                    RunError::TransformFailed {
                        sequence: assignment.sequence,
                        level,
                        stage: layout.lanes[slot][level],
                    },
                );
            },
            None => {},
        }
        source_state = advance(source_state, StageEvent::Sent);
        let ghost lanes_driven = lanes@;
        let producer = sink.current().unwrap();
        assert(producer.slot == slot);
        let event = sink.poll(&mut lanes[slot].channels[depth]);
        proof {
            assert(event == StageEvent::Received);
            let delivery = Fragment {
                sequence: emitted as u64,
                payload: through(*transform, d, original[emitted as int])->Some_0,
            };
            assert(sink.collected() =~= delivered(*transform, d, original, (emitted + 1) as nat));
            assert forall|x: int| 0 <= x < w implies lane_idle(
                #[trigger] lanes@[x],
                d,
                cap,
                lane_len((emitted + 1) as nat, w, x as nat),
            ) by {
                lemma_next_fragment_joins_one_lane(emitted as nat, w, x as nat);
                if x != slot {
                    assert(lanes@[x] == lanes_before[x]);
                } else {
                    assert forall|j: int| 0 <= j < d implies quiet(
                        (#[trigger] lanes@[x].channels@[j])@,
                        cap,
                        false,
                    ) by {
                        assert(lanes@[x].channels@[j] == lanes_driven[x].channels@[j]);
                    }
                    assert(lanes@[x].workers == lanes_driven[x].workers);
                }
            }
        }
        emitted = emitted + 1;
    }
    // The source has emitted everything: it closes its outputs.
    source_state = advance(source_state, StageEvent::InputsExhausted);
    let mut k: usize = 0;
    while k < workers
        invariant
            k <= workers,
            w == workers,
            d == depth,
            lanes@.len() == workers,
            forall|x: int|
                k <= x < w ==> lane_idle(#[trigger] lanes@[x], d, cap, lane_len(total as nat, w, x as nat)),
            forall|x: int|
                0 <= x < k ==> lane_done(#[trigger] lanes@[x], d, cap, lane_len(total as nat, w, x as nat)),
        decreases workers - k,
    {
        let ghost before = lanes@;
        lanes[k].channels[0].close();
        proof {
            let lane = lanes@[k as int];
            assert forall|j: int| 1 <= j <= d implies quiet(
                (#[trigger] lane.channels@[j])@,
                cap,
                false,
            ) by {
                assert(lane.channels@[j] == before[k as int].channels@[j]);
            }
        }
        shut_lane(&mut lanes[k], depth, Ghost(cap), Ghost(lane_len(total as nat, w, k as nat)));
        k = k + 1;
    }
    source_state = advance(source_state, StageEvent::OutputsClosed);
    // The sink finds every producer closed.
    while sink.state() != StageState::Terminated
        invariant
            w == workers,
            d == depth,
            lanes@.len() == workers,
            forall|x: int|
                0 <= x < w ==> lane_done(#[trigger] lanes@[x], d, cap, lane_len(total as nat, w, x as nat)),
            forall|p: int| 0 <= p < sink.live().len() ==> (#[trigger] sink.live()[p]).slot < workers,
            sink.collected() == delivered(*transform, d, original, total as nat),
        decreases sink.live().len(),
    {
        let producer = sink.current().unwrap();
        let ghost before = lanes@;
        let ghost live_before = sink.live();
        let event = sink.poll(&mut lanes[producer.slot].channels[depth]);
        proof {
            assert(lane_done(
                before[producer.slot as int],
                d,
                cap,
                lane_len(total as nat, w, producer.slot as nat),
            ));
            assert(quiet(before[producer.slot as int].channels@[d as int]@, cap, true));
            assert forall|x: int| 0 <= x < w implies lane_done(
                #[trigger] lanes@[x],
                d,
                cap,
                lane_len(total as nat, w, x as nat),
            ) by {
                if x != producer.slot {
                    assert(lanes@[x] == before[x]);
                } else {
                    assert(lane_done(before[x], d, cap, lane_len(total as nat, w, x as nat)));
                    assert forall|j: int| 0 <= j <= d implies quiet(
                        (#[trigger] lanes@[x].channels@[j])@,
                        cap,
                        true,
                    ) by {
                        if j != d {
                            assert(lanes@[x].channels@[j] == before[x].channels@[j]);
                        }
                    }
                    assert(lanes@[x].workers == before[x].workers);
                }
            }
        }
    }
    let sink_state = sink.state();
    let ghost arrivals = sink.collected();
    let count: usize = sink.collected_count();
    let output = sink.finish();
    proof {
        assert(ordered(arrivals));
        lemma_order_is_determined(arrivals, arrivals);
        assert(output@ =~= transformed(*transform, d, original));
    }
    let reports = report_lanes(&lanes, &layout, config, Ghost(total as nat));
    Ok(
        RunReport {
            output,
            source: StageReport { stage: layout.source, state: source_state, handled: emitted },
            sink: StageReport { stage: layout.sink.unwrap(), state: sink_state, handled: count },
            lanes: reports,
        },
    )
}

} // verus!
