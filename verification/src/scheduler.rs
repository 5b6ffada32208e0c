//! The runner for a given schedule: the caller says which stage moves at
//! each step, and the pipeline does those steps and no others. What comes out
//! is what the state machine of [`crate::model`] says: the run follows the
//! model step by step.

use crate::channel::{refusal, SendError};
use crate::distributor::{
    index_at, lane_len, lemma_next_fragment_joins_one_lane, lemma_place_names_one_fragment,
};
use crate::fragment::Fragment;
use crate::layout::{build_pipeline, lays_out, worker_id, PipelineLayout};
use crate::model::{
    after_schedule, after_step, at_start, can_move, consistent, finished, in_step,
    lane_after_work, lane_consistent, lemma_finished_run_is_complete,
    lemma_held_step_changes_nothing, lemma_moving_step_descends, lemma_no_step_fails,
    lemma_some_stage_can_move, lemma_start_is_consistent, lemma_start_is_in_step,
    lemma_remaining_is_not_negative, lemma_step_keeps_consistent, lemma_step_keeps_in_step,
    never_fails, reached, remaining,
    schedule_fails, sink_consistent, step_fails, worker_consistent, LaneModel, PipelineModel, Step,
};
use crate::moves::reversed;
use crate::reassembler::{in_sequence_order, lemma_in_sequence_order_exists};
use crate::runner::{
    all_terminated, check_config, config_error, lane_idle, level_ids, new_lane, Lane,
    PipelineConfig, RunError, RunReport, StageReport,
};
use crate::sink::Sink;
use crate::stage::{all_producers, DrainPolicy, StageEvent, StageState};
use crate::stage_id::StageId;
use crate::transform::{
    callable_along, deterministic, fails_at, lemma_failure_stays, lemma_through_unfolds, outcome,
    through, transformed,
};
use crate::worker::Phase;
use vstd::prelude::*;

verus! {

/// The pipeline of `config` before its first step, with the sink draining
/// by `policy`.
pub open spec fn pipeline_at_start<T>(
    inputs: Seq<T>,
    config: PipelineConfig,
    policy: DrainPolicy,
) -> PipelineModel<T> {
    at_start(
        inputs,
        all_producers(
            Seq::new(
                config.workers as nat,
                |lane: int|
                    worker_id(
                        config.depth as nat,
                        true,
                        lane as nat,
                        (config.depth - 1) as nat,
                    ),
            ),
        ),
        config.depth as nat,
        config.capacity as nat,
        policy,
    )
}

/// Step `at` of the schedule is the first that fails: no step before it does,
/// and at step `at` the worker at level `level` of lane `lane` applies the
/// transform to the fragment numbered `sequence`, and the transform fails.
pub open spec fn fails_first_at<T, F: Fn(usize, T) -> Option<T>>(
    start: PipelineModel<T>,
    f: F,
    schedule: Seq<Step>,
    at: int,
    lane: usize,
    level: usize,
    sequence: u64,
) -> bool {
    let before = after_schedule(start, f, schedule.take(at));
    &&& 0 <= at < schedule.len()
    &&& !schedule_fails(start, f, schedule.take(at))
    &&& schedule[at] == (Step::Work { lane, level })
    &&& step_fails(before, f, schedule[at])
    &&& before.lanes[lane as int].workers[level as int].phase matches Phase::Processing(fragment)
    &&& fragment.sequence == sequence
}

/// The first step of the schedule that fails is the transform of the worker
/// at level `level` of lane `lane` on the fragment numbered `sequence`.
pub open spec fn fails_first<T, F: Fn(usize, T) -> Option<T>>(
    start: PipelineModel<T>,
    f: F,
    schedule: Seq<Step>,
    lane: usize,
    level: usize,
    sequence: u64,
) -> bool {
    exists|at: int| #[trigger] fails_first_at(start, f, schedule, at, lane, level, sequence)
}

/// The lane at run time is the lane of the model.
spec fn lane_mirrors<T>(lane: Lane<T>, model: LaneModel<T>, depth: nat) -> bool {
    &&& lane.channels@.len() == depth + 1
    &&& model.channels.len() == depth + 1
    &&& lane.workers@.len() == depth
    &&& model.workers.len() == depth
    &&& forall|j: int| 0 <= j <= depth ==> (#[trigger] lane.channels@[j])@ == model.channels[j]
    &&& forall|j: int| 0 <= j < depth ==> (#[trigger] lane.workers@[j])@ == model.workers[j]
}

/// The stages at run time are the stages of the model.
spec fn mirrors<T>(lanes: Seq<Lane<T>>, sink: Sink<T>, m: PipelineModel<T>) -> bool {
    &&& lanes.len() == m.lanes.len()
    &&& forall|k: int| 0 <= k < lanes.len() ==> lane_mirrors(#[trigger] lanes[k], m.lanes[k], m.depth)
    &&& sink.live() == m.live
    &&& sink.position() == m.position
    &&& sink.policy() == m.policy
    &&& sink.collected() == m.collected
}

/// A failure in a part of the schedule is a failure of the schedule.
proof fn lemma_failure_is_kept<T, F: Fn(usize, T) -> Option<T>>(
    s: PipelineModel<T>,
    f: F,
    schedule: Seq<Step>,
    upto: int,
)
    requires
        0 <= upto <= schedule.len(),
        schedule_fails(s, f, schedule.take(upto)),
    ensures
        schedule_fails(s, f, schedule),
    decreases schedule.len() - upto,
{
    if upto < schedule.len() {
        assert(schedule.take(upto + 1).drop_last() =~= schedule.take(upto));
        lemma_failure_is_kept(s, f, schedule, upto + 1);
    } else {
        assert(schedule.take(upto) =~= schedule);
    }
}

/// What came of a step.
enum StepOutcome {
    /// The stage was held up: nothing has changed.
    Held,
    /// The stage did its step.
    Moved,
    /// The transform failed on the fragment with this sequence number.
    Failed(u64),
}

/// Whether the worker at level `level` of the lane is not held up.
spec fn worker_can_move<T>(lane: LaneModel<T>, level: int) -> bool {
    let worker = lane.workers[level];
    let input = lane.channels[level];
    let output = lane.channels[level + 1];
    match worker.phase {
        Phase::Waiting => input.queued.len() > 0 || input.closed,
        Phase::Emitting(_) => refusal(output) != Some(SendError::Full),
        Phase::Terminated => false,
        _ => true,
    }
}

/// The next step of one worker.
#[verifier::spinoff_prover]
fn work<T, F: Fn(usize, T) -> Option<T>>(
    lane: &mut Lane<T>,
    level: usize,
    transform: &F,
    Ghost(model): Ghost<LaneModel<T>>,
    Ghost(depth): Ghost<nat>,
) -> (done: StepOutcome)
    requires
        lane_mirrors(*old(lane), model, depth),
        level < depth,
        deterministic(*transform),
        model.workers[level as int].level == level,
        model.workers[level as int].phase matches Phase::Processing(fragment) ==> call_requires(
            *transform,
            (level, fragment.payload),
        ),
    ensures
        lane_mirrors(*final(lane), lane_after_work(model, *transform, level as int), depth),
        match done {
            StepOutcome::Failed(sequence) => model.workers[level as int].phase matches Phase::Processing(
                fragment,
            ) && fragment.sequence == sequence && outcome(*transform, level, fragment.payload) is None,
            _ => !(model.workers[level as int].phase matches Phase::Processing(fragment) && outcome(
                *transform,
                level,
                fragment.payload,
            ) is None),
        },
        done is Held <==> !worker_can_move(model, level as int),
{
    let ghost before = *lane;
    let ghost after = lane_after_work(model, *transform, level as int);
    assert(before.workers@[level as int]@ == model.workers[level as int]);
    assert(before.channels@[level as int]@ == model.channels[level as int]);
    assert(before.channels@[level as int + 1]@ == model.channels[level as int + 1]);
    let next: usize = lane.channels.len() - 1;
    assert(level < next);
    let state = lane.workers[level].state();
    let sequence = lane.workers[level].held_sequence();
    let mut done = StepOutcome::Held;
    match state {
        StageState::WaitingForInput => {
            match lane.workers[level].receive_from(&mut lane.channels[level]) {
                Some(StageEvent::InputEmpty) => {},
                _ => {
                    done = StepOutcome::Moved;
                },
            }
        },
        StageState::Processing => {
            match lane.workers[level].process(transform) {
                Some(StageEvent::TransformFailed) => {
                    done = StepOutcome::Failed(sequence.unwrap());
                },
                _ => {
                    done = StepOutcome::Moved;
                },
            }
        },
        StageState::Emitting => {
            match lane.workers[level].send_to(&mut lane.channels[level + 1]) {
                Some(StageEvent::OutputFull) => {},
                _ => {
                    done = StepOutcome::Moved;
                },
            }
        },
        StageState::ClosingOutputs => {
            lane.workers[level].close_output(&mut lane.channels[level + 1]);
            done = StepOutcome::Moved;
        },
        StageState::Terminated => {},
    }
    proof {
        assert forall|j: int| 0 <= j <= depth implies (#[trigger] lane.channels@[j])@
            == after.channels[j] by {
            if j != level && j != level + 1 {
                assert(lane.channels@[j] == before.channels@[j]);
            }
            assert(before.channels@[j]@ == model.channels[j]);
        }
        assert forall|j: int| 0 <= j < depth implies (#[trigger] lane.workers@[j])@
            == after.workers[j] by {
            if j != level {
                assert(lane.workers@[j] == before.workers@[j]);
            }
            assert(before.workers@[j]@ == model.workers[j]);
        }
    }
    done
}

/// The stages of a pipeline at run time.
struct Plant<T> {
    lanes: Vec<Lane<T>>,
    sink: Sink<T>,
    /// The inputs not yet sent, the next one last.
    pending: Vec<T>,
    emitted: usize,
    source_closed: bool,
}

/// The plant is the pipeline of the model, run on `original`.
spec fn plant_mirrors<T>(plant: Plant<T>, m: PipelineModel<T>, original: Seq<T>) -> bool {
    &&& mirrors(plant.lanes@, plant.sink, m)
    &&& m.emitted == plant.emitted
    &&& m.source_closed == plant.source_closed
    &&& m.inputs == original
    &&& 0 < m.depth
    &&& plant.emitted + plant.pending@.len() == original.len()
    &&& forall|p: int|
        0 <= p < plant.pending@.len() ==> #[trigger] plant.pending@[p] == original[original.len() - 1
            - p]
}

/// Builds the plant of a checked configuration.
#[verifier::spinoff_prover]
fn build_plant<T>(inputs: Vec<T>, config: &PipelineConfig, policy: DrainPolicy, lasts: &Vec<StageId>) -> (plant:
    Plant<T>)
    requires
        config_error(*config) is None,
        lasts@ == Seq::new(
            config.workers as nat,
            |lane: int|
                worker_id(config.depth as nat, true, lane as nat, (config.depth - 1) as nat),
        ),
    ensures
        plant_mirrors(plant, pipeline_at_start(inputs@, *config, policy), inputs@),
{
    let workers: usize = config.workers;
    let depth: usize = config.depth;
    let capacity: usize = config.capacity;
    proof {
        assert(depth <= workers * depth) by (nonlinear_arith)
            requires
                workers >= 1,
        ;
    }
    let sink: Sink<T> = Sink::new(lasts, policy);
    let mut lanes: Vec<Lane<T>> = Vec::new();
    let mut k: usize = 0;
    while k < workers
        invariant
            k <= workers,
            capacity > 0,
            depth < usize::MAX,
            lanes@.len() == k,
            forall|x: int| 0 <= x < k ==> lane_idle(#[trigger] lanes@[x], depth as nat, capacity as nat, 0),
        decreases workers - k,
    {
        lanes.push(new_lane(depth, capacity));
        k = k + 1;
    }
    let ghost original = inputs@;
    let ghost m = pipeline_at_start(original, *config, policy);
    let pending = reversed(inputs);
    proof {
        assert forall|x: int| 0 <= x < workers implies lane_mirrors(
            #[trigger] lanes@[x],
            m.lanes[x],
            depth as nat,
        ) by {
            let lane = lanes@[x];
            assert(lane_idle(lane, depth as nat, capacity as nat, 0));
            assert forall|j: int| 0 <= j <= depth implies (#[trigger] lane.channels@[j])@
                == m.lanes[x].channels[j] by {
                assert(lane.channels@[j]@.queued =~= Seq::<Fragment<T>>::empty());
            }
        }
    }
    Plant { lanes, sink, pending, emitted: 0, source_closed: false }
}

/// Does one step of the pipeline.
#[verifier::spinoff_prover]
fn do_step<T, F: Fn(usize, T) -> Option<T>>(
    plant: &mut Plant<T>,
    step: Step,
    transform: &F,
    Ghost(m): Ghost<PipelineModel<T>>,
    Ghost(original): Ghost<Seq<T>>,
) -> (outcome: StepOutcome)
    requires
        plant_mirrors(*old(plant), m, original),
        consistent(m, *transform),
        deterministic(*transform),
        forall|i: int|
            0 <= i < original.len() ==> callable_along(*transform, m.depth, #[trigger] original[i]),
    ensures
        match outcome {
            StepOutcome::Failed(sequence) => {
                &&& step_fails(m, *transform, step)
                &&& step matches Step::Work { lane, level }
                &&& sequence < original.len()
                &&& sequence % (m.lanes.len() as u64) == lane
                &&& fails_at(*transform, level as nat, original[sequence as int])
                &&& m.lanes[lane as int].workers[level as int].phase matches Phase::Processing(fragment)
                &&& fragment.sequence == sequence
            },
            _ => {
                &&& !step_fails(m, *transform, step)
                &&& plant_mirrors(*final(plant), after_step(m, *transform, step), original)
                &&& outcome is Moved <==> can_move(m, step)
            },
        },
{
    let ghost w = m.lanes.len();
    let ghost d = m.depth;
    let ghost before = *plant;
    let ghost t = after_step(m, *transform, step);
    let workers: usize = plant.lanes.len();
    let total: usize = plant.emitted + plant.pending.len();
    let mut outcome = StepOutcome::Held;
    match step {
        Step::Emit => {
            if plant.emitted < total && !plant.source_closed {
                let to: usize = plant.emitted % workers;
                proof {
                    lemma_next_fragment_joins_one_lane(plant.emitted as nat, w, 0);
                    assert(lane_mirrors(plant.lanes@[to as int], m.lanes[to as int], d));
                }
                if plant.lanes[to].channels[0].has_room() {
                    let payload = plant.pending.pop().unwrap();
                    let sequence: u64 = plant.emitted as u64;
                    let sent = plant.lanes[to].channels[0].send(Fragment { sequence, payload });
                    assert(sent is Ok);
                    plant.emitted = plant.emitted + 1;
                    outcome = StepOutcome::Moved;
                }
            }
            proof {
                assert forall|x: int| 0 <= x < w implies lane_mirrors(
                    #[trigger] plant.lanes@[x],
                    t.lanes[x],
                    d,
                ) by {
                    assert(lane_mirrors(before.lanes@[x], m.lanes[x], d));
                    let lane = plant.lanes@[x];
                    assert forall|j: int| 0 <= j <= d implies (#[trigger] lane.channels@[j])@
                        == t.lanes[x].channels[j] by {
                        assert(before.lanes@[x].channels@[j]@ == m.lanes[x].channels[j]);
                    }
                    assert forall|j: int| 0 <= j < d implies (#[trigger] lane.workers@[j])@
                        == t.lanes[x].workers[j] by {
                        assert(before.lanes@[x].workers@[j]@ == m.lanes[x].workers[j]);
                    }
                }
            }
        },
        Step::CloseSource => {
            if plant.emitted == total && !plant.source_closed {
                let mut lane: usize = 0;
                while lane < workers
                    invariant
                        lane <= workers,
                        w == workers,
                        plant.lanes@.len() == workers,
                        before.lanes@.len() == workers,
                        plant.sink == before.sink,
                        plant.pending == before.pending,
                        plant.emitted == before.emitted,
                        plant.source_closed == before.source_closed,
                        forall|x: int|
                            0 <= x < w ==> lane_mirrors(#[trigger] before.lanes@[x], m.lanes[x], d),
                        forall|x: int| lane <= x < w ==> #[trigger] plant.lanes@[x] == before.lanes@[x],
                        forall|x: int|
                            0 <= x < lane ==> lane_mirrors(#[trigger] plant.lanes@[x], t.lanes[x], d),
                        t == crate::model::after_close_source(m),
                        m.lanes.len() == w,
                        m.emitted == m.inputs.len(),
                        !m.source_closed,
                    decreases workers - lane,
                {
                    let ghost mid = plant.lanes@;
                    assert(lane_mirrors(before.lanes@[lane as int], m.lanes[lane as int], d));
                    plant.lanes[lane].channels[0].close();
                    proof {
                        let now = plant.lanes@[lane as int];
                        let goal = t.lanes[lane as int];
                        assert forall|j: int| 0 <= j <= d implies (#[trigger] now.channels@[j])@
                            == goal.channels[j] by {
                            if j != 0 {
                                assert(now.channels@[j] == before.lanes@[lane as int].channels@[j]);
                            }
                            assert(before.lanes@[lane as int].channels@[j]@
                                == m.lanes[lane as int].channels[j]);
                        }
                        assert forall|j: int| 0 <= j < d implies (#[trigger] now.workers@[j])@
                            == goal.workers[j] by {
                            assert(before.lanes@[lane as int].workers@[j]@
                                == m.lanes[lane as int].workers[j]);
                        }
                        assert forall|x: int| lane + 1 <= x < w implies #[trigger] plant.lanes@[x]
                            == before.lanes@[x] by {
                            assert(plant.lanes@[x] == mid[x]);
                        }
                        assert forall|x: int| 0 <= x < lane + 1 implies lane_mirrors(
                            #[trigger] plant.lanes@[x],
                            t.lanes[x],
                            d,
                        ) by {
                            if x < lane {
                                assert(plant.lanes@[x] == mid[x]);
                            }
                        }
                    }
                    lane = lane + 1;
                }
                plant.source_closed = true;
                outcome = StepOutcome::Moved;
            }
        },
        Step::Work { lane, level } => {
            if lane < workers && level < plant.lanes[lane].workers.len() {
                proof {
                    assert(lane_mirrors(plant.lanes@[lane as int], m.lanes[lane as int], d));
                    assert(lane_consistent(m, *transform, lane as int));
                    assert(worker_consistent(m, *transform, lane as int, level as int));
                    let worker = m.lanes[lane as int].workers[level as int];
                    if worker.phase is Processing {
                        let place = worker.handled - 1;
                        let index = index_at(w, lane as nat, place as nat) as int;
                        assert(reached(original, *transform, w, lane as int, place, level as int));
                        assert(callable_along(*transform, d, original[index]));
                    }
                }
                outcome = work(
                    &mut plant.lanes[lane],
                    level,
                    transform,
                    Ghost(m.lanes[lane as int]),
                    Ghost(d),
                );
                proof {
                    match outcome {
                        StepOutcome::Failed(sequence) => {
                            let worker = m.lanes[lane as int].workers[level as int];
                            let place = worker.handled - 1;
                            let index = index_at(w, lane as nat, place as nat) as int;
                            lemma_through_unfolds(*transform, level as nat, original[index]);
                            lemma_place_names_one_fragment(w, lane as nat, place as nat);
                            assert(sequence == index);
                        },
                        _ => {},
                    }
                }
            } else {
                proof {
                    assert(lane_mirrors(plant.lanes@[0], m.lanes[0], d));
                    if lane < workers {
                        assert(lane_mirrors(plant.lanes@[lane as int], m.lanes[lane as int], d));
                    }
                }
            }
            proof {
                assert forall|x: int| 0 <= x < w implies lane_mirrors(
                    #[trigger] plant.lanes@[x],
                    t.lanes[x],
                    d,
                ) by {
                    if !(lane < w && level < d && x == lane) {
                        assert(plant.lanes@[x] == before.lanes@[x]);
                        assert(lane_mirrors(before.lanes@[x], m.lanes[x], d));
                    }
                }
            }
        },
        Step::Poll => {
            match plant.sink.current() {
                Some(producer) => {
                    proof {
                        assert(sink_consistent(m, *transform));
                        assert(m.live[m.position as int].slot < w);
                        assert(lane_mirrors(
                            plant.lanes@[producer.slot as int],
                            m.lanes[producer.slot as int],
                            d,
                        ));
                    }
                    let depth: usize = plant.lanes[producer.slot].channels.len() - 1;
                    match plant.sink.poll(&mut plant.lanes[producer.slot].channels[depth]) {
                        StageEvent::InputEmpty => {},
                        _ => {
                            outcome = StepOutcome::Moved;
                        },
                    }
                },
                None => {},
            }
            proof {
                assert forall|x: int| 0 <= x < w implies lane_mirrors(
                    #[trigger] plant.lanes@[x],
                    t.lanes[x],
                    d,
                ) by {
                    assert(lane_mirrors(before.lanes@[x], m.lanes[x], d));
                    let lane = plant.lanes@[x];
                    assert forall|j: int| 0 <= j <= d implies (#[trigger] lane.channels@[j])@
                        == t.lanes[x].channels[j] by {
                        assert(before.lanes@[x].channels@[j]@ == m.lanes[x].channels[j]);
                    }
                    assert forall|j: int| 0 <= j < d implies (#[trigger] lane.workers@[j])@
                        == t.lanes[x].workers[j] by {
                        assert(before.lanes@[x].workers@[j]@ == m.lanes[x].workers[j]);
                    }
                }
            }
        },
    }
    outcome
}

/// Runs the pipeline of `config` on `inputs` by the steps of `schedule`, in
/// their order, and by no others. A step whose stage is held up changes
/// nothing. The run ends with the schedule: it hands out the output if the
/// sink has seen every producer close by then, and `None` if it has not. A
/// transform that fails ends the run at once.
#[verifier::spinoff_prover]
pub fn run_schedule<T, F: Fn(usize, T) -> Option<T>>(
    inputs: Vec<T>,
    config: &PipelineConfig,
    policy: DrainPolicy,
    transform: &F,
    schedule: &Vec<Step>,
) -> (result: Result<Option<Vec<T>>, RunError>)
    requires
        deterministic(*transform),
        forall|i: int|
            0 <= i < inputs@.len() ==> callable_along(
                *transform,
                config.depth as nat,
                #[trigger] inputs@[i],
            ),
    ensures
        match result {
            Ok(Some(output)) => {
                &&& config_error(*config) is None
                &&& !schedule_fails(pipeline_at_start(inputs@, *config, policy), *transform, schedule@)
                &&& finished(
                    after_schedule(
                        pipeline_at_start(inputs@, *config, policy),
                        *transform,
                        schedule@,
                    ),
                )
                &&& never_fails(*transform, config.depth as nat, inputs@)
                &&& output@ == transformed(*transform, config.depth as nat, inputs@)
            },
            Ok(None) => {
                &&& config_error(*config) is None
                &&& !schedule_fails(pipeline_at_start(inputs@, *config, policy), *transform, schedule@)
                &&& !finished(
                    after_schedule(
                        pipeline_at_start(inputs@, *config, policy),
                        *transform,
                        schedule@,
                    ),
                )
            },
            Err(RunError::TransformFailed { sequence, level, stage }) => {
                &&& config_error(*config) is None
                &&& schedule_fails(pipeline_at_start(inputs@, *config, policy), *transform, schedule@)
                &&& fails_first(
                    pipeline_at_start(inputs@, *config, policy),
                    *transform,
                    schedule@,
                    (sequence % (config.workers as u64)) as usize,
                    level,
                    sequence,
                )
                &&& sequence < inputs@.len()
                &&& level < config.depth
                &&& fails_at(*transform, level as nat, inputs@[sequence as int])
                &&& stage == worker_id(
                    config.depth as nat,
                    true,
                    sequence as nat % config.workers as nat,
                    level as nat,
                )
            },
            Err(error) => config_error(*config) == Some(error),
        },
{
    match check_config(config) {
        Some(error) => {
            return Err(error);
        },
        None => {},
    }
    let ghost w = config.workers as nat;
    let ghost d = config.depth as nat;
    let ghost original = inputs@;
    let ghost start = pipeline_at_start(original, *config, policy);
    proof {
        assert(config.depth <= config.workers * config.depth) by (nonlinear_arith)
            requires
                config.workers >= 1,
        ;
    }
    let layout = build_pipeline(config.workers, config.depth, true).unwrap();
    let lasts = level_ids(&layout, config.depth - 1, Ghost(d));
    let total: usize = inputs.len();
    let mut plant = build_plant(inputs, config, policy, &lasts);
    let ghost mut m = start;
    proof {
        lemma_start_is_consistent(original, lasts@, d, config.capacity as nat, policy, *transform);
        assert(schedule@.take(0) =~= Seq::<Step>::empty());
    }
    let mut at: usize = 0;
    while at < schedule.len()
        invariant
            at <= schedule.len(),
            w == config.workers,
            d == config.depth,
            config_error(*config) is None,
            original == inputs@,
            start == pipeline_at_start(original, *config, policy),
            deterministic(*transform),
            forall|i: int|
                0 <= i < original.len() ==> callable_along(*transform, d, #[trigger] original[i]),
            lays_out(layout, w, d, true),
            m == after_schedule(start, *transform, schedule@.take(at as int)),
            !schedule_fails(start, *transform, schedule@.take(at as int)),
            consistent(m, *transform),
            m.depth == d,
            m.lanes.len() == w,
            plant_mirrors(plant, m, original),
        decreases schedule.len() - at,
    {
        let step = schedule[at];
        proof {
            assert(schedule@.take(at + 1).drop_last() =~= schedule@.take(at as int));
            assert(schedule@.take(at + 1).last() == step);
        }
        match do_step(&mut plant, step, transform, Ghost(m), Ghost(original)) {
            StepOutcome::Failed(sequence) => {
                match step {
                    Step::Work { lane, level } => {
                        proof {
                            assert(schedule_fails(start, *transform, schedule@.take(at + 1)));
                            lemma_failure_is_kept(start, *transform, schedule@, at + 1);
                            assert(layout.lanes@[lane as int]@.len() == d);
                            assert((sequence % (config.workers as u64)) as usize == lane);
                            assert(fails_first_at(
                                start,
                                *transform,
                                schedule@,
                                at as int,
                                lane,
                                level,
                                sequence,
                            ));
                            assert(fails_first(
                                pipeline_at_start(inputs@, *config, policy),
                                *transform,
                                schedule@,
                                (sequence % (config.workers as u64)) as usize,
                                level,
                                sequence,
                            ));
                        }
                        return Err(
                            RunError::TransformFailed {
                                sequence,
                                level,
                                stage: layout.lanes[lane][level],
                            },
                        );
                    },
                    _ => {},
                }
            },
            _ => {},
        }
        proof {
            lemma_step_keeps_consistent(m, *transform, step);
            m = after_step(m, *transform, step);
        }
        at = at + 1;
    }
    proof {
        assert(schedule@.take(at as int) =~= schedule@);
    }
    match plant.sink.state() {
        StageState::Terminated => {
            let ghost collected = plant.sink.collected();
            let output = plant.sink.finish();
            proof {
                lemma_in_sequence_order_exists(collected);
                lemma_finished_run_is_complete(m, *transform, in_sequence_order(collected));
                assert(output@ =~= transformed(*transform, d, original));
            }
            Ok(Some(output))
        },
        _ => Ok(None),
    }
}

/// The worker at level `level` of lane `lane` is held up.
spec fn worker_is_held<T>(s: PipelineModel<T>, lane: int, level: int) -> bool {
    !can_move(s, Step::Work { lane: lane as usize, level: level as usize })
}

/// One step of a round. Gives whether a stage has moved in the round so far,
/// or the sequence number of the fragment on which the transform failed.
#[verifier::spinoff_prover]
fn round_step<T, F: Fn(usize, T) -> Option<T>>(
    plant: &mut Plant<T>,
    step: Step,
    transform: &F,
    moved: bool,
    Ghost(m): Ghost<PipelineModel<T>>,
    Ghost(original): Ghost<Seq<T>>,
    Ghost(at_round_start): Ghost<PipelineModel<T>>,
) -> (result: Result<bool, u64>)
    requires
        plant_mirrors(*old(plant), m, original),
        consistent(m, *transform),
        in_step(m),
        deterministic(*transform),
        forall|i: int|
            0 <= i < original.len() ==> callable_along(*transform, m.depth, #[trigger] original[i]),
        !moved ==> m == at_round_start,
        moved ==> remaining(m) < remaining(at_round_start),
    ensures
        match result {
            Ok(now) => {
                &&& plant_mirrors(*final(plant), after_step(m, *transform, step), original)
                &&& consistent(after_step(m, *transform, step), *transform)
                &&& in_step(after_step(m, *transform, step))
                &&& after_step(m, *transform, step).depth == m.depth
                &&& after_step(m, *transform, step).lanes.len() == m.lanes.len()
                &&& moved ==> now
                &&& !now ==> after_step(m, *transform, step) == at_round_start && !can_move(
                    at_round_start,
                    step,
                )
                &&& now ==> remaining(after_step(m, *transform, step)) < remaining(at_round_start)
                &&& 0 <= remaining(after_step(m, *transform, step))
            },
            Err(sequence) => {
                &&& step matches Step::Work { lane, level }
                &&& lane < m.lanes.len()
                &&& level < m.depth
                &&& sequence < original.len()
                &&& sequence % (m.lanes.len() as u64) == lane
                &&& fails_at(*transform, level as nat, original[sequence as int])
            },
        },
{
    match do_step(plant, step, transform, Ghost(m), Ghost(original)) {
        StepOutcome::Failed(sequence) => Err(sequence),
        StepOutcome::Moved => {
            proof {
                lemma_step_keeps_consistent(m, *transform, step);
                lemma_step_keeps_in_step(m, *transform, step);
                lemma_moving_step_descends(m, *transform, step);
            }
            Ok(true)
        },
        StepOutcome::Held => {
            proof {
                lemma_step_keeps_consistent(m, *transform, step);
                lemma_step_keeps_in_step(m, *transform, step);
                lemma_held_step_changes_nothing(m, *transform, step);
                lemma_remaining_is_not_negative(m, *transform);
            }
            Ok(moved)
        },
    }
}

/// One step of a round by the sink or by the source, which apply no
/// transform. Gives whether a stage has moved in the round so far.
fn round_turn<T, F: Fn(usize, T) -> Option<T>>(
    plant: &mut Plant<T>,
    step: Step,
    transform: &F,
    moved: bool,
    Ghost(m): Ghost<PipelineModel<T>>,
    Ghost(original): Ghost<Seq<T>>,
    Ghost(at_round_start): Ghost<PipelineModel<T>>,
) -> (now: bool)
    requires
        !(step is Work),
        plant_mirrors(*old(plant), m, original),
        consistent(m, *transform),
        in_step(m),
        deterministic(*transform),
        forall|i: int|
            0 <= i < original.len() ==> callable_along(*transform, m.depth, #[trigger] original[i]),
        !moved ==> m == at_round_start,
        moved ==> remaining(m) < remaining(at_round_start),
    ensures
        plant_mirrors(*final(plant), after_step(m, *transform, step), original),
        consistent(after_step(m, *transform, step), *transform),
        in_step(after_step(m, *transform, step)),
        after_step(m, *transform, step).depth == m.depth,
        after_step(m, *transform, step).lanes.len() == m.lanes.len(),
        moved ==> now,
        !now ==> after_step(m, *transform, step) == at_round_start && !can_move(at_round_start, step),
        now ==> remaining(after_step(m, *transform, step)) < remaining(at_round_start),
        0 <= remaining(after_step(m, *transform, step)),
{
    match round_step(
        plant,
        step,
        transform,
        moved,
        Ghost(m),
        Ghost(original),
        Ghost(at_round_start),
    ) {
        Ok(now) => now,
        Err(_) => moved,
    }
}

/// Reports on the workers of a finished run.
#[verifier::spinoff_prover]
fn report_workers<T>(
    lanes: &Vec<Lane<T>>,
    layout: &PipelineLayout,
    config: &PipelineConfig,
    Ghost(total): Ghost<nat>,
) -> (reports: Vec<Vec<StageReport>>)
    requires
        lays_out(*layout, config.workers as nat, config.depth as nat, true),
        lanes@.len() == config.workers,
        forall|k: int|
            0 <= k < config.workers ==> (#[trigger] lanes@[k]).workers@.len() == config.depth,
        forall|k: int, j: int|
            0 <= k < config.workers && 0 <= j < config.depth ==> (#[trigger] lanes@[k].workers@[j])@.phase is Terminated
                && lanes@[k].workers@[j]@.handled == lane_len(
                total,
                config.workers as nat,
                k as nat,
            ),
    ensures
        reports@.len() == config.workers,
        forall|lane: int|
            0 <= lane < config.workers ==> (#[trigger] reports@[lane])@ == Seq::new(
                config.depth as nat,
                |level: int|
                    StageReport {
                        stage: worker_id(config.depth as nat, true, lane as nat, level as nat),
                        state: StageState::Terminated,
                        handled: lane_len(total, config.workers as nat, lane as nat) as usize,
                    },
            ),
{
    let mut reports: Vec<Vec<StageReport>> = Vec::new();
    let mut k: usize = 0;
    while k < config.workers
        invariant
            k <= config.workers,
            lays_out(*layout, config.workers as nat, config.depth as nat, true),
            lanes@.len() == config.workers,
            forall|k: int|
                0 <= k < config.workers ==> (#[trigger] lanes@[k]).workers@.len() == config.depth,
            forall|k: int, j: int|
                0 <= k < config.workers && 0 <= j < config.depth ==> (#[trigger] lanes@[k].workers@[j])@.phase is Terminated
                    && lanes@[k].workers@[j]@.handled == lane_len(
                    total,
                    config.workers as nat,
                    k as nat,
                ),
            reports@.len() == k,
            forall|lane: int|
                0 <= lane < k ==> (#[trigger] reports@[lane])@ == Seq::new(
                    config.depth as nat,
                    |level: int|
                        StageReport {
                            stage: worker_id(config.depth as nat, true, lane as nat, level as nat),
                            state: StageState::Terminated,
                            handled: lane_len(total, config.workers as nat, lane as nat) as usize,
                        },
                ),
        decreases config.workers - k,
    {
        let lane = &lanes[k];
        let ids = &layout.lanes[k];
        assert(lanes@[k as int].workers@.len() == config.depth);
        assert(layout.lanes@[k as int]@.len() == config.depth);
        let mut row: Vec<StageReport> = Vec::new();
        let mut level: usize = 0;
        while level < config.depth
            invariant
                level <= config.depth,
                k < config.workers,
                *lane == lanes@[k as int],
                lane.workers@.len() == config.depth,
                ids@ == Seq::new(
                    config.depth as nat,
                    |j: int| worker_id(config.depth as nat, true, k as nat, j as nat),
                ),
                forall|j: int|
                    0 <= j < config.depth ==> (#[trigger] lanes@[k as int].workers@[j])@.phase is Terminated
                        && lanes@[k as int].workers@[j]@.handled == lane_len(
                        total,
                        config.workers as nat,
                        k as nat,
                    ),
                row@ == Seq::new(
                    level as nat,
                    |j: int|
                        StageReport {
                            stage: worker_id(config.depth as nat, true, k as nat, j as nat),
                            state: StageState::Terminated,
                            handled: lane_len(total, config.workers as nat, k as nat) as usize,
                        },
                ),
            decreases config.depth - level,
        {
            assert(lanes@[k as int].workers@[level as int]@.phase is Terminated);
            row.push(
                StageReport {
                    stage: ids[level],
                    state: lane.workers[level].state(),
                    handled: lane.workers[level].handled(),
                },
            );
            level = level + 1;
            assert(row@ =~= Seq::new(
                level as nat,
                |j: int|
                    StageReport {
                        stage: worker_id(config.depth as nat, true, k as nat, j as nat),
                        state: StageState::Terminated,
                        handled: lane_len(total, config.workers as nat, k as nat) as usize,
                    },
            ));
        }
        reports.push(row);
        k = k + 1;
    }
    reports
}

/// Runs the pipeline of `config` on `inputs` with all stages taking turns.
///
/// In every round the sink, every worker and the source do one step each, so
/// that the lanes work side by side and a fragment is on its way in every
/// channel that has room for it. The sink asks its producers in turn. No
/// round is idle: as long as the run is not finished, some stage can move, and
/// every step that moves brings the run one step nearer to its end. The run
/// ends when the sink has seen every producer close; by then every stage is
/// terminated. A transform that fails ends the run at once.
#[verifier::spinoff_prover]
pub fn run_pipelined<T, F: Fn(usize, T) -> Option<T>>(
    inputs: Vec<T>,
    config: &PipelineConfig,
    transform: &F,
) -> (result: Result<RunReport<T>, RunError>)
    requires
        deterministic(*transform),
        forall|i: int|
            0 <= i < inputs@.len() ==> callable_along(
                *transform,
                config.depth as nat,
                #[trigger] inputs@[i],
            ),
    ensures
        result is Ok <==> config_error(*config) is None && never_fails(
            *transform,
            config.depth as nat,
            inputs@,
        ),
        match result {
            Ok(report) => {
                &&& report.output@ == transformed(*transform, config.depth as nat, inputs@)
                &&& all_terminated(report, *config, inputs@.len())
            },
            Err(RunError::TransformFailed { sequence, level, stage }) => {
                &&& config_error(*config) is None
                &&& sequence < inputs@.len()
                &&& level < config.depth
                &&& fails_at(*transform, level as nat, inputs@[sequence as int])
                &&& stage == worker_id(
                    config.depth as nat,
                    true,
                    sequence as nat % config.workers as nat,
                    level as nat,
                )
            },
            Err(error) => config_error(*config) == Some(error),
        },
{
    match check_config(config) {
        Some(error) => {
            return Err(error);
        },
        None => {},
    }
    let workers: usize = config.workers;
    let depth: usize = config.depth;
    let ghost w = workers as nat;
    let ghost d = depth as nat;
    let ghost original = inputs@;
    let ghost start = pipeline_at_start(original, *config, DrainPolicy::RoundRobin);
    proof {
        assert(depth <= workers * depth) by (nonlinear_arith)
            requires
                workers >= 1,
        ;
    }
    let layout = build_pipeline(workers, depth, true).unwrap();
    let lasts = level_ids(&layout, depth - 1, Ghost(d));
    let total: usize = inputs.len();
    let mut plant = build_plant(inputs, config, DrainPolicy::RoundRobin, &lasts);
    let ghost mut m = start;
    proof {
        lemma_start_is_consistent(
            original,
            lasts@,
            d,
            config.capacity as nat,
            DrainPolicy::RoundRobin,
            *transform,
        );
        lemma_start_is_in_step(original, lasts@, d, config.capacity as nat);
        lemma_remaining_is_not_negative(m, *transform);
    }
    while plant.sink.state() != StageState::Terminated
        invariant
            0 < workers,
            0 < depth,
            w == workers,
            d == depth,
            config.workers == workers,
            config.depth == depth,
            config_error(*config) is None,
            original == inputs@,
            total == original.len(),
            deterministic(*transform),
            forall|i: int|
                0 <= i < original.len() ==> callable_along(*transform, d, #[trigger] original[i]),
            lays_out(layout, w, d, true),
            consistent(m, *transform),
            in_step(m),
            m.depth == d,
            m.lanes.len() == w,
            plant_mirrors(plant, m, original),
            0 <= remaining(m),
        decreases remaining(m),
    {
        let ghost round_start = m;
        let ghost mut mover = Step::Poll;
        proof {
            mover = lemma_some_stage_can_move(m, *transform);
        }
        let mut moved: bool = false;
        // The sink first, then the workers from the first lane to the last,
        // then the source.
        moved = round_turn(
            &mut plant,
            Step::Poll,
            transform,
            moved,
            Ghost(m),
            Ghost(original),
            Ghost(round_start),
        );
        proof {
            m = after_step(m, *transform, Step::Poll);
        }
        let mut lane: usize = 0;
        while lane < workers
            invariant
                lane <= workers,
                0 < workers,
                0 < depth,
                w == workers,
                d == depth,
                config.workers == workers,
                config.depth == depth,
                config_error(*config) is None,
                original == inputs@,
                total == original.len(),
                deterministic(*transform),
                forall|i: int|
                    0 <= i < original.len() ==> callable_along(*transform, d, #[trigger] original[i]),
                lays_out(layout, w, d, true),
                consistent(m, *transform),
                in_step(m),
                m.depth == d,
                m.lanes.len() == w,
                plant_mirrors(plant, m, original),
                0 <= remaining(m),
                !moved ==> m == round_start,
                moved ==> remaining(m) < remaining(round_start),
                !moved ==> !can_move(round_start, Step::Poll),
                !moved ==> forall|k: int, j: int|
                    0 <= k < lane && 0 <= j < depth ==> #[trigger] worker_is_held(round_start, k, j),
            decreases workers - lane,
        {
            let mut level: usize = 0;
            while level < depth
                invariant
                    lane < workers,
                    level <= depth,
                    0 < workers,
                    0 < depth,
                    w == workers,
                    d == depth,
                    config.workers == workers,
                    config.depth == depth,
                    config_error(*config) is None,
                    original == inputs@,
                    total == original.len(),
                    deterministic(*transform),
                    forall|i: int|
                        0 <= i < original.len() ==> callable_along(
                            *transform,
                            d,
                            #[trigger] original[i],
                        ),
                    lays_out(layout, w, d, true),
                    consistent(m, *transform),
                    in_step(m),
                    m.depth == d,
                    m.lanes.len() == w,
                    plant_mirrors(plant, m, original),
                    0 <= remaining(m),
                    !moved ==> m == round_start,
                    moved ==> remaining(m) < remaining(round_start),
                    !moved ==> !can_move(round_start, Step::Poll),
                    !moved ==> forall|k: int, j: int|
                        0 <= k < lane && 0 <= j < depth ==> #[trigger] worker_is_held(
                            round_start,
                            k,
                            j,
                        ),
                    !moved ==> forall|j: int|
                        0 <= j < level ==> #[trigger] worker_is_held(round_start, lane as int, j),
                decreases depth - level,
            {
                let step = Step::Work { lane, level };
                match round_step(
                    &mut plant,
                    step,
                    transform,
                    moved,
                    Ghost(m),
                    Ghost(original),
                    Ghost(round_start),
                ) {
                    Ok(now) => {
                        moved = now;
                    },
                    Err(sequence) => {
                        proof {
                            assert(layout.lanes@[lane as int]@.len() == d);
                            lemma_failure_stays(
                                *transform,
                                (level + 1) as nat,
                                d,
                                original[sequence as int],
                            );
                        }
                        return Err(
                            RunError::TransformFailed {
                                sequence,
                                level,
                                stage: layout.lanes[lane][level],
                            },
                        );
                    },
                }
                proof {
                    m = after_step(m, *transform, step);
                    if !moved {
                        assert(worker_is_held(round_start, lane as int, level as int));
                    }
                }
                level = level + 1;
            }
            lane = lane + 1;
        }
        moved = round_turn(
            &mut plant,
            Step::Emit,
            transform,
            moved,
            Ghost(m),
            Ghost(original),
            Ghost(round_start),
        );
        proof {
            m = after_step(m, *transform, Step::Emit);
        }
        moved = round_turn(
            &mut plant,
            Step::CloseSource,
            transform,
            moved,
            Ghost(m),
            Ghost(original),
            Ghost(round_start),
        );
        proof {
            m = after_step(m, *transform, Step::CloseSource);
            // Some stage could move when the round began, and every stage had its turn.
            if !moved {
                match mover {
                    Step::Work { lane, level } => {
                        assert(worker_is_held(round_start, lane as int, level as int));
                    },
                    _ => {},
                }
            }
            assert(moved);
        }
    }
    let ghost collected = plant.sink.collected();
    let count: usize = plant.sink.collected_count();
    proof {
        let sorted = in_sequence_order(collected);
        lemma_in_sequence_order_exists(collected);
        lemma_finished_run_is_complete(m, *transform, sorted);
        vstd::seq_lib::to_multiset_len(collected);
        vstd::seq_lib::to_multiset_len(sorted);
        assert forall|k: int| 0 <= k < workers implies (#[trigger] plant.lanes@[k]).workers@.len()
            == depth by {
            assert(lane_mirrors(plant.lanes@[k], m.lanes[k], d));
        }
        assert forall|k: int, j: int| 0 <= k < workers && 0 <= j < depth implies (#[trigger] plant.lanes@[k].workers@[j])@.phase is Terminated
            && plant.lanes@[k].workers@[j]@.handled == lane_len(total as nat, w, k as nat) by {
            assert(lane_mirrors(plant.lanes@[k], m.lanes[k], d));
            assert(m.lanes[k].workers[j].phase is Terminated);
        }
    }
    let reports = report_workers(&plant.lanes, &layout, config, Ghost(total as nat));
    let source_state = if plant.source_closed {
        StageState::Terminated
    } else {
        StageState::WaitingForInput
    };
    let sink_state = plant.sink.state();
    let output = plant.sink.finish();
    proof {
        assert(output@ =~= transformed(*transform, d, original));
    }
    Ok(
        RunReport {
            output,
            source: StageReport { stage: layout.source, state: source_state, handled: plant.emitted },
            sink: StageReport { stage: layout.sink.unwrap(), state: sink_state, handled: count },
            lanes: reports,
        },
    )
}

} // verus!
