use ordered_pipeline::channel::{Channel, SendError};
use ordered_pipeline::distributor::Distributor;
use ordered_pipeline::fragment::Fragment;
use ordered_pipeline::model::Step;
use ordered_pipeline::runner::{PipelineConfig, RunError};
use ordered_pipeline::scheduler::run_schedule;
use ordered_pipeline::sink::Sink;
use ordered_pipeline::stage::{DrainPolicy, StageEvent, StageState};
use ordered_pipeline::stage_id::StageId;
use ordered_pipeline::worker::Worker;

fn triple(level: usize, x: u32) -> Option<u32> {
    Some(x * 3 + level as u32)
}

#[test]
fn worker_goes_through_its_life_cycle() {
    let mut input = Channel::new(2).unwrap();
    let mut output = Channel::new(1).unwrap();
    let mut worker = Worker::new(1);
    assert_eq!(worker.level(), 1);
    assert_eq!(worker.state(), StageState::WaitingForInput);

    // Nothing to receive yet: an empty channel is no end of input.
    assert_eq!(worker.turn(&mut input, &mut output, &triple), Some(StageEvent::InputEmpty));
    assert_eq!(worker.state(), StageState::WaitingForInput);

    input.send(Fragment::new(4, 10)).unwrap();
    input.send(Fragment::new(7, 20)).unwrap();
    input.close();
    assert_eq!(worker.turn(&mut input, &mut output, &triple), Some(StageEvent::Received));
    assert_eq!(worker.state(), StageState::Processing);
    assert_eq!(worker.handled(), 1);
    assert_eq!(worker.turn(&mut input, &mut output, &triple), Some(StageEvent::Transformed));
    assert_eq!(worker.state(), StageState::Emitting);
    assert_eq!(worker.turn(&mut input, &mut output, &triple), Some(StageEvent::Sent));
    assert_eq!(output.len(), 1);

    // The second fragment finds the output full: the worker keeps it and tries again.
    assert_eq!(worker.turn(&mut input, &mut output, &triple), Some(StageEvent::Received));
    assert_eq!(worker.turn(&mut input, &mut output, &triple), Some(StageEvent::Transformed));
    assert_eq!(worker.turn(&mut input, &mut output, &triple), Some(StageEvent::OutputFull));
    assert_eq!(worker.state(), StageState::Emitting);
    assert_eq!(output.receive(), Ok(Fragment::new(4, 31)));
    assert_eq!(worker.turn(&mut input, &mut output, &triple), Some(StageEvent::Sent));
    assert_eq!(output.receive(), Ok(Fragment::new(7, 61)));

    // The input is closed and empty: the worker closes its output, once.
    assert_eq!(worker.turn(&mut input, &mut output, &triple), Some(StageEvent::InputsExhausted));
    assert_eq!(worker.state(), StageState::ClosingOutputs);
    assert!(!output.is_closed());
    assert_eq!(worker.turn(&mut input, &mut output, &triple), Some(StageEvent::OutputsClosed));
    assert!(output.is_closed());
    assert_eq!(worker.state(), StageState::Terminated);
    assert_eq!(worker.turn(&mut input, &mut output, &triple), None);
    assert_eq!(worker.handled(), 2);
}

#[test]
fn worker_steps_do_nothing_out_of_turn() {
    let mut channel = Channel::new(1).unwrap();
    let mut worker: Worker<u32> = Worker::new(0);
    assert_eq!(worker.process(&triple), None);
    assert_eq!(worker.send_to(&mut channel), None);
    assert_eq!(worker.close_output(&mut channel), None);
    assert_eq!(worker.state(), StageState::WaitingForInput);
    assert!(!channel.is_closed());
    channel.send(Fragment::new(0, 1)).unwrap();
    assert_eq!(worker.receive_from(&mut channel), Some(StageEvent::Received));
    assert_eq!(worker.receive_from(&mut channel), None);
}

#[test]
fn worker_closes_its_output_after_a_failure() {
    let never = |_: usize, _: u32| None;
    let mut input = Channel::new(1).unwrap();
    let mut output = Channel::new(1).unwrap();
    let mut worker = Worker::new(0);
    input.send(Fragment::new(0, 1u32)).unwrap();
    assert_eq!(worker.turn(&mut input, &mut output, &never), Some(StageEvent::Received));
    assert_eq!(worker.turn(&mut input, &mut output, &never), Some(StageEvent::TransformFailed));
    assert_eq!(worker.state(), StageState::ClosingOutputs);
    assert_eq!(worker.turn(&mut input, &mut output, &never), Some(StageEvent::OutputsClosed));
    assert!(output.is_closed());
}

#[test]
fn worker_gives_up_on_a_broken_pipe() {
    let mut input = Channel::new(1).unwrap();
    let mut output = Channel::new(1).unwrap();
    let mut worker = Worker::new(0);
    input.send(Fragment::new(0, 1u32)).unwrap();
    output.hang_up();
    worker.turn(&mut input, &mut output, &triple);
    worker.turn(&mut input, &mut output, &triple);
    assert_eq!(worker.turn(&mut input, &mut output, &triple), Some(StageEvent::OutputLost));
    assert_eq!(worker.state(), StageState::ClosingOutputs);
    assert_eq!(output.send(Fragment::new(1, 1)).unwrap_err().reason, SendError::BrokenPipe);
}

#[test]
fn sink_collects_and_orders() {
    let ids = vec![StageId(2), StageId(3)];
    let mut channels: Vec<Channel<char>> = vec![Channel::new(4).unwrap(), Channel::new(4).unwrap()];
    let mut sink = Sink::new(&ids, DrainPolicy::Sequential);
    channels[0].send(Fragment::new(2, 'c')).unwrap();
    channels[1].send(Fragment::new(1, 'b')).unwrap();
    channels[1].send(Fragment::new(0, 'a')).unwrap();
    assert_eq!(sink.state(), StageState::WaitingForInput);
    assert_eq!(sink.current().unwrap().slot, 0);
    assert_eq!(sink.poll(&mut channels[0]), StageEvent::Received);
    // Empty but open: the producer stays.
    assert_eq!(sink.poll(&mut channels[0]), StageEvent::InputEmpty);
    assert_eq!(sink.current().unwrap().slot, 0);
    channels[0].close();
    assert_eq!(sink.poll(&mut channels[0]), StageEvent::InputsExhausted);
    assert_eq!(sink.current().unwrap().slot, 1);
    channels[1].close();
    assert_eq!(sink.poll(&mut channels[1]), StageEvent::Received);
    assert_eq!(sink.poll(&mut channels[1]), StageEvent::Received);
    assert_eq!(sink.poll(&mut channels[1]), StageEvent::InputsExhausted);
    assert_eq!(sink.state(), StageState::Terminated);
    assert_eq!(sink.current(), None);
    assert_eq!(sink.collected_count(), 3);
    assert_eq!(sink.finish(), vec!['a', 'b', 'c']);
}

/// A pipeline wired by hand and driven by a scrambled schedule: at every step
/// a generator picks the stage that may move, so that the stages proceed at
/// uneven speed and the channels run full and empty.
fn scrambled_run(
    inputs: Vec<u32>,
    workers: usize,
    depth: usize,
    capacity: usize,
    policy: DrainPolicy,
    seed: u64,
) -> Vec<u32> {
    let stages = workers * depth + 2;
    let mut lanes: Vec<Vec<Channel<u32>>> = (0..workers)
        .map(|_| (0..=depth).map(|_| Channel::new(capacity).unwrap()).collect())
        .collect();
    let mut crew: Vec<Vec<Worker<u32>>> =
        (0..workers).map(|_| (0..depth).map(Worker::new).collect()).collect();
    let firsts = (0..workers).map(|lane| StageId(2 + lane * depth)).collect();
    let lasts: Vec<StageId> = (0..workers).map(|lane| StageId(1 + (lane + 1) * depth)).collect();
    let mut distributor = Distributor::new(firsts).unwrap();
    let mut sink = Sink::new(&lasts, policy);
    let mut pending = inputs.into_iter();
    let mut held: Option<(usize, Fragment<u32>)> = None;
    let mut source_done = false;
    let mut state = seed;
    let mut steps = 0;
    while sink.state() != StageState::Terminated {
        steps += 1;
        assert!(steps < 1_000_000, "the run does not come to an end");
        state = state.wrapping_mul(6364136223846793005).wrapping_add(1442695040888963407);
        let pick = (state >> 33) as usize % stages;
        if pick == 0 {
            if source_done {
                continue;
            }
            if held.is_none() {
                held = pending.next().map(|payload| {
                    let assignment = distributor.assign().unwrap();
                    (assignment.slot, Fragment::new(assignment.sequence, payload))
                });
            }
            match held.take() {
                Some((slot, fragment)) => {
                    if let Err(rejected) = lanes[slot][0].send(fragment) {
                        assert_eq!(rejected.reason, SendError::Full);
                        held = Some((slot, rejected.fragment));
                    }
                }
                None => {
                    for lane in lanes.iter_mut() {
                        lane[0].close();
                    }
                    source_done = true;
                }
            }
        } else if pick == 1 {
            let slot = sink.current().unwrap().slot;
            sink.poll(&mut lanes[slot][depth]);
        } else {
            let (lane, level) = ((pick - 2) / depth, (pick - 2) % depth);
            let (before, after) = lanes[lane].split_at_mut(level + 1);
            crew[lane][level].turn(&mut before[level], &mut after[0], &triple);
        }
    }
    for lane in &crew {
        for worker in lane {
            assert_eq!(worker.state(), StageState::Terminated);
        }
    }
    for lane in &lanes {
        for channel in lane {
            assert!(channel.is_exhausted());
        }
    }
    sink.finish()
}

#[test]
fn output_order_survives_every_schedule() {
    let inputs: Vec<u32> = (0..60).collect();
    let expected: Vec<u32> = inputs.iter().map(|x| (x * 3) * 3 + 1).collect();
    for seed in 0..25 {
        for (workers, capacity) in [(1, 1), (3, 1), (4, 2), (7, 5)] {
            let output =
                scrambled_run(inputs.clone(), workers, 2, capacity, DrainPolicy::RoundRobin, seed);
            assert_eq!(output, expected, "seed {} workers {}", seed, workers);
        }
    }
}

#[test]
fn sequential_draining_needs_room_but_keeps_the_order() {
    // Lane after lane: the later lanes have to hold all their fragments meanwhile.
    let inputs: Vec<u32> = (0..40).collect();
    let expected: Vec<u32> = inputs.iter().map(|x| x * 3).collect();
    for seed in 0..10 {
        let output = scrambled_run(inputs.clone(), 4, 1, 10, DrainPolicy::Sequential, seed);
        assert_eq!(output, expected);
    }
}

#[test]
fn scrambled_run_of_nothing_terminates() {
    assert!(scrambled_run(Vec::new(), 3, 2, 1, DrainPolicy::RoundRobin, 9).is_empty());
}

fn sweeps(workers: usize, depth: usize, count: usize) -> Vec<Step> {
    // Every stage once, from the sink up to the source, again and again.
    let mut schedule = Vec::new();
    for _ in 0..count {
        schedule.push(Step::Poll);
        for level in (0..depth).rev() {
            for lane in 0..workers {
                schedule.push(Step::Work { lane, level });
            }
        }
        schedule.push(Step::Emit);
        schedule.push(Step::CloseSource);
    }
    schedule
}

fn scrambled(workers: usize, depth: usize, length: usize, seed: u64) -> Vec<Step> {
    let stages = workers * depth + 3;
    let mut state = seed;
    (0..length)
        .map(|_| {
            state = state.wrapping_mul(6364136223846793005).wrapping_add(1442695040888963407);
            match (state >> 33) as usize % stages {
                0 => Step::Emit,
                1 => Step::CloseSource,
                2 => Step::Poll,
                pick => Step::Work { lane: (pick - 3) / depth, level: (pick - 3) % depth },
            }
        })
        .collect()
}

#[test]
fn given_schedule_runs_to_the_end() {
    let config = PipelineConfig { workers: 3, depth: 2, capacity: 1 };
    let inputs: Vec<u32> = (0..10).collect();
    let expected: Vec<u32> = inputs.iter().map(|x| (x * 3) * 3 + 1).collect();
    let schedule = sweeps(3, 2, 200);
    let output = run_schedule(inputs, &config, DrainPolicy::RoundRobin, &triple, &schedule);
    assert_eq!(output, Ok(Some(expected)));
}

#[test]
fn schedule_that_ends_early_gives_no_output() {
    let config = PipelineConfig { workers: 2, depth: 1, capacity: 4 };
    let inputs: Vec<u32> = (0..10).collect();
    let early = sweeps(2, 1, 3);
    assert_eq!(run_schedule(inputs.clone(), &config, DrainPolicy::RoundRobin, &triple, &early), Ok(None));
    let nothing: Vec<Step> = Vec::new();
    assert_eq!(
        run_schedule(inputs, &config, DrainPolicy::RoundRobin, &triple, &nothing),
        Ok(None)
    );
}

#[test]
fn empty_input_finishes_when_the_closure_has_arrived() {
    let config = PipelineConfig { workers: 2, depth: 1, capacity: 1 };
    // The source closes; each worker finds its input closed and closes its output;
    // the sink finds both producers closed.
    let schedule = vec![
        Step::CloseSource,
        Step::Work { lane: 0, level: 0 },
        Step::Work { lane: 0, level: 0 },
        Step::Work { lane: 1, level: 0 },
        Step::Work { lane: 1, level: 0 },
        Step::Poll,
        Step::Poll,
    ];
    let done =
        run_schedule(Vec::<u32>::new(), &config, DrainPolicy::RoundRobin, &triple, &schedule);
    assert_eq!(done, Ok(Some(vec![])));
    let one_short = &schedule[..6].to_vec();
    let open =
        run_schedule(Vec::<u32>::new(), &config, DrainPolicy::RoundRobin, &triple, one_short);
    assert_eq!(open, Ok(None));
}

#[test]
fn steps_out_of_range_change_nothing() {
    let config = PipelineConfig { workers: 1, depth: 1, capacity: 1 };
    let schedule = vec![
        Step::Work { lane: 5, level: 0 },
        Step::Work { lane: 0, level: 9 },
        Step::Emit,
        Step::Work { lane: 0, level: 0 },
        Step::Work { lane: 0, level: 0 },
        Step::Work { lane: 0, level: 0 },
        Step::Poll,
        Step::CloseSource,
        Step::Work { lane: 0, level: 0 },
        Step::Work { lane: 0, level: 0 },
        Step::Poll,
    ];
    let output = run_schedule(vec![5u32], &config, DrainPolicy::RoundRobin, &triple, &schedule);
    assert_eq!(output, Ok(Some(vec![15])));
}

#[test]
fn scrambled_schedules_give_the_same_output() {
    let inputs: Vec<u32> = (0..30).collect();
    let expected: Vec<u32> = inputs.iter().map(|x| (x * 3) * 3 + 1).collect();
    for seed in 0..20 {
        for (workers, capacity) in [(1, 1), (2, 1), (5, 3)] {
            let config = PipelineConfig { workers, depth: 2, capacity };
            let schedule = scrambled(workers, 2, 20_000, seed);
            let output =
                run_schedule(inputs.clone(), &config, DrainPolicy::RoundRobin, &triple, &schedule);
            assert_eq!(output, Ok(Some(expected.clone())), "seed {} workers {}", seed, workers);
        }
    }
}

#[test]
fn sequential_draining_under_a_given_schedule() {
    let inputs: Vec<u32> = (0..12).collect();
    let expected: Vec<u32> = inputs.iter().map(|x| x * 3).collect();
    let roomy = PipelineConfig { workers: 3, depth: 1, capacity: 4 };
    let schedule = scrambled(3, 1, 5_000, 77);
    assert_eq!(
        run_schedule(inputs.clone(), &roomy, DrainPolicy::Sequential, &triple, &schedule),
        Ok(Some(expected))
    );
    // With room for one fragment the later lanes run full while the sink
    // waits for the first lane to close: the run never ends.
    let tight = PipelineConfig { workers: 3, depth: 1, capacity: 1 };
    assert_eq!(
        run_schedule(inputs, &tight, DrainPolicy::Sequential, &triple, &schedule),
        Ok(None)
    );
}

#[test]
fn failed_transform_ends_a_scheduled_run() {
    let picky = |level: usize, x: u32| if level == 1 && x == 4 { None } else { Some(x) };
    let config = PipelineConfig { workers: 3, depth: 2, capacity: 2 };
    let outcome =
        run_schedule((0..9).collect(), &config, DrainPolicy::RoundRobin, &picky, &sweeps(3, 2, 100));
    assert_eq!(
        outcome,
        Err(RunError::TransformFailed { sequence: 4, level: 1, stage: StageId(2 + 2 + 1) })
    );
    // A schedule that stops before the failing step does not fail.
    let before = run_schedule(
        (0..9).collect(),
        &config,
        DrainPolicy::RoundRobin,
        &picky,
        &vec![Step::Emit, Step::Work { lane: 0, level: 0 }],
    );
    assert_eq!(before, Ok(None));
}

#[test]
fn scheduled_run_checks_the_configuration_first() {
    let none = PipelineConfig { workers: 0, depth: 1, capacity: 1 };
    let nothing: Vec<Step> = Vec::new();
    assert_eq!(
        run_schedule(vec![1u32], &none, DrainPolicy::RoundRobin, &triple, &nothing),
        Err(RunError::NoWorkers)
    );
    let no_room = PipelineConfig { workers: 1, depth: 1, capacity: 0 };
    assert_eq!(
        run_schedule(vec![1u32], &no_room, DrainPolicy::RoundRobin, &triple, &nothing),
        Err(RunError::ZeroCapacity)
    );
}
