use ordered_pipeline::runner::{run, PipelineConfig, RunError, RunReport};
use ordered_pipeline::scheduler::run_pipelined;
use ordered_pipeline::stage::StageState;
use ordered_pipeline::stage_id::StageId;
use ordered_pipeline::stagewise::run_stage_by_stage;

fn config(workers: usize, depth: usize) -> PipelineConfig {
    PipelineConfig { workers, depth, capacity: 4 }
}

fn double(_level: usize, payload: Vec<u8>) -> Option<Vec<u8>> {
    Some(payload.iter().map(|byte| byte.wrapping_mul(2)).collect())
}

fn concat(report: &RunReport<Vec<u8>>) -> Vec<u8> {
    report.output.iter().flat_map(|payload| payload.iter().copied()).collect()
}

#[test]
fn ten_fragments_three_workers_doubling() {
    let inputs: Vec<Vec<u8>> = (0u8..10).map(|i| vec![i]).collect();
    let report = run(inputs, &config(3, 1), &double).unwrap();
    assert_eq!(concat(&report), vec![0, 2, 4, 6, 8, 10, 12, 14, 16, 18]);
}

#[test]
fn one_worker_and_eight_workers_agree() {
    let inputs: Vec<Vec<u8>> = (0u8..100).map(|i| vec![i, i.wrapping_add(1)]).collect();
    let single = run(inputs.clone(), &config(1, 1), &double).unwrap();
    let eight = run(inputs, &config(8, 1), &double).unwrap();
    assert_eq!(single.output, eight.output);
    assert_eq!(single.output.len(), 100);
    assert_eq!(single.output[7], vec![14, 16]);
}

#[test]
fn empty_input_gives_empty_closed_run() {
    let inputs: Vec<Vec<u8>> = Vec::new();
    let report = run(inputs, &config(4, 2), &double).unwrap();
    assert!(report.output.is_empty());
    assert_eq!(report.source.state, StageState::Terminated);
    assert_eq!(report.sink.state, StageState::Terminated);
    assert_eq!(report.source.handled, 0);
    assert_eq!(report.lanes.len(), 4);
    for lane in &report.lanes {
        assert_eq!(lane.len(), 2);
        for stage in lane {
            assert_eq!(stage.state, StageState::Terminated);
            assert_eq!(stage.handled, 0);
        }
    }
}

#[test]
fn every_stage_terminates_with_idle_lanes() {
    // Two fragments over five lanes: three lanes never see a fragment.
    let inputs: Vec<u32> = vec![7, 9];
    let report = run(inputs, &config(5, 3), &|_, x: u32| Some(x + 1)).unwrap();
    assert_eq!(report.output, vec![10, 12]);
    let handled: Vec<usize> = report.lanes.iter().map(|lane| lane[0].handled).collect();
    assert_eq!(handled, vec![1, 1, 0, 0, 0]);
    for lane in &report.lanes {
        for stage in lane {
            assert_eq!(stage.state, StageState::Terminated);
        }
    }
}

#[test]
fn round_robin_shares_are_floor_or_ceiling() {
    let inputs: Vec<u32> = (0..10).collect();
    let report = run(inputs, &config(3, 2), &|_, x: u32| Some(x)).unwrap();
    let handled: Vec<usize> = report.lanes.iter().map(|lane| lane[1].handled).collect();
    assert_eq!(handled, vec![4, 3, 3]);
    assert_eq!(report.source.handled, 10);
    assert_eq!(report.sink.handled, 10);
    assert_eq!(report.source.stage, StageId(0));
    assert_eq!(report.sink.stage, StageId(1));
    assert_eq!(report.lanes[0][0].stage, StageId(2));
    assert_eq!(report.lanes[0][1].stage, StageId(3));
    assert_eq!(report.lanes[2][1].stage, StageId(7));
}

#[test]
fn levels_apply_in_order() {
    // Level 0 adds one, level 1 doubles: (x + 1) * 2, not x * 2 + 1.
    let stages = |level: usize, x: u32| if level == 0 { Some(x + 1) } else { Some(x * 2) };
    let report = run(vec![1, 2, 3, 4], &config(2, 2), &stages).unwrap();
    assert_eq!(report.output, vec![4, 6, 8, 10]);
}

#[test]
fn output_order_is_emission_order_for_every_width() {
    let inputs: Vec<u32> = (0..37).map(|i| i * i).collect();
    for workers in 1..12 {
        let report = run(inputs.clone(), &config(workers, 1), &|_, x: u32| Some(x)).unwrap();
        assert_eq!(report.output, inputs);
    }
}

#[test]
fn configuration_errors_come_first() {
    let identity = |_: usize, x: u8| Some(x);
    let none = PipelineConfig { workers: 0, depth: 0, capacity: 0 };
    assert_eq!(run(vec![1u8], &none, &identity).err(), Some(RunError::NoWorkers));
    let no_stage = PipelineConfig { workers: 2, depth: 0, capacity: 0 };
    assert_eq!(run(vec![1u8], &no_stage, &identity).err(), Some(RunError::NoStages));
    let no_room = PipelineConfig { workers: 2, depth: 1, capacity: 0 };
    assert_eq!(run(vec![1u8], &no_room, &identity).err(), Some(RunError::ZeroCapacity));
    let huge = PipelineConfig { workers: usize::MAX, depth: 2, capacity: 1 };
    assert_eq!(run(Vec::<u8>::new(), &huge, &identity).err(), Some(RunError::TooManyStages));
}

#[test]
fn failed_transform_gives_up_the_run() {
    // Fragment 5 goes to lane 5 mod 3 = 2 and fails at level 1.
    let picky = |level: usize, x: u32| if level == 1 && x >= 5 { None } else { Some(x) };
    let outcome = run((0..10).collect(), &config(3, 2), &picky);
    assert_eq!(
        outcome.err(),
        Some(RunError::TransformFailed { sequence: 5, level: 1, stage: StageId(2 + 2 * 2 + 1) })
    );
}

#[test]
fn capacity_of_one_is_enough() {
    let tight = PipelineConfig { workers: 2, depth: 3, capacity: 1 };
    let report = run((0u64..50).collect(), &tight, &|level, x: u64| Some(x + level as u64)).unwrap();
    let expected: Vec<u64> = (0u64..50).map(|x| x + 3).collect();
    assert_eq!(report.output, expected);
}

#[test]
fn stage_by_stage_run_gives_the_same_output() {
    let inputs: Vec<Vec<u8>> = (0u8..10).map(|i| vec![i]).collect();
    let stagewise = run_stage_by_stage(inputs.clone(), 3, 1, &double).unwrap();
    assert_eq!(stagewise, run(inputs, &config(3, 1), &double).unwrap().output);
    let bytes: Vec<u8> = stagewise.into_iter().flatten().collect();
    assert_eq!(bytes, vec![0, 2, 4, 6, 8, 10, 12, 14, 16, 18]);
}

#[test]
fn stage_by_stage_run_for_every_width_and_depth() {
    let inputs: Vec<u32> = (0..23).collect();
    let stages = |level: usize, x: u32| Some(x * 3 + level as u32);
    let expected: Vec<u32> = inputs.iter().map(|x| (x * 3) * 3 + 1).collect();
    for workers in 1..9 {
        assert_eq!(run_stage_by_stage(inputs.clone(), workers, 2, &stages), Some(expected.clone()));
    }
    assert_eq!(run_stage_by_stage(inputs.clone(), 4, 0, &stages), Some(inputs));
    assert_eq!(run_stage_by_stage(Vec::<u32>::new(), 4, 2, &stages), Some(vec![]));
}

#[test]
fn stage_by_stage_run_needs_a_lane_and_a_working_transform() {
    let picky = |_: usize, x: u32| if x == 7 { None } else { Some(x) };
    assert_eq!(run_stage_by_stage(vec![1u32], 0, 1, &picky), None);
    assert_eq!(run_stage_by_stage((0..10).collect(), 3, 1, &picky), None);
    assert_eq!(run_stage_by_stage((0..7).collect(), 3, 1, &picky), Some((0..7).collect()));
}

#[test]
fn pipelined_run_gives_the_same_report() {
    let stages = |level: usize, x: u32| Some(x * 2 + level as u32);
    for (workers, depth, capacity) in [(1, 1, 1), (3, 2, 1), (4, 3, 2), (8, 1, 16)] {
        let config = PipelineConfig { workers, depth, capacity };
        let inputs: Vec<u32> = (0..50).collect();
        let one_by_one = run(inputs.clone(), &config, &stages).unwrap();
        let pipelined = run_pipelined(inputs, &config, &stages).unwrap();
        assert_eq!(pipelined.output, one_by_one.output);
        assert_eq!(pipelined.source, one_by_one.source);
        assert_eq!(pipelined.sink, one_by_one.sink);
        assert_eq!(pipelined.lanes, one_by_one.lanes);
    }
}

#[test]
fn pipelined_run_of_the_doubling_scenario() {
    let inputs: Vec<Vec<u8>> = (0u8..10).map(|i| vec![i]).collect();
    let report = run_pipelined(inputs, &config(3, 1), &double).unwrap();
    assert_eq!(concat(&report), vec![0, 2, 4, 6, 8, 10, 12, 14, 16, 18]);
    for lane in &report.lanes {
        assert_eq!(lane[0].state, StageState::Terminated);
    }
    let handled: Vec<usize> = report.lanes.iter().map(|lane| lane[0].handled).collect();
    assert_eq!(handled, vec![4, 3, 3]);
}

#[test]
fn pipelined_run_of_nothing_closes_every_stage() {
    let report = run_pipelined(Vec::<Vec<u8>>::new(), &config(4, 2), &double).unwrap();
    assert!(report.output.is_empty());
    assert_eq!(report.source.state, StageState::Terminated);
    assert_eq!(report.sink.state, StageState::Terminated);
    for lane in &report.lanes {
        for stage in lane {
            assert_eq!(stage.state, StageState::Terminated);
            assert_eq!(stage.handled, 0);
        }
    }
}

#[test]
fn pipelined_run_gives_up_on_a_failed_transform() {
    let picky = |level: usize, x: u32| if level == 1 && x >= 5 { None } else { Some(x) };
    match run_pipelined((0..10).collect(), &config(3, 2), &picky) {
        Err(RunError::TransformFailed { sequence, level, stage }) => {
            assert!(sequence >= 5 && sequence < 10);
            assert_eq!(level, 1);
            assert_eq!(stage, StageId(2 + (sequence as usize % 3) * 2 + 1));
        }
        other => panic!("the run did not fail: {:?}", other.map(|report| report.output)),
    }
    let none = PipelineConfig { workers: 0, depth: 1, capacity: 1 };
    assert_eq!(run_pipelined(vec![1u32], &none, &picky).err(), Some(RunError::NoWorkers));
}
