use ordered_pipeline::channel::{Channel, RecvError, Rejected, SendError};
use ordered_pipeline::distributor::{distribute, Assignment, Distributor};
use ordered_pipeline::fragment::Fragment;
use ordered_pipeline::stage::{
    advance, event_of_receive, event_of_send, fatal, next_action, DrainPolicy, FanIn, Producer,
    StageAction, StageEvent, StageState,
};
use ordered_pipeline::stage_id::StageId;

#[test]
fn channel_is_first_in_first_out() {
    let mut channel = Channel::new(3).unwrap();
    assert_eq!(channel.capacity(), 3);
    assert!(channel.has_room());
    for i in 0..3u64 {
        assert_eq!(channel.send(Fragment::new(i, i as u8)), Ok(()));
    }
    assert_eq!(channel.len(), 3);
    assert!(!channel.has_room());
    for i in 0..3u64 {
        assert_eq!(channel.receive(), Ok(Fragment::new(i, i as u8)));
    }
    assert_eq!(channel.receive(), Err(RecvError::Empty));
}

#[test]
fn channel_needs_room_for_one() {
    assert!(Channel::<u8>::new(0).is_none());
}

#[test]
fn full_channel_hands_the_fragment_back() {
    let mut channel = Channel::new(1).unwrap();
    assert_eq!(channel.send(Fragment::new(0, 'a')), Ok(()));
    assert_eq!(
        channel.send(Fragment::new(1, 'b')),
        Err(Rejected { reason: SendError::Full, fragment: Fragment::new(1, 'b') })
    );
    assert_eq!(channel.len(), 1);
    assert_eq!(channel.receive(), Ok(Fragment::new(0, 'a')));
    assert_eq!(channel.send(Fragment::new(1, 'b')), Ok(()));
}

#[test]
fn closed_channel_drains_then_reports_closed() {
    let mut channel = Channel::new(4).unwrap();
    channel.send(Fragment::new(0, 1u8)).unwrap();
    channel.send(Fragment::new(1, 2u8)).unwrap();
    assert!(!channel.is_closed());
    channel.close();
    assert!(channel.is_closed());
    assert!(!channel.is_exhausted());
    assert_eq!(channel.send(Fragment::new(2, 3u8)).unwrap_err().reason, SendError::Closed);
    assert_eq!(channel.receive(), Ok(Fragment::new(0, 1u8)));
    assert_eq!(channel.receive(), Ok(Fragment::new(1, 2u8)));
    assert_eq!(channel.receive(), Err(RecvError::Closed));
    assert!(channel.is_exhausted());
}

#[test]
fn close_is_idempotent() {
    let mut channel = Channel::new(2).unwrap();
    channel.send(Fragment::new(0, 1u8)).unwrap();
    channel.close();
    channel.close();
    assert!(channel.is_closed());
    assert_eq!(channel.len(), 1);
    assert_eq!(channel.receive(), Ok(Fragment::new(0, 1u8)));
    assert_eq!(channel.receive(), Err(RecvError::Closed));
}

#[test]
fn send_after_hang_up_is_a_broken_pipe() {
    let mut channel = Channel::new(2).unwrap();
    channel.send(Fragment::new(0, 1u8)).unwrap();
    channel.hang_up();
    assert!(channel.is_broken());
    assert_eq!(channel.len(), 0);
    let rejected = channel.send(Fragment::new(1, 2u8)).unwrap_err();
    assert_eq!(rejected.reason, SendError::BrokenPipe);
    assert_eq!(rejected.fragment, Fragment::new(1, 2u8));
}

#[test]
fn distributor_goes_round_the_destinations() {
    let destinations = vec![StageId(10), StageId(11), StageId(12)];
    let mut distributor = Distributor::new(destinations).unwrap();
    assert_eq!(distributor.width(), 3);
    let mut seen = Vec::new();
    for _ in 0..7 {
        seen.push(distributor.assign().unwrap());
    }
    let expected: Vec<Assignment> = (0..7u64)
        .map(|i| Assignment {
            destination: StageId(10 + (i % 3) as usize),
            slot: (i % 3) as usize,
            sequence: i,
        })
        .collect();
    assert_eq!(seen, expected);
    assert_eq!(distributor.count(), 7);
}

#[test]
fn distributor_needs_a_destination() {
    assert!(Distributor::new(Vec::new()).is_none());
}

#[test]
fn single_destination_takes_everything() {
    let mut distributor = Distributor::new(vec![StageId(4)]).unwrap();
    for i in 0..5u64 {
        let assignment = distributor.assign().unwrap();
        assert_eq!(assignment.destination, StageId(4));
        assert_eq!(assignment.sequence, i);
    }
}

#[test]
fn worker_life_cycle() {
    let mut state = StageState::WaitingForInput;
    assert_eq!(next_action(state), StageAction::Receive);
    state = advance(state, StageEvent::InputEmpty);
    assert_eq!(state, StageState::WaitingForInput);
    state = advance(state, StageEvent::Received);
    assert_eq!(state, StageState::Processing);
    assert_eq!(next_action(state), StageAction::Transform);
    state = advance(state, StageEvent::Transformed);
    assert_eq!(state, StageState::Emitting);
    assert_eq!(next_action(state), StageAction::Send);
    state = advance(state, StageEvent::OutputFull);
    assert_eq!(state, StageState::Emitting);
    state = advance(state, StageEvent::Sent);
    assert_eq!(state, StageState::WaitingForInput);
    state = advance(state, StageEvent::InputsExhausted);
    assert_eq!(state, StageState::ClosingOutputs);
    assert_eq!(next_action(state), StageAction::CloseOutputs);
    state = advance(state, StageEvent::OutputsClosed);
    assert_eq!(state, StageState::Terminated);
    assert_eq!(next_action(state), StageAction::Halt);
    state = advance(state, StageEvent::Received);
    assert_eq!(state, StageState::Terminated);
}

#[test]
fn failures_close_the_outputs() {
    assert_eq!(
        advance(StageState::Processing, StageEvent::TransformFailed),
        StageState::ClosingOutputs
    );
    assert_eq!(advance(StageState::Emitting, StageEvent::OutputLost), StageState::ClosingOutputs);
    assert!(fatal(StageEvent::TransformFailed));
    assert!(fatal(StageEvent::OutputLost));
    assert!(!fatal(StageEvent::OutputFull));
    assert!(!fatal(StageEvent::InputEmpty));
}

#[test]
fn events_of_transport_outcomes() {
    assert_eq!(event_of_receive(&Ok(Fragment::new(0, 1u8))), StageEvent::Received);
    assert_eq!(event_of_receive::<u8>(&Err(RecvError::Empty)), StageEvent::InputEmpty);
    assert_eq!(event_of_receive::<u8>(&Err(RecvError::Closed)), StageEvent::InputsExhausted);
    assert_eq!(event_of_send::<u8>(&Ok(())), StageEvent::Sent);
    let rejected = |reason| Err(Rejected { reason, fragment: Fragment::new(0, 1u8) });
    assert_eq!(event_of_send(&rejected(SendError::Full)), StageEvent::OutputFull);
    assert_eq!(event_of_send(&rejected(SendError::Closed)), StageEvent::OutputLost);
    assert_eq!(event_of_send(&rejected(SendError::BrokenPipe)), StageEvent::OutputLost);
}

#[test]
fn fan_in_round_robin_drops_closed_producers() {
    let ids = vec![StageId(3), StageId(5), StageId(7)];
    let mut fan_in = FanIn::new(&ids, DrainPolicy::RoundRobin);
    assert_eq!(fan_in.current(), Some(Producer { id: StageId(3), slot: 0 }));
    fan_in.fragment_received();
    assert_eq!(fan_in.current(), Some(Producer { id: StageId(5), slot: 1 }));
    // Producer 5 is closed: 7 is asked next, in its place.
    assert_eq!(fan_in.producer_closed(), Some(Producer { id: StageId(5), slot: 1 }));
    assert_eq!(fan_in.current(), Some(Producer { id: StageId(7), slot: 2 }));
    fan_in.fragment_received();
    assert_eq!(fan_in.current(), Some(Producer { id: StageId(3), slot: 0 }));
    fan_in.fragment_received();
    assert_eq!(fan_in.index(), 1);
    // The last of the list closes: the turn goes back to the first.
    assert_eq!(fan_in.producer_closed(), Some(Producer { id: StageId(7), slot: 2 }));
    assert_eq!(fan_in.index(), 0);
    assert_eq!(fan_in.remaining(), 1);
    assert!(!fan_in.is_drained());
    assert_eq!(fan_in.producer_closed(), Some(Producer { id: StageId(3), slot: 0 }));
    assert!(fan_in.is_drained());
    assert_eq!(fan_in.current(), None);
    assert_eq!(fan_in.producer_closed(), None);
}

#[test]
fn fan_in_sequential_stays_with_one_producer() {
    let ids = vec![StageId(1), StageId(2)];
    let mut fan_in = FanIn::new(&ids, DrainPolicy::Sequential);
    fan_in.fragment_received();
    fan_in.fragment_received();
    assert_eq!(fan_in.current().unwrap().id, StageId(1));
    fan_in.producer_closed();
    assert_eq!(fan_in.current().unwrap().id, StageId(2));
    fan_in.fragment_received();
    assert_eq!(fan_in.current().unwrap().id, StageId(2));
}

#[test]
fn sink_loop_over_real_channels_collects_everything() {
    // A sink that drains three producers, written with the library's pieces.
    let ids = vec![StageId(0), StageId(1), StageId(2)];
    let mut channels: Vec<Channel<u32>> = (0..3).map(|_| Channel::new(8).unwrap()).collect();
    for i in 0..7u64 {
        channels[(i % 3) as usize].send(Fragment::new(i, i as u32 * 10)).unwrap();
    }
    for channel in channels.iter_mut() {
        channel.close();
    }
    let mut fan_in = FanIn::new(&ids, DrainPolicy::RoundRobin);
    let mut collected = Vec::new();
    while let Some(producer) = fan_in.current() {
        match channels[producer.slot].receive() {
            Ok(fragment) => {
                collected.push(fragment);
                fan_in.fragment_received();
            }
            Err(RecvError::Closed) => {
                fan_in.producer_closed();
            }
            Err(RecvError::Empty) => unreachable!(),
        }
    }
    let numbers: Vec<u64> = collected.iter().map(|f| f.sequence).collect();
    assert_eq!(numbers, vec![0, 1, 2, 3, 4, 5, 6]);
}

#[test]
fn distribute_fills_the_lanes_round_robin() {
    let lanes = distribute((0..7u8).map(|i| i * 10).collect(), 3).unwrap();
    assert_eq!(
        lanes,
        vec![
            vec![Fragment::new(0, 0u8), Fragment::new(3, 30), Fragment::new(6, 60)],
            vec![Fragment::new(1, 10), Fragment::new(4, 40)],
            vec![Fragment::new(2, 20), Fragment::new(5, 50)],
        ]
    );
    assert!(distribute(vec![1u8], 0).is_none());
    assert_eq!(distribute(Vec::<u8>::new(), 2), Some(vec![vec![], vec![]]));
    // Draining the lanes one after the other and sorting restores the emission.
    let lanes = distribute((0..20u32).collect(), 6).unwrap();
    let arrivals: Vec<Fragment<u32>> = lanes.into_iter().flatten().collect();
    let sorted = ordered_pipeline::reassembler::sort_by_sequence(arrivals);
    let expected: Vec<Fragment<u32>> = (0..20u32).map(|i| Fragment::new(i as u64, i)).collect();
    assert_eq!(sorted, expected);
}
