//! A worker stage at run time: it waits for a fragment, transforms it, sends
//! it on, and waits again, until its input is closed and empty; then it
//! closes its output and is terminated. Each method does one step of that
//! life cycle and touches one channel at most, so that any scheduler can
//! drive any number of workers in any order.

use crate::channel::{closed_state, refusal, Channel, ChannelState, RecvError, SendError};
use crate::fragment::Fragment;
use crate::stage::{StageEvent, StageState};
use crate::transform::{deterministic, outcome};
use vstd::prelude::*;

verus! {

/// Where a worker stands, with the fragment it holds while it works on it.
pub enum Phase<T> {
    Waiting,
    Processing(Fragment<T>),
    Emitting(Fragment<T>),
    Closing,
    Terminated,
}

/// A worker, as a mathematical value.
pub struct WorkerView<T> {
    /// The level of the worker in its lane: what the transform is called with.
    pub level: usize,
    pub phase: Phase<T>,
    /// The number of fragments received so far.
    pub handled: usize,
}

/// A worker stage.
pub struct Worker<T> {
    level: usize,
    phase: Phase<T>,
    handled: usize,
}

impl<T> View for Worker<T> {
    type V = WorkerView<T>;

    closed spec fn view(&self) -> WorkerView<T> {
        WorkerView { level: self.level, phase: self.phase, handled: self.handled }
    }
}

/// The state of the life cycle that a phase belongs to.
pub open spec fn state_of<T>(phase: Phase<T>) -> StageState {
    match phase {
        Phase::Waiting => StageState::WaitingForInput,
        Phase::Processing(_) => StageState::Processing,
        Phase::Emitting(_) => StageState::Emitting,
        Phase::Closing => StageState::ClosingOutputs,
        Phase::Terminated => StageState::Terminated,
    }
}

/// One more fragment counted; the count stops at the largest number.
pub open spec fn counted(handled: usize) -> usize {
    if handled < usize::MAX {
        (handled + 1) as usize
    } else {
        handled
    }
}

/// A waiting worker asks its input: worker, input and event afterwards. A
/// worker in another phase does nothing.
pub open spec fn after_receive<T>(worker: WorkerView<T>, input: ChannelState<T>) -> (
    WorkerView<T>,
    ChannelState<T>,
    Option<StageEvent>,
) {
    if !(worker.phase is Waiting) {
        (worker, input, None)
    } else if input.queued.len() > 0 {
        (
            WorkerView {
                phase: Phase::Processing(input.queued[0]),
                handled: counted(worker.handled),
                ..worker
            },
            ChannelState { queued: input.queued.drop_first(), ..input },
            Some(StageEvent::Received),
        )
    } else if input.closed {
        (WorkerView { phase: Phase::Closing, ..worker }, input, Some(StageEvent::InputsExhausted))
    } else {
        (worker, input, Some(StageEvent::InputEmpty))
    }
}

/// A processing worker transforms the fragment it holds: worker and event
/// afterwards. The sequence number stays; a failure sends the worker to close
/// its output. A worker in another phase does nothing.
pub open spec fn after_process<T, F: Fn(usize, T) -> Option<T>>(worker: WorkerView<T>, f: F) -> (
    WorkerView<T>,
    Option<StageEvent>,
) {
    match worker.phase {
        Phase::Processing(fragment) => match outcome(f, worker.level, fragment.payload) {
            Some(payload) => (
                WorkerView {
                    phase: Phase::Emitting(Fragment { sequence: fragment.sequence, payload }),
                    ..worker
                },
                Some(StageEvent::Transformed),
            ),
            None => (WorkerView { phase: Phase::Closing, ..worker }, Some(StageEvent::TransformFailed)),
        },
        _ => (worker, None),
    }
}

/// An emitting worker offers its fragment to the output: worker, output and
/// event afterwards. A full output leaves the worker holding the fragment; a
/// closed or broken one sends it to close its output. A worker in another
/// phase does nothing.
pub open spec fn after_send<T>(worker: WorkerView<T>, output: ChannelState<T>) -> (
    WorkerView<T>,
    ChannelState<T>,
    Option<StageEvent>,
) {
    match worker.phase {
        Phase::Emitting(fragment) => match refusal(output) {
            None => (
                WorkerView { phase: Phase::Waiting, ..worker },
                ChannelState { queued: output.queued.push(fragment), ..output },
                Some(StageEvent::Sent),
            ),
            Some(SendError::Full) => (worker, output, Some(StageEvent::OutputFull)),
            Some(_) => (
                WorkerView { phase: Phase::Closing, ..worker },
                output,
                Some(StageEvent::OutputLost),
            ),
        },
        _ => (worker, output, None),
    }
}

/// A closing worker closes its output and is terminated: worker, output and
/// event afterwards. A worker in another phase does nothing.
pub open spec fn after_close<T>(worker: WorkerView<T>, output: ChannelState<T>) -> (
    WorkerView<T>,
    ChannelState<T>,
    Option<StageEvent>,
) {
    if worker.phase is Closing {
        (
            WorkerView { phase: Phase::Terminated, ..worker },
            closed_state(output),
            Some(StageEvent::OutputsClosed),
        )
    } else {
        (worker, output, None)
    }
}

impl<T> Worker<T> {
    /// A worker at level `level` that waits for its first fragment.
    pub fn new(level: usize) -> (worker: Worker<T>)
        ensures
            worker@ == (WorkerView::<T> { level, phase: Phase::Waiting, handled: 0 }),
    {
        Worker { level, phase: Phase::Waiting, handled: 0 }
    }

    /// The level of the worker in its lane.
    pub fn level(&self) -> (level: usize)
        ensures
            level == self@.level,
    {
        self.level
    }

    /// The number of fragments received so far.
    pub fn handled(&self) -> (handled: usize)
        ensures
            handled == self@.handled,
    {
        self.handled
    }

    /// Where the worker stands in its life cycle.
    pub fn state(&self) -> (state: StageState)
        ensures
            state == state_of(self@.phase),
    {
        match &self.phase {
            Phase::Waiting => StageState::WaitingForInput,
            Phase::Processing(_) => StageState::Processing,
            Phase::Emitting(_) => StageState::Emitting,
            Phase::Closing => StageState::ClosingOutputs,
            Phase::Terminated => StageState::Terminated,
        }
    }

    /// The sequence number of the fragment that the worker holds, if it holds one.
    pub fn held_sequence(&self) -> (sequence: Option<u64>)
        ensures
            sequence == (match self@.phase {
                Phase::Processing(fragment) => Some(fragment.sequence),
                Phase::Emitting(fragment) => Some(fragment.sequence),
                _ => None,
            }),
    {
        match &self.phase {
            Phase::Processing(fragment) => Some(fragment.sequence),
            Phase::Emitting(fragment) => Some(fragment.sequence),
            _ => None,
        }
    }

    /// A waiting worker asks its input for a fragment.
    pub fn receive_from(&mut self, input: &mut Channel<T>) -> (event: Option<StageEvent>)
        ensures
            (final(self)@, final(input)@, event) == after_receive(old(self)@, old(input)@),
    {
        match &self.phase {
            Phase::Waiting => {},
            _ => {
                return None;
            },
        }
        match input.receive() {
            Ok(fragment) => {
                self.phase = Phase::Processing(fragment);
                if self.handled < usize::MAX {
                    self.handled = self.handled + 1;
                }
                Some(StageEvent::Received)
            },
            Err(RecvError::Closed) => {
                self.phase = Phase::Closing;
                Some(StageEvent::InputsExhausted)
            },
            Err(RecvError::Empty) => Some(StageEvent::InputEmpty),
        }
    }

    /// A processing worker applies the transform to the fragment it holds.
    pub fn process<F: Fn(usize, T) -> Option<T>>(&mut self, transform: &F) -> (event: Option<
        StageEvent,
    >)
        requires
            deterministic(*transform),
            old(self)@.phase matches Phase::Processing(fragment) ==> call_requires(
                *transform,
                (old(self)@.level, fragment.payload),
            ),
        ensures
            (final(self)@, event) == after_process(old(self)@, *transform),
            old(self)@.phase matches Phase::Processing(fragment) ==> call_ensures(
                *transform,
                (old(self)@.level, fragment.payload),
                outcome(*transform, old(self)@.level, fragment.payload),
            ),
    {
        let mut phase: Phase<T> = Phase::Waiting;
        core::mem::swap(&mut self.phase, &mut phase);
        match phase {
            Phase::Processing(fragment) => {
                let sequence: u64 = fragment.sequence;
                match transform(self.level, fragment.payload) {
                    Some(payload) => {
                        self.phase = Phase::Emitting(Fragment { sequence, payload });
                        Some(StageEvent::Transformed)
                    },
                    None => {
                        self.phase = Phase::Closing;
                        Some(StageEvent::TransformFailed)
                    },
                }
            },
            other => {
                self.phase = other;
                None
            },
        }
    }

    /// An emitting worker offers the fragment it holds to its output.
    pub fn send_to(&mut self, output: &mut Channel<T>) -> (event: Option<StageEvent>)
        ensures
            (final(self)@, final(output)@, event) == after_send(old(self)@, old(output)@),
    {
        let mut phase: Phase<T> = Phase::Waiting;
        core::mem::swap(&mut self.phase, &mut phase);
        match phase {
            Phase::Emitting(fragment) => match output.send(fragment) {
                Ok(_) => Some(StageEvent::Sent),
                Err(rejected) => match rejected.reason {
                    SendError::Full => {
                        self.phase = Phase::Emitting(rejected.fragment);
                        Some(StageEvent::OutputFull)
                    },
                    _ => {
                        self.phase = Phase::Closing;
                        Some(StageEvent::OutputLost)
                    },
                },
            },
            other => {
                self.phase = other;
                None
            },
        }
    }

    /// A closing worker closes its output and is terminated.
    pub fn close_output(&mut self, output: &mut Channel<T>) -> (event: Option<StageEvent>)
        ensures
            (final(self)@, final(output)@, event) == after_close(old(self)@, old(output)@),
    {
        match &self.phase {
            Phase::Closing => {},
            _ => {
                return None;
            },
        }
        output.close();
        self.phase = Phase::Terminated;
        Some(StageEvent::OutputsClosed)
    }

    /// The next step of the worker, whatever it is. A terminated worker does
    /// nothing.
    pub fn turn<F: Fn(usize, T) -> Option<T>>(
        &mut self,
        input: &mut Channel<T>,
        output: &mut Channel<T>,
        transform: &F,
    ) -> (event: Option<StageEvent>)
        requires
            deterministic(*transform),
            old(self)@.phase matches Phase::Processing(fragment) ==> call_requires(
                *transform,
                (old(self)@.level, fragment.payload),
            ),
        ensures
            match old(self)@.phase {
                Phase::Waiting => (final(self)@, final(input)@, event) == after_receive(
                    old(self)@,
                    old(input)@,
                ) && final(output)@ == old(output)@,
                Phase::Processing(fragment) => (final(self)@, event) == after_process(
                    old(self)@,
                    *transform,
                ) && final(input)@ == old(input)@ && final(output)@ == old(output)@
                    && call_ensures(
                    *transform,
                    (old(self)@.level, fragment.payload),
                    outcome(*transform, old(self)@.level, fragment.payload),
                ),
                Phase::Emitting(_) => (final(self)@, final(output)@, event) == after_send(
                    old(self)@,
                    old(output)@,
                ) && final(input)@ == old(input)@,
                Phase::Closing => (final(self)@, final(output)@, event) == after_close(
                    old(self)@,
                    old(output)@,
                ) && final(input)@ == old(input)@,
                Phase::Terminated => final(self)@ == old(self)@ && final(input)@ == old(input)@
                    && final(output)@ == old(output)@ && event is None,
            },
    {
        match self.state() {
            StageState::WaitingForInput => self.receive_from(input),
            StageState::Processing => self.process(transform),
            StageState::Emitting => self.send_to(output),
            StageState::ClosingOutputs => self.close_output(output),
            StageState::Terminated => None,
        }
    }
}

} // verus!
