//! Stages: the life cycle of a worker, as a function from state and event to
//! next state, and the order in which a sink drains its producers.

use crate::channel::{RecvError, Rejected, SendError};
use crate::fragment::Fragment;
use crate::stage_id::StageId;
use vstd::prelude::*;

verus! {

/// Where a worker stage stands in its life cycle.
#[derive(Clone, Copy, Debug, PartialEq, Eq, Structural)]
pub enum StageState {
    WaitingForInput,
    Processing,
    Emitting,
    ClosingOutputs,
    Terminated,
}

/// What a stage has just seen happen.
#[derive(Clone, Copy, Debug, PartialEq, Eq, Structural)]
pub enum StageEvent {
    /// An input channel gave a fragment.
    Received,
    /// The input channel asked is empty, but its producer may still send.
    InputEmpty,
    /// Every input channel is closed and empty.
    InputsExhausted,
    /// The transform gave the new payload.
    Transformed,
    /// The transform failed on the fragment.
    TransformFailed,
    /// The output channel took the fragment.
    Sent,
    /// The output channel is full.
    OutputFull,
    /// The output channel is closed, or its consumer has terminated.
    OutputLost,
    /// Every output channel has been closed.
    OutputsClosed,
}

/// What a stage does next.
#[derive(Clone, Copy, Debug, PartialEq, Eq, Structural)]
pub enum StageAction {
    Receive,
    Transform,
    Send,
    CloseOutputs,
    Halt,
}

/// The action that a stage in `state` takes.
pub open spec fn action_in(state: StageState) -> StageAction {
    match state {
        StageState::WaitingForInput => StageAction::Receive,
        StageState::Processing => StageAction::Transform,
        StageState::Emitting => StageAction::Send,
        StageState::ClosingOutputs => StageAction::CloseOutputs,
        StageState::Terminated => StageAction::Halt,
    }
}

/// The state that follows `state` on `event`. An event that cannot come in a
/// state leaves the state as it is. A failure, of the transform or of the
/// transport, sends the stage to close its outputs: no exit path leaves a
/// consumer waiting on an open channel.
pub open spec fn state_after(state: StageState, event: StageEvent) -> StageState {
    match (state, event) {
        (StageState::WaitingForInput, StageEvent::Received) => StageState::Processing,
        (StageState::WaitingForInput, StageEvent::InputsExhausted) => StageState::ClosingOutputs,
        (StageState::Processing, StageEvent::Transformed) => StageState::Emitting,
        (StageState::Processing, StageEvent::TransformFailed) => StageState::ClosingOutputs,
        (StageState::Emitting, StageEvent::Sent) => StageState::WaitingForInput,
        (StageState::Emitting, StageEvent::OutputLost) => StageState::ClosingOutputs,
        (StageState::ClosingOutputs, StageEvent::OutputsClosed) => StageState::Terminated,
        _ => state,
    }
}

/// Whether `event` is a failure that ends the whole run.
pub open spec fn is_fatal(event: StageEvent) -> bool {
    event == StageEvent::TransformFailed || event == StageEvent::OutputLost
}

/// An upper bound on the events that a stage still has to see before it is
/// terminated, once its inputs are exhausted and its output has room.
pub open spec fn steps_left(state: StageState) -> nat {
    match state {
        StageState::Processing => 5,
        StageState::Emitting => 4,
        StageState::WaitingForInput => 3,
        StageState::ClosingOutputs => 1,
        StageState::Terminated => 0,
    }
}

/// The event that a stage with drained inputs and a free output sees in `state`.
pub open spec fn draining_event(state: StageState) -> StageEvent {
    match state {
        StageState::WaitingForInput => StageEvent::InputsExhausted,
        StageState::Processing => StageEvent::Transformed,
        StageState::Emitting => StageEvent::Sent,
        _ => StageEvent::OutputsClosed,
    }
}

/// The action that a stage in `state` takes.
pub fn next_action(state: StageState) -> (action: StageAction)
    ensures
        action == action_in(state),
{
    match state {
        StageState::WaitingForInput => StageAction::Receive,
        StageState::Processing => StageAction::Transform,
        StageState::Emitting => StageAction::Send,
        StageState::ClosingOutputs => StageAction::CloseOutputs,
        StageState::Terminated => StageAction::Halt,
    }
}

/// The state that follows `state` on `event`.
pub fn advance(state: StageState, event: StageEvent) -> (next: StageState)
    ensures
        next == state_after(state, event),
{
    match state {
        StageState::WaitingForInput => match event {
            StageEvent::Received => StageState::Processing,
            StageEvent::InputsExhausted => StageState::ClosingOutputs,
            _ => state,
        },
        StageState::Processing => match event {
            StageEvent::Transformed => StageState::Emitting,
            StageEvent::TransformFailed => StageState::ClosingOutputs,
            _ => state,
        },
        StageState::Emitting => match event {
            StageEvent::Sent => StageState::WaitingForInput,
            StageEvent::OutputLost => StageState::ClosingOutputs,
            _ => state,
        },
        StageState::ClosingOutputs => match event {
            StageEvent::OutputsClosed => StageState::Terminated,
            _ => state,
        },
        StageState::Terminated => state,
    }
}

/// Whether `event` is a failure that ends the whole run.
pub fn fatal(event: StageEvent) -> (fatal: bool)
    ensures
        fatal == is_fatal(event),
{
    match event {
        StageEvent::TransformFailed => true,
        StageEvent::OutputLost => true,
        _ => false,
    }
}

/// What the outcome of a receive means to the stage that asked. An empty
/// channel that is still open is no end of input: only a closed one is.
pub fn event_of_receive<T>(outcome: &Result<Fragment<T>, RecvError>) -> (event: StageEvent)
    ensures
        event == (match *outcome {
            Ok(_) => StageEvent::Received,
            Err(RecvError::Empty) => StageEvent::InputEmpty,
            Err(RecvError::Closed) => StageEvent::InputsExhausted,
        }),
{
    match outcome {
        Ok(_) => StageEvent::Received,
        Err(RecvError::Empty) => StageEvent::InputEmpty,
        Err(RecvError::Closed) => StageEvent::InputsExhausted,
    }
}

/// What the outcome of a send means to the stage that sent. A full channel
/// makes the sender wait; a closed or broken one is fatal to it.
pub fn event_of_send<T>(outcome: &Result<(), Rejected<T>>) -> (event: StageEvent)
    ensures
        event == (match *outcome {
            Ok(_) => StageEvent::Sent,
            Err(rejected) => if rejected.reason == SendError::Full {
                StageEvent::OutputFull
            } else {
                StageEvent::OutputLost
            },
        }),
{
    match outcome {
        Ok(_) => StageEvent::Sent,
        Err(rejected) => match rejected.reason {
            SendError::Full => StageEvent::OutputFull,
            SendError::Closed => StageEvent::OutputLost,
            SendError::BrokenPipe => StageEvent::OutputLost,
        },
    }
}

/// A terminated stage stays terminated, whatever happens.
pub proof fn lemma_terminated_is_final(event: StageEvent)
    ensures
        state_after(StageState::Terminated, event) == StageState::Terminated,
{
}

/// A stage closes its outputs exactly once: it becomes terminated only from
/// `ClosingOutputs`, on the event that the outputs are closed, and it never
/// comes back to `ClosingOutputs` from there.
pub proof fn lemma_outputs_closed_once(state: StageState, event: StageEvent)
    ensures
        state_after(state, event) == StageState::Terminated ==> state == StageState::Terminated || (
        state == StageState::ClosingOutputs && event == StageEvent::OutputsClosed),
        state == StageState::Terminated ==> state_after(state, event) != StageState::ClosingOutputs,
        state == StageState::ClosingOutputs ==> state_after(state, event)
            == StageState::ClosingOutputs || state_after(state, event) == StageState::Terminated,
{
}

/// Closure propagation at one stage: once its inputs are exhausted and its
/// output takes what it sends, every event brings the stage strictly closer
/// to `Terminated`, which it reaches after at most five events, also when
/// no fragment was ever routed to it.
pub proof fn lemma_drained_stage_terminates(state: StageState)
    ensures
        state != StageState::Terminated ==> steps_left(state_after(state, draining_event(state)))
            < steps_left(state),
        steps_left(state) == 0 <==> state == StageState::Terminated,
        steps_left(state) <= 5,
{
}

/// How a sink with several producers goes through them.
#[derive(Clone, Copy, Debug, PartialEq, Eq, Structural)]
pub enum DrainPolicy {
    /// One fragment from each live producer in turn.
    RoundRobin,
    /// Everything from the first live producer, then everything from the next.
    Sequential,
}

/// One producer of a sink: its handle, and its place in the list of
/// producers that the sink was built with.
#[derive(Clone, Copy, Debug, PartialEq, Eq, Structural)]
pub struct Producer {
    pub id: StageId,
    pub slot: usize,
}

/// The producers that a sink still has to drain, and the one it asks next.
/// A producer leaves the set when its channel is closed and empty, never
/// because it had nothing to give at the moment.
pub struct FanIn {
    producers: Vec<Producer>,
    index: usize,
    policy: DrainPolicy,
}

/// The place asked next after the producer at `index` of `count` gave a fragment.
pub open spec fn index_after_receive(policy: DrainPolicy, index: nat, count: nat) -> nat {
    if policy == DrainPolicy::Sequential || index + 1 >= count {
        0
    } else {
        index + 1
    }
}

/// The place asked next after the producer at `index` of `count` was found
/// closed and left the set.
pub open spec fn index_after_close(index: nat, count: nat) -> nat {
    if index + 1 >= count {
        0
    } else {
        index
    }
}

/// The producers `ids`, each with its place in the list.
pub open spec fn all_producers(ids: Seq<StageId>) -> Seq<Producer> {
    Seq::new(ids.len(), |i: int| Producer { id: ids[i], slot: i as usize })
}

impl FanIn {
    #[verifier::type_invariant]
    spec fn index_in_range(self) -> bool {
        if self.producers@.len() == 0 {
            self.index == 0
        } else {
            self.index < self.producers@.len() && (self.policy == DrainPolicy::Sequential
                ==> self.index == 0)
        }
    }

    /// The producers not yet found closed, in the order they were given.
    pub closed spec fn live(&self) -> Seq<Producer> {
        self.producers@
    }

    /// The place in `live()` of the producer asked next.
    pub closed spec fn position(&self) -> nat {
        self.index as nat
    }

    pub closed spec fn policy(&self) -> DrainPolicy {
        self.policy
    }

    /// A fan-in over the producers `ids`, all live, that asks the first one first.
    pub fn new(ids: &Vec<StageId>, policy: DrainPolicy) -> (fan_in: FanIn)
        ensures
            fan_in.live() == all_producers(ids@),
            fan_in.position() == 0,
            fan_in.policy() == policy,
    {
        let mut producers: Vec<Producer> = Vec::new();
        let mut slot: usize = 0;
        while slot < ids.len()
            invariant
                slot <= ids.len(),
                producers@ == all_producers(ids@.take(slot as int)),
            decreases ids.len() - slot,
        {
            producers.push(Producer { id: ids[slot], slot });
            slot = slot + 1;
            assert(producers@ =~= all_producers(ids@.take(slot as int)));
        }
        assert(ids@.take(slot as int) =~= ids@);
        FanIn { producers, index: 0, policy }
    }

    /// The producer to ask next, or `None` when every producer has closed.
    pub fn current(&self) -> (producer: Option<Producer>)
        ensures
            self.live().len() == 0 <==> producer is None,
            producer matches Some(asked) ==> self.position() < self.live().len() && asked
                == self.live()[self.position() as int],
    {
        proof {
            use_type_invariant(self);
        }
        if self.producers.len() == 0 {
            None
        } else {
            Some(self.producers[self.index])
        }
    }

    /// The place in the live set of the producer to ask next.
    pub fn index(&self) -> (index: usize)
        ensures
            index == self.position(),
            self.live().len() > 0 ==> index < self.live().len(),
            self.live().len() == 0 ==> index == 0,
    {
        proof {
            use_type_invariant(self);
        }
        self.index
    }

    /// The number of producers not yet found closed.
    pub fn remaining(&self) -> (count: usize)
        ensures
            count == self.live().len(),
    {
        self.producers.len()
    }

    /// Whether every producer has closed: the sink has seen all there is.
    pub fn is_drained(&self) -> (drained: bool)
        ensures
            drained == (self.live().len() == 0),
    {
        self.producers.len() == 0
    }

    /// The current producer gave a fragment: under round robin the next one
    /// is asked, under sequential draining the same one again.
    pub fn fragment_received(&mut self)
        ensures
            final(self).live() == old(self).live(),
            final(self).policy() == old(self).policy(),
            final(self).position() == index_after_receive(
                old(self).policy(),
                old(self).position(),
                old(self).live().len(),
            ),
    {
        proof {
            use_type_invariant(&*self);
        }
        let at: usize = self.index;
        let count: usize = self.producers.len();
        let next: usize = match self.policy {
            DrainPolicy::Sequential => 0,
            DrainPolicy::RoundRobin => if count == 0 || at >= count - 1 {
                0
            } else {
                at + 1
            },
        };
        self.index = next;
    }

    /// The current producer's channel is closed and empty: it leaves the set,
    /// and the producer that followed it is asked next. Does nothing when the
    /// set is empty already.
    pub fn producer_closed(&mut self) -> (gone: Option<Producer>)
        ensures
            final(self).policy() == old(self).policy(),
            old(self).live().len() == 0 <==> gone is None,
            gone is None ==> final(self).live() == old(self).live() && final(self).position()
                == old(self).position(),
            gone matches Some(left) ==> {
                &&& left == old(self).live()[old(self).position() as int]
                &&& final(self).live() == old(self).live().remove(old(self).position() as int)
                &&& final(self).position() == index_after_close(
                    old(self).position(),
                    old(self).live().len(),
                )
            },
    {
        proof {
            use_type_invariant(&*self);
        }
        if self.producers.len() == 0 {
            return None;
        }
        let at: usize = self.index;
        let next: usize = if at + 1 >= self.producers.len() {
            0
        } else {
            at
        };
        self.index = 0;
        let mut producers: Vec<Producer> = Vec::new();
        core::mem::swap(&mut self.producers, &mut producers);
        let gone = producers.remove(at);
        core::mem::swap(&mut self.producers, &mut producers);
        self.index = next;
        Some(gone)
    }
}

} // verus!
