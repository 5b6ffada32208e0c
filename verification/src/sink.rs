//! A collecting sink at run time: it asks its producers in the order that its
//! drain policy gives, keeps what they deliver, and, when every producer has
//! closed, hands out the payloads in the order of their sequence numbers.

use crate::channel::{Channel, ChannelState, RecvError};
use crate::fragment::{payloads, Fragment};
use crate::reassembler::{in_sequence_order, reassemble};
use crate::stage::{
    all_producers, index_after_close, index_after_receive, DrainPolicy, FanIn, Producer,
    StageEvent, StageState,
};
use crate::stage_id::StageId;
use vstd::prelude::*;

verus! {

/// A sink stage.
pub struct Sink<T> {
    fan_in: FanIn,
    collected: Vec<Fragment<T>>,
}

impl<T> Sink<T> {
    /// The producers not yet found closed.
    pub closed spec fn live(&self) -> Seq<Producer> {
        self.fan_in.live()
    }

    /// The place in `live()` of the producer asked next.
    pub closed spec fn position(&self) -> nat {
        self.fan_in.position()
    }

    pub closed spec fn policy(&self) -> DrainPolicy {
        self.fan_in.policy()
    }

    /// The fragments collected so far, in the order of arrival.
    pub closed spec fn collected(&self) -> Seq<Fragment<T>> {
        self.collected@
    }

    /// A sink that has to drain `producers` and has collected nothing.
    pub fn new(producers: &Vec<StageId>, policy: DrainPolicy) -> (sink: Sink<T>)
        ensures
            sink.live() == all_producers(producers@),
            sink.position() == 0,
            sink.policy() == policy,
            sink.collected() == Seq::<Fragment<T>>::empty(),
    {
        Sink { fan_in: FanIn::new(producers, policy), collected: Vec::new() }
    }

    /// The producer whose channel the next turn has to be given, or `None`
    /// when every producer has closed.
    pub fn current(&self) -> (producer: Option<Producer>)
        ensures
            self.live().len() == 0 <==> producer is None,
            producer matches Some(asked) ==> self.position() < self.live().len() && asked
                == self.live()[self.position() as int],
    {
        self.fan_in.current()
    }

    /// The number of fragments collected so far.
    pub fn collected_count(&self) -> (count: usize)
        ensures
            count == self.collected().len(),
    {
        self.collected.len()
    }

    /// Where the sink stands: it waits for input while a producer is live,
    /// and is terminated when all have closed.
    pub fn state(&self) -> (state: StageState)
        ensures
            state == (if self.live().len() == 0 {
                StageState::Terminated
            } else {
                StageState::WaitingForInput
            }),
    {
        if self.fan_in.is_drained() {
            StageState::Terminated
        } else {
            StageState::WaitingForInput
        }
    }

    /// One turn of the sink on the channel of its current producer. A
    /// fragment is collected and the turn passes on; a channel that is
    /// closed and empty takes the producer out of the live set; a channel
    /// that is merely empty changes nothing: an empty channel is no end.
    pub fn poll(&mut self, channel: &mut Channel<T>) -> (event: StageEvent)
        ensures
            final(self).policy() == old(self).policy(),
            old(channel)@.queued.len() > 0 ==> {
                &&& event == StageEvent::Received
                &&& final(channel)@ == (ChannelState {
                    queued: old(channel)@.queued.drop_first(),
                    ..old(channel)@
                })
                &&& final(self).collected() == old(self).collected().push(old(channel)@.queued[0])
                &&& final(self).live() == old(self).live()
                &&& final(self).position() == index_after_receive(
                    old(self).policy(),
                    old(self).position(),
                    old(self).live().len(),
                )
            },
            old(channel)@.queued.len() == 0 ==> {
                &&& final(channel)@ == old(channel)@
                &&& final(self).collected() == old(self).collected()
            },
            old(channel)@.queued.len() == 0 && old(channel)@.closed ==> {
                &&& event == StageEvent::InputsExhausted
                &&& old(self).live().len() == 0 ==> final(self).live() == old(self).live()
                    && final(self).position() == old(self).position()
                &&& old(self).live().len() > 0 ==> final(self).live() == old(self).live().remove(
                    old(self).position() as int,
                ) && final(self).position() == index_after_close(
                    old(self).position(),
                    old(self).live().len(),
                )
            },
            old(channel)@.queued.len() == 0 && !old(channel)@.closed ==> {
                &&& event == StageEvent::InputEmpty
                &&& final(self).live() == old(self).live()
                &&& final(self).position() == old(self).position()
            },
    {
        match channel.receive() {
            Ok(fragment) => {
                self.collected.push(fragment);
                self.fan_in.fragment_received();
                StageEvent::Received
            },
            Err(RecvError::Closed) => {
                self.fan_in.producer_closed();
                StageEvent::InputsExhausted
            },
            Err(RecvError::Empty) => StageEvent::InputEmpty,
        }
    }

    /// Ends the sink: what it collected, in sequence order, payloads only.
    pub fn finish(self) -> (output: Vec<T>)
        ensures
            output@ == payloads(in_sequence_order(self.collected())),
    {
        reassemble(self.collected)
    }
}

} // verus!
