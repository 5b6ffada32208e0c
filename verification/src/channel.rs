//! Channels: bounded first-in-first-out conduits that carry fragments from one
//! stage to the next, with an explicit closed state.

use crate::fragment::Fragment;
use std::collections::VecDeque;
use vstd::prelude::*;

verus! {

/// Why a channel did not take a fragment.
#[derive(Clone, Copy, Debug, PartialEq, Eq, Structural)]
pub enum SendError {
    /// The channel holds as many fragments as its capacity allows: the sender has to wait.
    Full,
    /// The sending end was closed before.
    Closed,
    /// The consumer has terminated: nobody will ever receive.
    BrokenPipe,
}

/// Why a channel did not give a fragment.
#[derive(Clone, Copy, Debug, PartialEq, Eq, Structural)]
pub enum RecvError {
    /// Nothing is queued, but the producer may still send: the receiver has to wait.
    Empty,
    /// Nothing is queued and the sending end is closed: no fragment will ever arrive.
    Closed,
}

/// A fragment that a channel did not take, with the reason.
#[derive(Debug, PartialEq, Eq)]
pub struct Rejected<T> {
    pub reason: SendError,
    pub fragment: Fragment<T>,
}

/// What a channel is, as a mathematical value.
pub struct ChannelState<T> {
    /// The fragments on their way, oldest first.
    pub queued: Seq<Fragment<T>>,
    /// The most fragments that may be queued at one time.
    pub capacity: nat,
    /// Whether the producer has closed its end.
    pub closed: bool,
    /// Whether the consumer has terminated.
    pub broken: bool,
}

/// A bounded conduit between a producer and a consumer.
pub struct Channel<T> {
    queue: VecDeque<Fragment<T>>,
    capacity: usize,
    closed: bool,
    broken: bool,
}

impl<T> View for Channel<T> {
    type V = ChannelState<T>;

    closed spec fn view(&self) -> ChannelState<T> {
        ChannelState {
            queued: self.queue@,
            capacity: self.capacity as nat,
            closed: self.closed,
            broken: self.broken,
        }
    }
}

/// The channel after its sending end was closed.
pub open spec fn closed_state<T>(state: ChannelState<T>) -> ChannelState<T> {
    ChannelState { closed: true, ..state }
}

/// Why the sender is turned away in state `state`, if it is.
pub open spec fn refusal<T>(state: ChannelState<T>) -> Option<SendError> {
    if state.broken {
        Some(SendError::BrokenPipe)
    } else if state.closed {
        Some(SendError::Closed)
    } else if state.queued.len() >= state.capacity {
        Some(SendError::Full)
    } else {
        None
    }
}

impl<T> Channel<T> {
    #[verifier::type_invariant]
    spec fn within_capacity(self) -> bool {
        0 < self.capacity && self.queue@.len() <= self.capacity
    }

    /// An open, empty channel for up to `capacity` fragments, or `None` if
    /// `capacity` is zero.
    pub fn new(capacity: usize) -> (channel: Option<Channel<T>>)
        ensures
            capacity == 0 <==> channel is None,
            channel matches Some(c) ==> c@ == (ChannelState::<T> {
                queued: Seq::empty(),
                capacity: capacity as nat,
                closed: false,
                broken: false,
            }),
    {
        if capacity == 0 {
            None
        } else {
            Some(Channel { queue: VecDeque::new(), capacity, closed: false, broken: false })
        }
    }

    /// The number of fragments queued, never more than the capacity.
    pub fn len(&self) -> (count: usize)
        ensures
            count == self@.queued.len(),
            count <= self@.capacity,
    {
        proof {
            use_type_invariant(self);
        }
        self.queue.len()
    }

    /// The most fragments that the channel holds at one time.
    pub fn capacity(&self) -> (capacity: usize)
        ensures
            capacity == self@.capacity,
            capacity > 0,
    {
        proof {
            use_type_invariant(self);
        }
        self.capacity
    }

    /// Whether the producer has closed its end.
    pub fn is_closed(&self) -> (closed: bool)
        ensures
            closed == self@.closed,
    {
        self.closed
    }

    /// Whether the consumer has terminated.
    pub fn is_broken(&self) -> (broken: bool)
        ensures
            broken == self@.broken,
    {
        self.broken
    }

    /// Whether a consumer that finds the channel like this has seen the last
    /// fragment: nothing is queued and the sending end is closed.
    pub fn is_exhausted(&self) -> (exhausted: bool)
        ensures
            exhausted == (self@.closed && self@.queued.len() == 0),
    {
        self.closed && self.queue.len() == 0
    }

    /// Whether the channel would take a fragment now.
    pub fn has_room(&self) -> (room: bool)
        ensures
            room == (refusal(self@) is None),
    {
        !self.broken && !self.closed && self.queue.len() < self.capacity
    }

    /// Queues `fragment` behind the fragments already on their way. A channel
    /// that is broken, closed or full takes nothing and hands the fragment back.
    pub fn send(&mut self, fragment: Fragment<T>) -> (outcome: Result<(), Rejected<T>>)
        ensures
            match outcome {
                Ok(_) => refusal(old(self)@) is None && final(self)@ == (ChannelState {
                    queued: old(self)@.queued.push(fragment),
                    ..old(self)@
                }),
                Err(rejected) => refusal(old(self)@) == Some(rejected.reason) && rejected.fragment
                    == fragment && final(self)@ == old(self)@,
            },
    {
        proof {
            use_type_invariant(&*self);
        }
        if self.broken {
            Err(Rejected { reason: SendError::BrokenPipe, fragment })
        } else if self.closed {
            Err(Rejected { reason: SendError::Closed, fragment })
        } else if self.queue.len() >= self.capacity {
            Err(Rejected { reason: SendError::Full, fragment })
        } else {
            let mut queue: VecDeque<Fragment<T>> = VecDeque::new();
            core::mem::swap(&mut self.queue, &mut queue);
            queue.push_back(fragment);
            core::mem::swap(&mut self.queue, &mut queue);
            Ok(())
        }
    }

    /// Takes the oldest fragment. What was queued before the close still comes
    /// out after it; only an empty channel reports `Closed`.
    pub fn receive(&mut self) -> (outcome: Result<Fragment<T>, RecvError>)
        ensures
            match outcome {
                Ok(fragment) => old(self)@.queued.len() > 0 && fragment == old(self)@.queued[0]
                    && final(self)@ == (ChannelState {
                    queued: old(self)@.queued.drop_first(),
                    ..old(self)@
                }),
                Err(reason) => old(self)@.queued.len() == 0 && final(self)@ == old(self)@ && reason
                    == (if old(self)@.closed {
                    RecvError::Closed
                } else {
                    RecvError::Empty
                }),
            },
    {
        proof {
            use_type_invariant(&*self);
        }
        let mut queue: VecDeque<Fragment<T>> = VecDeque::new();
        core::mem::swap(&mut self.queue, &mut queue);
        let front = queue.pop_front();
        core::mem::swap(&mut self.queue, &mut queue);
        match front {
            Some(fragment) => {
                proof {
                    assert(self@.queued =~= old(self)@.queued.drop_first());
                }
                Ok(fragment)
            },
            None => {
                proof {
                    assert(self@.queued =~= old(self)@.queued);
                }
                if self.closed {
                    Err(RecvError::Closed)
                } else {
                    Err(RecvError::Empty)
                }
            },
        }
    }

    /// Closes the sending end. What is queued stays; closing again changes nothing.
    pub fn close(&mut self)
        ensures
            final(self)@ == closed_state(old(self)@),
    {
        proof {
            use_type_invariant(&*self);
        }
        self.closed = true;
    }

    /// The consumer terminates: what is still queued is dropped, and every
    /// later send is turned away as a broken pipe.
    pub fn hang_up(&mut self)
        ensures
            final(self)@ == (ChannelState { queued: Seq::empty(), broken: true, ..old(self)@ }),
    {
        proof {
            use_type_invariant(&*self);
        }
        let mut queue: VecDeque<Fragment<T>> = VecDeque::new();
        core::mem::swap(&mut self.queue, &mut queue);
        self.broken = true;
    }
}

/// Closing is idempotent: a second close leaves the channel as the first
/// left it. And closing loses nothing: what was queued still comes out.
pub proof fn lemma_close_is_idempotent<T>(state: ChannelState<T>)
    ensures
        closed_state(closed_state(state)) == closed_state(state),
        closed_state(state).queued == state.queued,
        refusal(closed_state(state)) is Some,
{
}

} // verus!
