//! Fragments: the sequence-numbered units of work that flow through a pipeline.

use vstd::prelude::*;

verus! {

/// A unit of work. The sequence number is stamped once, by the source, and
/// every later stage hands it on unchanged; only the payload is transformed.
#[derive(Debug, PartialEq, Eq)]
pub struct Fragment<T> {
    pub sequence: u64,
    pub payload: T,
}

impl<T> Fragment<T> {
    /// The fragment that carries `payload` under the number `sequence`.
    pub fn new(sequence: u64, payload: T) -> (fragment: Fragment<T>)
        ensures
            fragment.sequence == sequence,
            fragment.payload == payload,
    {
        Fragment { sequence, payload }
    }

    /// The sequence number.
    pub fn sequence(&self) -> (sequence: u64)
        ensures
            sequence == self.sequence,
    {
        self.sequence
    }

    /// Gives up the fragment and keeps its payload.
    pub fn into_payload(self) -> (payload: T)
        ensures
            payload == self.payload,
    {
        self.payload
    }

    /// The same fragment with a new payload: what a worker emits downstream.
    pub fn with_payload(self, payload: T) -> (fragment: Fragment<T>)
        ensures
            fragment.sequence == self.sequence,
            fragment.payload == payload,
    {
        Fragment { sequence: self.sequence, payload }
    }
}

/// The payloads of a run of fragments, in the order the run has them.
pub open spec fn payloads<T>(fragments: Seq<Fragment<T>>) -> Seq<T> {
    Seq::new(fragments.len(), |i: int| fragments[i].payload)
}

/// What a source emits for `inputs`: fragment `i` carries sequence number `i`.
pub open spec fn stamped<T>(inputs: Seq<T>) -> Seq<Fragment<T>> {
    Seq::new(inputs.len(), |i: int| Fragment { sequence: i as u64, payload: inputs[i] })
}

/// No two fragments of the run carry the same sequence number.
pub open spec fn distinct_sequences<T>(fragments: Seq<Fragment<T>>) -> bool {
    forall|i: int, j: int|
        0 <= i < j < fragments.len() ==> fragments[i].sequence != fragments[j].sequence
}

/// The run is in non-decreasing order of sequence number.
pub open spec fn ordered<T>(fragments: Seq<Fragment<T>>) -> bool {
    forall|i: int, j: int|
        0 <= i <= j < fragments.len() ==> fragments[i].sequence <= fragments[j].sequence
}

/// Stamps each input with its emission index.
pub fn stamp_all<T>(inputs: Vec<T>) -> (fragments: Vec<Fragment<T>>)
    ensures
        fragments@ == stamped(inputs@),
{
    let mut inputs = inputs;
    let ghost original = inputs@;
    let mut reversed: Vec<Fragment<T>> = Vec::new();
    let total: usize = inputs.len();
    // Take the inputs from the back, so that none has to be copied.
    while inputs.len() > 0
        invariant
            total == original.len(),
            inputs@ == original.take(inputs.len() as int),
            reversed.len() + inputs.len() == total,
            forall|p: int|
                0 <= p < reversed.len() ==> reversed[p] == stamped(original)[total - 1 - p],
        decreases inputs.len(),
    {
        let index: usize = inputs.len() - 1;
        let payload = inputs.pop().unwrap();
        reversed.push(Fragment { sequence: index as u64, payload });
    }
    let mut fragments: Vec<Fragment<T>> = Vec::new();
    while reversed.len() > 0
        invariant
            total == original.len(),
            fragments.len() + reversed.len() == total,
            forall|p: int|
                0 <= p < reversed.len() ==> reversed[p] == stamped(original)[total - 1 - p],
            forall|p: int| 0 <= p < fragments.len() ==> fragments[p] == stamped(original)[p],
        decreases reversed.len(),
    {
        let fragment = reversed.pop().unwrap();
        fragments.push(fragment);
    }
    assert(fragments@ =~= stamped(original));
    fragments
}

} // verus!
