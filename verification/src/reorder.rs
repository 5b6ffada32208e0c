//! Streaming reassembly: a buffer keyed by sequence number, and a cursor that
//! releases every fragment as soon as all fragments before it have left.

use crate::fragment::{distinct_sequences, stamped, Fragment};
use crate::reassembler::lemma_distinct_in_any_order;
use std::collections::BTreeMap;
use vstd::prelude::*;
use vstd::seq_lib::{to_multiset_contains, to_multiset_len};

verus! {

/// The fragments that arrived ahead of their turn, keyed by sequence number.
pub struct Reorder<T> {
    storage: BTreeMap<u64, Fragment<T>>,
}

impl<T> View for Reorder<T> {
    type V = Map<u64, Fragment<T>>;

    closed spec fn view(&self) -> Map<u64, Fragment<T>> {
        self.storage@
    }
}

impl<T> Reorder<T> {
    #[verifier::type_invariant]
    spec fn keyed_by_sequence(self) -> bool {
        forall|key: u64| #[trigger]
            self.storage@.contains_key(key) ==> self.storage@[key].sequence == key
    }

    /// An empty buffer.
    pub fn new() -> (buffer: Reorder<T>)
        ensures
            buffer@ == Map::<u64, Fragment<T>>::empty(),
    {
        Reorder { storage: BTreeMap::new() }
    }

    /// Stores `item` under its sequence number. A fragment already stored
    /// under that number is replaced.
    pub fn enqueue(&mut self, item: Fragment<T>)
        ensures
            final(self)@ == old(self)@.insert(item.sequence, item),
    {
        proof {
            use_type_invariant(&*self);
        }
        let key: u64 = item.sequence;
        let mut storage: BTreeMap<u64, Fragment<T>> = BTreeMap::new();
        core::mem::swap(&mut self.storage, &mut storage);
        storage.insert(key, item);
        core::mem::swap(&mut self.storage, &mut storage);
    }

    /// Takes out the fragment stored under `order`, if there is one.
    pub fn remove(&mut self, order: u64) -> (removed: Option<Fragment<T>>)
        ensures
            removed == (if old(self)@.contains_key(order) {
                Some(old(self)@[order])
            } else {
                None
            }),
            removed is Some ==> removed->Some_0.sequence == order,
            final(self)@ == old(self)@.remove(order),
    {
        proof {
            use_type_invariant(&*self);
        }
        if self.storage.contains_key(&order) {
            let mut storage: BTreeMap<u64, Fragment<T>> = BTreeMap::new();
            core::mem::swap(&mut self.storage, &mut storage);
            let removed = storage.remove(&order);
            core::mem::swap(&mut self.storage, &mut storage);
            removed
        } else {
            proof {
                assert(self@ =~= old(self)@.remove(order));
            }
            None
        }
    }

    /// Whether a fragment is stored under `order`.
    pub fn contains(&self, order: u64) -> (found: bool)
        ensures
            found == self@.contains_key(order),
    {
        self.storage.contains_key(&order)
    }

    /// The number of fragments held back.
    pub fn len(&self) -> (count: usize)
        ensures
            count == self@.len(),
    {
        self.storage.len()
    }
}

/// The length of the run of consecutive sequence numbers stored in `waiting`
/// that starts at `from`. Sequence numbers stop short of `u64::MAX`.
pub open spec fn run_length<T>(waiting: Map<u64, Fragment<T>>, from: u64) -> nat
    decreases u64::MAX - from,
{
    if from < u64::MAX && waiting.contains_key(from) {
        1 + run_length(waiting, (from + 1) as u64)
    } else {
        0
    }
}

/// The sequence numbers `from`, `from + 1`, ..., `from + count - 1`.
pub open spec fn released_keys(from: u64, count: nat) -> Set<u64> {
    Set::new(|key: u64| from <= key < from + count)
}

/// A streaming reassembler, as a mathematical value.
pub struct StreamState<T> {
    /// The fragments held back, by sequence number.
    pub waiting: Map<u64, Fragment<T>>,
    /// The sequence number of the next fragment to leave.
    pub expected: u64,
}

/// A reassembler that has seen nothing.
pub open spec fn stream_start<T>() -> StreamState<T> {
    StreamState { waiting: Map::empty(), expected: 0 }
}

/// What is stored once `fragment` has arrived, before anything leaves.
pub open spec fn stored_with<T>(state: StreamState<T>, fragment: Fragment<T>) -> Map<
    u64,
    Fragment<T>,
> {
    state.waiting.insert(fragment.sequence, fragment)
}

/// The fragments that leave when `fragment` arrives: the longest run of
/// consecutive sequence numbers that starts at the expected one.
pub open spec fn released_by<T>(state: StreamState<T>, fragment: Fragment<T>) -> Seq<Fragment<T>> {
    Seq::new(
        run_length(stored_with(state, fragment), state.expected),
        |p: int| stored_with(state, fragment)[(state.expected + p) as u64],
    )
}

/// The reassembler after `fragment` has arrived and the run has left.
pub open spec fn after_accept<T>(state: StreamState<T>, fragment: Fragment<T>) -> StreamState<T> {
    let count = run_length(stored_with(state, fragment), state.expected);
    StreamState {
        waiting: stored_with(state, fragment).remove_keys(released_keys(state.expected, count)),
        expected: (state.expected + count) as u64,
    }
}

/// The reassembler after the arrivals, from the start.
pub open spec fn stream_after<T>(arrivals: Seq<Fragment<T>>) -> StreamState<T>
    decreases arrivals.len(),
{
    if arrivals.len() == 0 {
        stream_start()
    } else {
        after_accept(stream_after(arrivals.drop_last()), arrivals.last())
    }
}

/// Everything that has left after the arrivals, in the order it left.
pub open spec fn stream_output<T>(arrivals: Seq<Fragment<T>>) -> Seq<Fragment<T>>
    decreases arrivals.len(),
{
    if arrivals.len() == 0 {
        Seq::empty()
    } else {
        stream_output(arrivals.drop_last()) + released_by(
            stream_after(arrivals.drop_last()),
            arrivals.last(),
        )
    }
}

/// An order-restoring cursor over a [`Reorder`] buffer: `expected_next` is the
/// sequence number of the next fragment to leave.
pub struct StreamingReassembler<T> {
    buffer: Reorder<T>,
    expected_next: u64,
}

impl<T> StreamingReassembler<T> {
    /// The fragments held back, by sequence number.
    pub closed spec fn waiting(&self) -> Map<u64, Fragment<T>> {
        self.buffer@
    }

    /// The sequence number of the next fragment to leave.
    pub closed spec fn expected(&self) -> u64 {
        self.expected_next
    }

    /// The reassembler as a mathematical value.
    pub open spec fn state(&self) -> StreamState<T> {
        StreamState { waiting: self.waiting(), expected: self.expected() }
    }

    /// A reassembler that has seen nothing and expects sequence number 0.
    pub fn new() -> (reassembler: StreamingReassembler<T>)
        ensures
            reassembler.waiting() == Map::<u64, Fragment<T>>::empty(),
            reassembler.expected() == 0,
    {
        StreamingReassembler { buffer: Reorder::new(), expected_next: 0 }
    }

    /// The sequence number of the next fragment to leave.
    pub fn expected_next(&self) -> (next: u64)
        ensures
            next == self.expected(),
    {
        self.expected_next
    }

    /// The number of fragments held back.
    pub fn pending(&self) -> (count: usize)
        ensures
            count == self.waiting().len(),
    {
        self.buffer.len()
    }

    /// Takes one arrival and releases, in sequence order, the longest run of
    /// consecutive fragments that starts at the expected sequence number.
    pub fn accept(&mut self, fragment: Fragment<T>) -> (released: Vec<Fragment<T>>)
        ensures
            released@ == released_by(old(self).state(), fragment),
            final(self).state() == after_accept(old(self).state(), fragment),
    {
        let ghost from = self.expected_next;
        self.buffer.enqueue(fragment);
        let ghost stored = self.buffer@;
        let mut released: Vec<Fragment<T>> = Vec::new();
        let mut more: bool = true;
        proof {
            assert(stored.remove_keys(released_keys(from, 0)) =~= stored);
        }
        while more
            invariant
                from + released.len() == self.expected_next,
                forall|p: int| 0 <= p < released.len() ==> released@[p] == stored[(from + p) as u64],
                self.buffer@ == stored.remove_keys(released_keys(from, released.len() as nat)),
                run_length(stored, from) == released.len() + (if more {
                    run_length(stored, self.expected_next)
                } else {
                    0
                }),
            decreases u64::MAX - self.expected_next + (if more { 1int } else { 0int }),
        {
            if self.expected_next == u64::MAX {
                more = false;
            } else {
                let ghost held = self.buffer@;
                let ghost at = self.expected_next;
                match self.buffer.remove(self.expected_next) {
                    Some(next) => {
                        released.push(next);
                        self.expected_next = self.expected_next + 1;
                        proof {
                            assert(held.contains_key(at));
                            assert(stored.contains_key(at));
                            assert(self.buffer@ =~= stored.remove_keys(
                                released_keys(from, released.len() as nat),
                            ));
                        }
                    },
                    None => {
                        proof {
                            assert(!held.contains_key(at));
                            assert(!stored.contains_key(at));
                        }
                        more = false;
                    },
                }
            }
        }
        proof {
            assert(released@ =~= released_by(old(self).state(), fragment));
        }
        released
    }
}

/// Sequence number `number` is carried by one of the first `count` arrivals.
pub open spec fn arrived<T>(arrivals: Seq<Fragment<T>>, count: int, number: u64) -> bool {
    exists|i: int| 0 <= i < count && (#[trigger] arrivals[i]).sequence == number
}

/// A run is stored without a gap, and ends before the first number that is
/// not stored.
proof fn lemma_run_is_stored<T>(stored: Map<u64, Fragment<T>>, from: u64)
    ensures
        from + run_length(stored, from) <= u64::MAX,
        forall|key: u64|
            from <= key < from + run_length(stored, from) ==> #[trigger] stored.contains_key(key),
        from + run_length(stored, from) < u64::MAX ==> !stored.contains_key(
            (from + run_length(stored, from)) as u64,
        ),
    decreases u64::MAX - from,
{
    if from < u64::MAX && stored.contains_key(from) {
        lemma_run_is_stored(stored, (from + 1) as u64);
    }
}

/// What holds of a streaming reassembler that has seen the first `count`
/// arrivals of a rearranged emission.
spec fn caught_up<T>(emission: Seq<Fragment<T>>, arrivals: Seq<Fragment<T>>, count: int) -> bool {
    let state = stream_after(arrivals.take(count));
    &&& state.expected <= emission.len()
    &&& stream_output(arrivals.take(count)) == emission.take(state.expected as int)
    &&& forall|number: u64| number < state.expected ==> arrived(arrivals, count, number)
    &&& !arrived(arrivals, count, state.expected)
    &&& forall|number: u64| #[trigger]
        state.waiting.contains_key(number) <==> number >= state.expected && arrived(
            arrivals,
            count,
            number,
        )
    &&& forall|number: u64| #[trigger]
        state.waiting.contains_key(number) ==> number < emission.len() && state.waiting[number]
            == emission[number as int]
}

#[verifier::spinoff_prover]
proof fn lemma_catches_up<T>(inputs: Seq<T>, arrivals: Seq<Fragment<T>>, count: int)
    requires
        inputs.len() < u64::MAX,
        arrivals.to_multiset() == stamped(inputs).to_multiset(),
        0 <= count <= arrivals.len(),
    ensures
        caught_up(stamped(inputs), arrivals, count),
    decreases count,
{
    broadcast use to_multiset_contains;

    let emission = stamped(inputs);
    assert(distinct_sequences(emission));
    lemma_distinct_in_any_order(emission, arrivals);
    // Every arrival is the fragment of the emission that carries its number.
    assert forall|i: int| 0 <= i < arrivals.len() implies (#[trigger] arrivals[i]).sequence
        < emission.len() && emission[arrivals[i].sequence as int] == arrivals[i] by {
        assert(arrivals.contains(arrivals[i]));
        assert(emission.to_multiset().count(arrivals[i]) > 0);
        assert(emission.contains(arrivals[i]));
        let m = choose|m: int| 0 <= m < emission.len() && emission[m] == arrivals[i];
        assert(emission[m].sequence == m);
    }
    if count == 0 {
        assert(arrivals.take(0) =~= Seq::<Fragment<T>>::empty());
        assert(stream_output(arrivals.take(0)) =~= emission.take(0));
    } else {
        let before = arrivals.take(count - 1);
        let now = arrivals.take(count);
        let x = arrivals[count - 1];
        assert(now.drop_last() =~= before);
        assert(now.last() == x);
        lemma_catches_up(inputs, arrivals, count - 1);
        let old_state = stream_after(before);
        let new_state = stream_after(now);
        let stored = stored_with(old_state, x);
        let from = old_state.expected;
        let run = run_length(stored, from);
        lemma_run_is_stored(stored, from);
        assert(new_state == after_accept(old_state, x));
        // The number of the arrival has not arrived before.
        assert(!arrived(arrivals, count - 1, x.sequence)) by {
            if arrived(arrivals, count - 1, x.sequence) {
                let i = choose|i: int|
                    0 <= i < count - 1 && (#[trigger] arrivals[i]).sequence == x.sequence;
                assert(arrivals[i].sequence != arrivals[count - 1].sequence);
            }
        }
        assert(x.sequence >= from);
        // What is stored is what has arrived and not left, each at its number.
        assert forall|number: u64| #[trigger]
            stored.contains_key(number) <==> number >= from && arrived(
                arrivals,
                count,
                number,
            ) by {
            if number == x.sequence {
                assert(arrivals[count - 1].sequence == number);
            } else if stored.contains_key(number) {
                assert(old_state.waiting.contains_key(number));
                let i = choose|i: int|
                    0 <= i < count - 1 && (#[trigger] arrivals[i]).sequence == number;
                assert(arrivals[i].sequence == number);
            } else if number >= from && arrived(arrivals, count, number) {
                let i = choose|i: int| 0 <= i < count && (#[trigger] arrivals[i]).sequence == number;
                assert(i < count - 1);
                assert(arrived(arrivals, count - 1, number));
                assert(old_state.waiting.contains_key(number));
            }
        }
        assert forall|number: u64| #[trigger] stored.contains_key(number) implies number
            < emission.len() && stored[number] == emission[number as int] by {
            if number != x.sequence {
                assert(old_state.waiting.contains_key(number));
            }
        }
        assert(from + run <= emission.len()) by {
            if run > 0 {
                let top = (from + run - 1) as u64;
                assert(stored.contains_key(top));
            }
        }
        assert(new_state.expected == from + run);
        assert(stream_output(now) == stream_output(before) + released_by(old_state, x));
        assert(stream_output(now) =~= emission.take(from + run)) by {
            let released = released_by(old_state, x);
            assert forall|p: int| 0 <= p < run implies released[p] == emission[from + p] by {
                assert(stored.contains_key((from + p) as u64));
            }
        }
        assert forall|number: u64| number < new_state.expected implies arrived(
            arrivals,
            count,
            number,
        ) by {
            if number < from {
                assert(arrived(arrivals, count - 1, number));
                let i = choose|i: int|
                    0 <= i < count - 1 && (#[trigger] arrivals[i]).sequence == number;
                assert(arrivals[i].sequence == number);
            } else {
                assert(stored.contains_key(number));
            }
        }
        assert(!arrived(arrivals, count, new_state.expected)) by {
            if arrived(arrivals, count, new_state.expected) {
                let i = choose|i: int|
                    0 <= i < count && (#[trigger] arrivals[i]).sequence == new_state.expected;
                assert(new_state.expected < emission.len());
                assert(stored.contains_key(new_state.expected));
            }
        }
        assert forall|number: u64| #[trigger]
            new_state.waiting.contains_key(number) <==> number >= new_state.expected && arrived(
                arrivals,
                count,
                number,
            ) by {
            assert(new_state.waiting.contains_key(number) <==> stored.contains_key(number)
                && !released_keys(from, run).contains(number));
        }
        assert forall|number: u64| #[trigger]
            new_state.waiting.contains_key(number) implies number < emission.len()
            && new_state.waiting[number] == emission[number as int] by {
            assert(stored.contains_key(number));
        }
    }
}

/// Order preservation of the streaming variant: feed a streaming reassembler
/// the emission for `inputs` in any order of arrival, and what leaves it, all
/// in all, is the emission in its order; nothing is left waiting.
#[verifier::spinoff_prover]
pub proof fn lemma_stream_restores_emission<T>(inputs: Seq<T>, arrivals: Seq<Fragment<T>>)
    requires
        inputs.len() < u64::MAX,
        arrivals.to_multiset() == stamped(inputs).to_multiset(),
    ensures
        stream_output(arrivals) == stamped(inputs),
        stream_after(arrivals).expected == inputs.len(),
        stream_after(arrivals).waiting == Map::<u64, Fragment<T>>::empty(),
{
    broadcast use to_multiset_contains;

    let emission = stamped(inputs);
    to_multiset_len(arrivals);
    to_multiset_len(emission);
    lemma_catches_up(inputs, arrivals, arrivals.len() as int);
    assert(arrivals.take(arrivals.len() as int) =~= arrivals);
    let state = stream_after(arrivals);
    // Every number of the emission has arrived, so none is still expected.
    if state.expected < emission.len() {
        let missing = emission[state.expected as int];
        assert(emission.contains(missing));
        assert(arrivals.to_multiset().count(missing) > 0);
        assert(arrivals.contains(missing));
        let i = choose|i: int| 0 <= i < arrivals.len() && arrivals[i] == missing;
        assert(arrivals[i].sequence == state.expected);
        assert(arrived(arrivals, arrivals.len() as int, state.expected));
    }
    assert(emission.take(emission.len() as int) =~= emission);
    assert(state.waiting =~= Map::<u64, Fragment<T>>::empty()) by {
        assert forall|number: u64| !state.waiting.contains_key(number) by {
            if state.waiting.contains_key(number) {
                assert(number < emission.len());
            }
        }
    }
}

} // verus!
