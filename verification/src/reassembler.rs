//! Reassembly at a fan-in point: fragments arrive in any order and leave in
//! the order of their sequence numbers.

use crate::fragment::{distinct_sequences, ordered, payloads, stamped, Fragment};
use crate::moves::reversed;
use vstd::prelude::*;
use vstd::seq_lib::*;

verus! {

/// The test "carries sequence number `sequence`".
pub open spec fn has_sequence<T>(sequence: u64) -> spec_fn(Fragment<T>) -> bool {
    |fragment: Fragment<T>| fragment.sequence == sequence
}

/// For each sequence number, `a` and `b` hold the same fragments with that
/// number, in the same relative order.
pub open spec fn same_runs<T>(a: Seq<Fragment<T>>, b: Seq<Fragment<T>>) -> bool {
    forall|sequence: u64|
        a.filter(#[trigger] has_sequence::<T>(sequence)) == b.filter(has_sequence::<T>(sequence))
}

/// `output` holds exactly the fragments that arrived, in sequence order.
pub open spec fn is_reassembly<T>(output: Seq<Fragment<T>>, arrivals: Seq<Fragment<T>>) -> bool {
    ordered(output) && output.to_multiset() == arrivals.to_multiset()
}

/// The fragments of `arrivals` in the order of their sequence numbers, those
/// that share a number in the order in which they arrived. There is exactly
/// one such arrangement, see [`lemma_order_is_determined`].
pub open spec fn in_sequence_order<T>(arrivals: Seq<Fragment<T>>) -> Seq<Fragment<T>> {
    choose|output: Seq<Fragment<T>>| ordered(output) && same_runs(output, arrivals)
}

/// Every fragment of the run has a sequence number of at most `bound`.
spec fn bounded_by<T>(fragments: Seq<Fragment<T>>, bound: u64) -> bool {
    forall|i: int| 0 <= i < fragments.len() ==> fragments[i].sequence <= bound
}

/// Two ordered runs woven into one, built from the back: on a tie the
/// fragment of `b` goes last, so fragments of `a` stay ahead of equal ones of `b`.
spec fn merged<T>(a: Seq<Fragment<T>>, b: Seq<Fragment<T>>) -> Seq<Fragment<T>>
    decreases a.len() + b.len(),
{
    if a.len() == 0 {
        b
    } else if b.len() == 0 {
        a
    } else if a.last().sequence > b.last().sequence {
        merged(a.drop_last(), b).push(a.last())
    } else {
        merged(a, b.drop_last()).push(b.last())
    }
}

proof fn lemma_merged_len<T>(a: Seq<Fragment<T>>, b: Seq<Fragment<T>>)
    ensures
        merged(a, b).len() == a.len() + b.len(),
    decreases a.len() + b.len(),
{
    if a.len() == 0 || b.len() == 0 {
    } else if a.last().sequence > b.last().sequence {
        lemma_merged_len(a.drop_last(), b);
    } else {
        lemma_merged_len(a, b.drop_last());
    }
}

proof fn lemma_merged_bounded<T>(a: Seq<Fragment<T>>, b: Seq<Fragment<T>>, bound: u64)
    requires
        bounded_by(a, bound),
        bounded_by(b, bound),
    ensures
        bounded_by(merged(a, b), bound),
    decreases a.len() + b.len(),
{
    if a.len() == 0 || b.len() == 0 {
    } else if a.last().sequence > b.last().sequence {
        lemma_merged_bounded(a.drop_last(), b, bound);
    } else {
        lemma_merged_bounded(a, b.drop_last(), bound);
    }
}

proof fn lemma_merged_ordered<T>(a: Seq<Fragment<T>>, b: Seq<Fragment<T>>)
    requires
        ordered(a),
        ordered(b),
    ensures
        ordered(merged(a, b)),
    decreases a.len() + b.len(),
{
    if a.len() == 0 || b.len() == 0 {
    } else if a.last().sequence > b.last().sequence {
        lemma_merged_ordered(a.drop_last(), b);
        lemma_merged_bounded(a.drop_last(), b, a.last().sequence);
    } else {
        lemma_merged_ordered(a, b.drop_last());
        lemma_merged_bounded(a, b.drop_last(), b.last().sequence);
    }
}

proof fn lemma_merged_multiset<T>(a: Seq<Fragment<T>>, b: Seq<Fragment<T>>)
    ensures
        merged(a, b).to_multiset() == (a + b).to_multiset(),
    decreases a.len() + b.len(),
{
    broadcast use to_multiset_build;

    if a.len() == 0 {
        assert(a + b =~= b);
    } else if b.len() == 0 {
        assert(a + b =~= a);
    } else if a.last().sequence > b.last().sequence {
        lemma_merged_multiset(a.drop_last(), b);
        let front = a.drop_last();
        assert(a =~= front.push(a.last()));
        lemma_multiset_commutative(front, b);
        lemma_multiset_commutative(a, b);
        assert(merged(a, b).to_multiset() =~= (a + b).to_multiset());
    } else {
        lemma_merged_multiset(a, b.drop_last());
        assert(a + b =~= (a + b.drop_last()).push(b.last()));
    }
}

/// No fragment of an ordered run that ends below `sequence` carries `sequence`.
proof fn lemma_no_run_above<T>(fragments: Seq<Fragment<T>>, sequence: u64)
    requires
        forall|i: int| 0 <= i < fragments.len() ==> fragments[i].sequence != sequence,
    ensures
        fragments.filter(has_sequence::<T>(sequence)) == Seq::<Fragment<T>>::empty(),
{
    fragments.lemma_all_neg_filter_empty(has_sequence::<T>(sequence));
}

#[verifier::spinoff_prover]
proof fn lemma_merged_runs<T>(a: Seq<Fragment<T>>, b: Seq<Fragment<T>>, sequence: u64)
    requires
        ordered(a),
        ordered(b),
    ensures
        merged(a, b).filter(has_sequence::<T>(sequence)) == a.filter(has_sequence::<T>(sequence))
            + b.filter(has_sequence::<T>(sequence)),
    decreases a.len() + b.len(),
{
    let test = has_sequence::<T>(sequence);
    if a.len() == 0 {
        assert(a.filter(test) =~= Seq::<Fragment<T>>::empty());
        assert(a.filter(test) + b.filter(test) =~= b.filter(test));
    } else if b.len() == 0 {
        assert(b.filter(test) =~= Seq::<Fragment<T>>::empty());
        assert(a.filter(test) + b.filter(test) =~= a.filter(test));
    } else if a.last().sequence > b.last().sequence {
        let front = a.drop_last();
        lemma_merged_runs(front, b, sequence);
        assert(a =~= front.push(a.last()));
        Seq::lemma_filter_push(merged(front, b), a.last(), test);
        Seq::lemma_filter_push(front, a.last(), test);
        if test(a.last()) {
            // `b` ends below `sequence`, so it has no fragment of that number.
            lemma_no_run_above(b, sequence);
            assert(merged(a, b).filter(test) =~= a.filter(test) + b.filter(test));
        } else {
            assert(merged(a, b).filter(test) =~= a.filter(test) + b.filter(test));
        }
    } else {
        let front = b.drop_last();
        lemma_merged_runs(a, front, sequence);
        assert(b =~= front.push(b.last()));
        Seq::lemma_filter_push(merged(a, front), b.last(), test);
        Seq::lemma_filter_push(front, b.last(), test);
        assert(merged(a, b).filter(test) =~= a.filter(test) + b.filter(test));
    }
}

/// A run that has a fragment numbered `sequence` has a non-empty run of that number.
proof fn lemma_run_is_not_empty<T>(fragments: Seq<Fragment<T>>, i: int)
    requires
        0 <= i < fragments.len(),
    ensures
        fragments.filter(has_sequence::<T>(fragments[i].sequence)).len() > 0,
{
    let test = has_sequence::<T>(fragments[i].sequence);
    assert(test(fragments[i]));
    fragments.lemma_filter_contains(test, i);
}

/// A non-empty run of `sequence` shows a fragment of that number.
proof fn lemma_run_has_witness<T>(fragments: Seq<Fragment<T>>, sequence: u64) -> (i: int)
    requires
        fragments.filter(has_sequence::<T>(sequence)).len() > 0,
    ensures
        0 <= i < fragments.len(),
        fragments[i].sequence == sequence,
{
    let test = has_sequence::<T>(sequence);
    let run = fragments.filter(test);
    fragments.lemma_filter_pred(test, 0);
    assert(test(run[0]));
    assert(run.contains(run[0]));
    fragments.lemma_filter_contains_rev(test, run[0]);
    let i = choose|i: int| 0 <= i < fragments.len() && fragments[i] == run[0];
    i
}

/// Two ordered runs that agree, for every sequence number, on the fragments of
/// that number and on their relative order, are the same run.
#[verifier::spinoff_prover]
proof fn lemma_stable_order_unique<T>(a: Seq<Fragment<T>>, b: Seq<Fragment<T>>)
    requires
        ordered(a),
        ordered(b),
        same_runs(a, b),
    ensures
        a == b,
    decreases a.len(),
{
    if a.len() == 0 {
        if b.len() > 0 {
            lemma_run_is_not_empty(b, 0);
            let test = has_sequence::<T>(b[0].sequence);
            assert(a.filter(test) == b.filter(test));
            a.lemma_filter_len(test);
        }
        assert(a =~= b);
    } else {
        let x = a.last();
        let top = has_sequence::<T>(x.sequence);
        lemma_run_is_not_empty(a, a.len() - 1);
        assert(a.filter(top) == b.filter(top));
        let j = lemma_run_has_witness(b, x.sequence);
        let y = b.last();
        let other = has_sequence::<T>(y.sequence);
        lemma_run_is_not_empty(b, b.len() - 1);
        assert(a.filter(other) == b.filter(other));
        let i = lemma_run_has_witness(a, y.sequence);
        assert(b[j].sequence <= y.sequence);
        assert(a[i].sequence <= x.sequence);
        assert(x.sequence == y.sequence);
        let a_front = a.drop_last();
        let b_front = b.drop_last();
        assert(a =~= a_front.push(x));
        assert(b =~= b_front.push(y));
        a_front.lemma_filter_push(x, top);
        b_front.lemma_filter_push(y, top);
        assert(a_front.filter(top).push(x) == b_front.filter(top).push(y));
        assert(a_front.filter(top).push(x).last() == x);
        assert(b_front.filter(top).push(y).last() == y);
        assert(x == y);
        assert(a_front.filter(top) =~= a_front.filter(top).push(x).drop_last());
        assert(b_front.filter(top) =~= b_front.filter(top).push(y).drop_last());
        assert forall|sequence: u64|
            a_front.filter(#[trigger] has_sequence::<T>(sequence)) == b_front.filter(
                has_sequence::<T>(sequence),
            ) by {
            let test = has_sequence::<T>(sequence);
            a_front.lemma_filter_push(x, test);
            b_front.lemma_filter_push(y, test);
            assert(a.filter(test) == b.filter(test));
            if sequence == x.sequence {
                assert(test(x) && top(x));
                assert(a_front.push(x).filter(test) == a_front.filter(test).push(x));
                assert(b_front.push(y).filter(test) == b_front.filter(test).push(y));
                assert(a_front.filter(test) =~= a_front.filter(test).push(x).drop_last());
                assert(b_front.filter(test) =~= b_front.filter(test).push(y).drop_last());
            } else {
                assert(!test(x));
            }
        }
        lemma_stable_order_unique(a_front, b_front);
    }
}

/// The order of reassembly is determined: an ordered run that keeps, for every
/// sequence number, the fragments of that number in their order of arrival is
/// the one that [`in_sequence_order`] names.
pub proof fn lemma_order_is_determined<T>(output: Seq<Fragment<T>>, arrivals: Seq<Fragment<T>>)
    requires
        ordered(output),
        same_runs(output, arrivals),
    ensures
        output == in_sequence_order(arrivals),
{
    let chosen = in_sequence_order(arrivals);
    assert(ordered(chosen) && same_runs(chosen, arrivals));
    assert forall|sequence: u64|
        output.filter(#[trigger] has_sequence::<T>(sequence)) == chosen.filter(
            has_sequence::<T>(sequence),
        ) by {
        assert(output.filter(has_sequence::<T>(sequence)) == arrivals.filter(
            has_sequence::<T>(sequence),
        ));
    }
    lemma_stable_order_unique(output, chosen);
}

/// Every run has an arrangement in sequence order, and it holds the same fragments.
pub proof fn lemma_in_sequence_order_exists<T>(arrivals: Seq<Fragment<T>>)
    ensures
        is_reassembly(in_sequence_order(arrivals), arrivals),
        same_runs(in_sequence_order(arrivals), arrivals),
    decreases arrivals.len(),
{
    let sorted = sorted_spec(arrivals);
    lemma_sorted_spec(arrivals);
    lemma_order_is_determined(sorted, arrivals);
}

/// The run sorted by halving and weaving.
spec fn sorted_spec<T>(arrivals: Seq<Fragment<T>>) -> Seq<Fragment<T>>
    decreases arrivals.len(),
{
    if arrivals.len() <= 1 {
        arrivals
    } else {
        let middle = arrivals.len() as int / 2;
        merged(
            sorted_spec(arrivals.subrange(0, middle)),
            sorted_spec(arrivals.subrange(middle, arrivals.len() as int)),
        )
    }
}

proof fn lemma_sorted_spec<T>(arrivals: Seq<Fragment<T>>)
    ensures
        ordered(sorted_spec(arrivals)),
        same_runs(sorted_spec(arrivals), arrivals),
        sorted_spec(arrivals).to_multiset() == arrivals.to_multiset(),
    decreases arrivals.len(),
{
    if arrivals.len() > 1 {
        let middle = arrivals.len() as int / 2;
        let front = arrivals.subrange(0, middle);
        let back = arrivals.subrange(middle, arrivals.len() as int);
        lemma_sorted_spec(front);
        lemma_sorted_spec(back);
        let front_sorted = sorted_spec(front);
        let back_sorted = sorted_spec(back);
        assert(arrivals =~= front + back);
        lemma_merged_ordered(front_sorted, back_sorted);
        lemma_merged_multiset(front_sorted, back_sorted);
        lemma_multiset_commutative(front_sorted, back_sorted);
        lemma_multiset_commutative(front, back);
        assert forall|sequence: u64|
            merged(front_sorted, back_sorted).filter(#[trigger] has_sequence::<T>(sequence))
                == arrivals.filter(has_sequence::<T>(sequence)) by {
            lemma_merged_runs(front_sorted, back_sorted, sequence);
            Seq::filter_distributes_over_add(front, back, has_sequence::<T>(sequence));
        }
    }
}

/// Weaves two ordered runs into one ordered run.
#[verifier::spinoff_prover]
fn merge<T>(left: Vec<Fragment<T>>, right: Vec<Fragment<T>>) -> (woven: Vec<Fragment<T>>)
    requires
        left.len() + right.len() <= usize::MAX,
    ensures
        woven@ == merged(left@, right@),
{
    let mut left = left;
    let mut right = right;
    let ghost target = merged(left@, right@);
    let total: usize = left.len() + right.len();
    proof {
        lemma_merged_len(left@, right@);
    }
    // The largest fragment leaves first, so `reversed` runs from the back of `target`.
    let mut reversed: Vec<Fragment<T>> = Vec::new();
    while left.len() > 0 || right.len() > 0
        invariant
            total == target.len(),
            left.len() + right.len() + reversed.len() == total,
            merged(left@, right@) == target.take(left.len() + right.len()),
            forall|p: int| 0 <= p < reversed.len() ==> reversed[p] == target[total - 1 - p],
        decreases left.len() + right.len(),
    {
        let ghost before = merged(left@, right@);
        let ghost old_left = left@;
        let ghost old_right = right@;
        let from_left: bool = if right.len() == 0 {
            true
        } else if left.len() == 0 {
            false
        } else {
            left[left.len() - 1].sequence > right[right.len() - 1].sequence
        };
        let fragment = if from_left {
            left.pop().unwrap()
        } else {
            right.pop().unwrap()
        };
        proof {
            lemma_merged_len(left@, right@);
            lemma_merged_len(old_left, old_right);
            if from_left {
                assert(left@ == old_left.drop_last());
                if old_right.len() == 0 {
                    assert(before == old_left);
                    assert(merged(left@, right@) =~= left@);
                } else {
                    assert(before == merged(left@, right@).push(fragment));
                }
            } else {
                assert(right@ == old_right.drop_last());
                if old_left.len() == 0 {
                    assert(before == old_right);
                    assert(merged(left@, right@) =~= right@);
                } else {
                    assert(before == merged(left@, right@).push(fragment));
                }
            }
            assert(before =~= merged(left@, right@).push(fragment));
            assert(merged(left@, right@) =~= target.take(left.len() + right.len()));
            let at = (left.len() + right.len()) as int;
            assert(before.len() == at + 1);
            assert(before[at] == fragment);
            assert(before == target.take(at + 1));
            assert(fragment == target[at]);
        }
        reversed.push(fragment);
    }
    let mut woven: Vec<Fragment<T>> = Vec::new();
    while reversed.len() > 0
        invariant
            total == target.len(),
            woven.len() + reversed.len() == total,
            forall|p: int| 0 <= p < reversed.len() ==> reversed[p] == target[total - 1 - p],
            forall|p: int| 0 <= p < woven.len() ==> woven[p] == target[p],
        decreases reversed.len(),
    {
        let fragment = reversed.pop().unwrap();
        woven.push(fragment);
    }
    assert(woven@ =~= target);
    woven
}

/// Collect-then-sort reassembly: puts the collected fragments in the order of
/// their sequence numbers. Fragments that share a number keep the order in
/// which they arrived.
#[verifier::spinoff_prover]
pub fn sort_by_sequence<T>(fragments: Vec<Fragment<T>>) -> (sorted: Vec<Fragment<T>>)
    ensures
        sorted@ == in_sequence_order(fragments@),
        is_reassembly(sorted@, fragments@),
        same_runs(sorted@, fragments@),
        sorted.len() == fragments.len(),
    decreases fragments.len(),
{
    if fragments.len() <= 1 {
        proof {
            lemma_order_is_determined(fragments@, fragments@);
        }
        return fragments;
    }
    let ghost whole = fragments@;
    let mut front = fragments;
    let middle: usize = front.len() / 2;
    let back = front.split_off(middle);
    let ghost front_part = front@;
    let ghost back_part = back@;
    let front_sorted = sort_by_sequence(front);
    let back_sorted = sort_by_sequence(back);
    proof {
        assert(whole =~= front_part + back_part);
        lemma_merged_ordered(front_sorted@, back_sorted@);
        lemma_merged_multiset(front_sorted@, back_sorted@);
        lemma_merged_len(front_sorted@, back_sorted@);
        lemma_multiset_commutative(front_sorted@, back_sorted@);
        lemma_multiset_commutative(front_part, back_part);
        assert forall|sequence: u64|
            merged(front_sorted@, back_sorted@).filter(#[trigger] has_sequence::<T>(sequence))
                == whole.filter(has_sequence::<T>(sequence)) by {
            lemma_merged_runs(front_sorted@, back_sorted@, sequence);
            Seq::filter_distributes_over_add(front_part, back_part, has_sequence::<T>(sequence));
        }
        lemma_order_is_determined(merged(front_sorted@, back_sorted@), whole);
    }
    merge(front_sorted, back_sorted)
}

/// The whole work of a collecting sink once every producer has closed: puts
/// the collected fragments in sequence order and hands out their payloads.
pub fn reassemble<T>(collected: Vec<Fragment<T>>) -> (output: Vec<T>)
    ensures
        output@ == payloads(in_sequence_order(collected@)),
{
    let sorted = sort_by_sequence(collected);
    let ghost ordered_run = sorted@;
    let mut pending = reversed(sorted);
    let mut output: Vec<T> = Vec::new();
    while pending.len() > 0
        invariant
            pending.len() + output.len() == ordered_run.len(),
            forall|p: int|
                0 <= p < pending.len() ==> pending[p] == ordered_run[ordered_run.len() - 1 - p],
            forall|i: int| 0 <= i < output.len() ==> output[i] == ordered_run[i].payload,
        decreases pending.len(),
    {
        let fragment = pending.pop().unwrap();
        output.push(fragment.payload);
    }
    assert(output@ =~= payloads(ordered_run));
    output
}

/// A value that occurs at two places of a run occurs at least twice in its multiset.
proof fn lemma_two_places<A>(run: Seq<A>, i: int, j: int)
    requires
        0 <= i < j < run.len(),
        run[i] == run[j],
    ensures
        run.to_multiset().count(run[i]) >= 2,
{
    broadcast use to_multiset_remove, to_multiset_contains;

    let rest = run.remove(j);
    assert(rest[i] == run[i]);
    assert(rest.contains(run[i]));
    assert(rest.to_multiset().count(run[i]) > 0);
}

/// A value that occurs at least twice in the multiset of a run occurs at two places of it.
proof fn lemma_twice_somewhere<A>(run: Seq<A>, value: A) -> (places: (int, int))
    requires
        run.to_multiset().count(value) >= 2,
    ensures
        0 <= places.0 < places.1 < run.len(),
        run[places.0] == value,
        run[places.1] == value,
{
    broadcast use to_multiset_remove, to_multiset_contains;

    assert(run.contains(value));
    let p = choose|p: int| 0 <= p < run.len() && run[p] == value;
    let rest = run.remove(p);
    assert(rest.to_multiset().count(value) > 0);
    assert(rest.contains(value));
    let q = choose|q: int| 0 <= q < rest.len() && rest[q] == value;
    if q < p {
        assert(run[q] == value);
        (q, p)
    } else {
        assert(run[q + 1] == value);
        (p, q + 1)
    }
}

/// Uniqueness of sequence numbers is a property of the set of fragments, not of
/// the order in which a run holds them.
pub proof fn lemma_distinct_in_any_order<T>(a: Seq<Fragment<T>>, b: Seq<Fragment<T>>)
    requires
        distinct_sequences(a),
        a.to_multiset() == b.to_multiset(),
    ensures
        distinct_sequences(b),
{
    broadcast use to_multiset_contains;

    assert forall|i: int, j: int| 0 <= i < j < b.len() implies b[i].sequence != b[j].sequence by {
        if b[i].sequence == b[j].sequence {
            if b[i] == b[j] {
                lemma_two_places(b, i, j);
                let places = lemma_twice_somewhere(a, b[i]);
                assert(a[places.0].sequence == a[places.1].sequence);
            } else {
                assert(b.contains(b[i]));
                assert(b.contains(b[j]));
                assert(a.to_multiset().count(b[i]) > 0);
                assert(a.to_multiset().count(b[j]) > 0);
                assert(a.contains(b[i]));
                assert(a.contains(b[j]));
                let p = choose|p: int| 0 <= p < a.len() && a[p] == b[i];
                let q = choose|q: int| 0 <= q < a.len() && a[q] == b[j];
                assert(p != q);
                if p < q {
                    assert(a[p].sequence != a[q].sequence);
                } else {
                    assert(a[q].sequence != a[p].sequence);
                }
            }
        }
    }
}

/// Two ordered runs of the same fragments, each sequence number used once, are the same run.
proof fn lemma_ordered_unique<T>(a: Seq<Fragment<T>>, b: Seq<Fragment<T>>)
    requires
        ordered(a),
        ordered(b),
        distinct_sequences(a),
        a.to_multiset() == b.to_multiset(),
    ensures
        a == b,
    decreases a.len(),
{
    broadcast use to_multiset_contains, to_multiset_remove;

    to_multiset_len(a);
    to_multiset_len(b);
    assert(a.len() == b.len());
    if a.len() == 0 {
        assert(a =~= b);
    } else {
        let x = a.last();
        let y = b.last();
        assert(a.contains(x));
        assert(b.contains(y));
        assert(b.to_multiset().count(x) > 0);
        assert(a.to_multiset().count(y) > 0);
        assert(b.contains(x));
        assert(a.contains(y));
        let j = choose|j: int| 0 <= j < b.len() && b[j] == x;
        let i = choose|i: int| 0 <= i < a.len() && a[i] == y;
        assert(b[j].sequence <= y.sequence);
        assert(a[i].sequence <= x.sequence);
        assert(i == a.len() - 1);
        assert(x == y);
        let last = a.len() - 1;
        assert(a.remove(last) =~= a.drop_last());
        assert(b.remove(last) =~= b.drop_last());
        assert(a.drop_last().to_multiset() == b.drop_last().to_multiset());
        lemma_ordered_unique(a.drop_last(), b.drop_last());
        assert(a =~= a.drop_last().push(x));
        assert(b =~= b.drop_last().push(y));
    }
}

/// Idempotent reassembly: when every sequence number is used once, the
/// reassembled output depends on the set of fragments that arrived and not on
/// the order in which they arrived.
pub proof fn lemma_arrival_order_is_irrelevant<T>(
    first_arrivals: Seq<Fragment<T>>,
    second_arrivals: Seq<Fragment<T>>,
    first_output: Seq<Fragment<T>>,
    second_output: Seq<Fragment<T>>,
)
    requires
        distinct_sequences(first_arrivals),
        first_arrivals.to_multiset() == second_arrivals.to_multiset(),
        is_reassembly(first_output, first_arrivals),
        is_reassembly(second_output, second_arrivals),
    ensures
        first_output == second_output,
{
    lemma_distinct_in_any_order(first_arrivals, first_output);
    lemma_ordered_unique(first_output, second_output);
}

/// Order preservation and no loss: if what arrives at the sink is what the
/// source emitted for `inputs`, in whatever order, the reassembled output is
/// the emission itself: fragment `i` of the output carries sequence number `i`
/// and the payload of input `i`.
pub proof fn lemma_reassembly_restores_emission<T>(
    inputs: Seq<T>,
    arrivals: Seq<Fragment<T>>,
    output: Seq<Fragment<T>>,
)
    requires
        inputs.len() <= u64::MAX,
        arrivals.to_multiset() == stamped(inputs).to_multiset(),
        is_reassembly(output, arrivals),
    ensures
        output == stamped(inputs),
{
    let emitted = stamped(inputs);
    assert(ordered(emitted));
    assert(distinct_sequences(emitted));
    lemma_ordered_unique(emitted, output);
}

} // verus!
