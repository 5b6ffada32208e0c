//! The per-fragment transform, as the engine sees it: a function of the
//! level of the worker and of the payload, which may fail. This module names
//! what a transform gives and what a payload becomes on its way down a lane.

use vstd::prelude::*;

verus! {

/// What the transform gives for payload `x` at level `level`: `None` is a failure.
pub open spec fn outcome<T, F: Fn(usize, T) -> Option<T>>(f: F, level: usize, x: T) -> Option<T> {
    choose|y: Option<T>| call_ensures(f, (level, x), y)
}

/// The transform is a function of level and payload: it is pure with respect
/// to the engine.
pub open spec fn deterministic<T, F: Fn(usize, T) -> Option<T>>(f: F) -> bool {
    forall|level: usize, x: T, first: Option<T>, second: Option<T>|
        call_ensures(f, (level, x), first) && call_ensures(f, (level, x), second) ==> first
            == second
}

/// The payload after the first `levels` levels of a lane, or `None` if one of
/// them failed.
pub open spec fn through<T, F: Fn(usize, T) -> Option<T>>(f: F, levels: nat, x: T) -> Option<T>
    decreases levels,
{
    if levels == 0 {
        Some(x)
    } else {
        match through(f, (levels - 1) as nat, x) {
            Some(y) => outcome(f, (levels - 1) as usize, y),
            None => None,
        }
    }
}

/// How [`through`] goes from one level to the next.
pub proof fn lemma_through_unfolds<T, F: Fn(usize, T) -> Option<T>>(f: F, level: nat, x: T)
    ensures
        through(f, 0, x) == Some(x),
        through(f, level + 1, x) == (match through(f, level, x) {
            Some(y) => outcome(f, level as usize, y),
            None => None,
        }),
{
}

/// Every level that payload `x` reaches accepts what reaches it.
pub open spec fn callable_along<T, F: Fn(usize, T) -> Option<T>>(f: F, depth: nat, x: T) -> bool {
    forall|level: nat|
        level < depth ==> (#[trigger] through(f, level, x) matches Some(y) ==> call_requires(
            f,
            (level as usize, y),
        ))
}

/// The values that [`through`] names for `x` are what the transform gave:
/// at every level below `levels` that `x` reached, the transform was called
/// on what reached it and returned what `through` names for the next level.
pub open spec fn witnessed<T, F: Fn(usize, T) -> Option<T>>(f: F, levels: nat, x: T) -> bool {
    forall|level: nat| level < levels ==> #[trigger] witnessed_at(f, level, x)
}

/// If `x` reached level `level`, the transform was called there on what
/// reached it, and returned what [`through`] names for the next level.
pub open spec fn witnessed_at<T, F: Fn(usize, T) -> Option<T>>(f: F, level: nat, x: T) -> bool {
    through(f, level, x) matches Some(y) ==> call_ensures(
        f,
        (level as usize, y),
        through(f, level + 1, x),
    )
}

/// The transform fails on `x` at level `level`, and at no level before it.
pub open spec fn fails_at<T, F: Fn(usize, T) -> Option<T>>(f: F, level: nat, x: T) -> bool {
    through(f, level, x) is Some && through(f, level + 1, x) is None
}

/// The output of a run on `inputs` in which no transform fails: payload `i`
/// is input `i` after all levels of a lane.
pub open spec fn transformed<T, F: Fn(usize, T) -> Option<T>>(
    f: F,
    depth: nat,
    inputs: Seq<T>,
) -> Seq<T> {
    Seq::new(inputs.len(), |i: int| through(f, depth, inputs[i])->Some_0)
}

/// A payload that failed at some level has no payload at any later level.
pub proof fn lemma_failure_stays<T, F: Fn(usize, T) -> Option<T>>(f: F, failed: nat, later: nat, x: T)
    requires
        failed <= later,
        through(f, failed, x) is None,
    ensures
        through(f, later, x) is None,
    decreases later,
{
    if failed < later {
        lemma_failure_stays(f, failed, (later - 1) as nat, x);
    }
}


} // verus!
