use crate::signal::ValueResult;
use vstd::prelude::*;

verus! {

/// The consuming end of a run: it takes one value at a time and answers each
/// with a signal.
///
/// A receiver is modelled as a deterministic machine over `State`: `signal`
/// and `next` say what it answers to a value and what it becomes, and `admits`
/// says which values it may be handed in a given state.
pub trait Receiver<T> {
    /// The mathematical state that the answers depend on.
    type State;

    /// Well-formedness of the receiver.
    spec fn inv(&self) -> bool;

    /// The receiver's present state.
    spec fn state(&self) -> Self::State;

    /// Whether `value` may be handed over in `state`.
    spec fn admits(state: Self::State, value: T) -> bool;

    /// The answer to `value` in `state`.
    spec fn signal(state: Self::State, value: T) -> ValueResult;

    /// The state after taking `value` in `state`.
    spec fn next(state: Self::State, value: T) -> Self::State;

    /// Takes one value and says whether the run may go on.
    fn accept(&mut self, value: T) -> (res: ValueResult)
        requires
            old(self).inv(),
            Self::admits(old(self).state(), value),
        ensures
            final(self).inv(),
            res == Self::signal(old(self).state(), value),
            final(self).state() == Self::next(old(self).state(), value),
    ;
}

/// How many of `values` a receiver in `state` takes when they are offered in
/// order and the offer ends with the first value answered by `Stop`; that
/// value is counted.
pub open spec fn taken<T, R: Receiver<T>>(state: R::State, values: Seq<T>) -> nat
    decreases values.len(),
{
    if values.len() == 0 {
        0
    } else if R::signal(state, values[0]) == ValueResult::Stop {
        1
    } else {
        1 + taken::<T, R>(R::next(state, values[0]), values.skip(1))
    }
}

/// Whether a receiver in `state` answers one of `values` with `Stop`.
pub open spec fn halts<T, R: Receiver<T>>(state: R::State, values: Seq<T>) -> bool
    decreases values.len(),
{
    if values.len() == 0 {
        false
    } else if R::signal(state, values[0]) == ValueResult::Stop {
        true
    } else {
        halts::<T, R>(R::next(state, values[0]), values.skip(1))
    }
}

/// The state of a receiver that started in `state` once `values` have been
/// offered to it: it has taken the first `taken(state, values)` of them.
pub open spec fn settled<T, R: Receiver<T>>(state: R::State, values: Seq<T>) -> R::State
    decreases values.len(),
{
    if values.len() == 0 {
        state
    } else if R::signal(state, values[0]) == ValueResult::Stop {
        R::next(state, values[0])
    } else {
        settled::<T, R>(R::next(state, values[0]), values.skip(1))
    }
}

/// Whether a receiver in `state` admits each of `values` in the state in which
/// that value reaches it. Nothing is asked of the values after the first one
/// answered by `Stop`.
pub open spec fn admits_all<T, R: Receiver<T>>(state: R::State, values: Seq<T>) -> bool
    decreases values.len(),
{
    if values.len() == 0 {
        true
    } else {
        &&& R::admits(state, values[0])
        &&& R::signal(state, values[0]) == ValueResult::Stop || admits_all::<T, R>(
            R::next(state, values[0]),
            values.skip(1),
        )
    }
}

/// The count of taken values never exceeds what was offered; it is at least
/// one when the receiver stops and everything when it does not.
pub proof fn lemma_taken_bounds<T, R: Receiver<T>>(state: R::State, values: Seq<T>)
    ensures
        taken::<T, R>(state, values) <= values.len(),
        halts::<T, R>(state, values) ==> 1 <= taken::<T, R>(state, values),
        !halts::<T, R>(state, values) ==> taken::<T, R>(state, values) == values.len(),
    decreases values.len(),
{
    if values.len() > 0 && R::signal(state, values[0]) != ValueResult::Stop {
        lemma_taken_bounds::<T, R>(R::next(state, values[0]), values.skip(1));
    }
}

/// Offering `head` and then `tail` is offering `head + tail`: if the receiver
/// stops within `head`, `tail` is never reached; otherwise the offer goes on
/// with `tail` from the state that `head` left.
pub proof fn lemma_offer_concat<T, R: Receiver<T>>(state: R::State, head: Seq<T>, tail: Seq<T>)
    ensures
        halts::<T, R>(state, head) ==> {
            &&& halts::<T, R>(state, head + tail)
            &&& taken::<T, R>(state, head + tail) == taken::<T, R>(state, head)
            &&& settled::<T, R>(state, head + tail) == settled::<T, R>(state, head)
            &&& admits_all::<T, R>(state, head + tail) == admits_all::<T, R>(state, head)
        },
        !halts::<T, R>(state, head) ==> {
            let mid = settled::<T, R>(state, head);
            &&& halts::<T, R>(state, head + tail) == halts::<T, R>(mid, tail)
            &&& taken::<T, R>(state, head + tail) == head.len() + taken::<T, R>(mid, tail)
            &&& settled::<T, R>(state, head + tail) == settled::<T, R>(mid, tail)
            &&& admits_all::<T, R>(state, head + tail) == (admits_all::<T, R>(state, head)
                && admits_all::<T, R>(mid, tail))
        },
    decreases head.len(),
{
    if head.len() == 0 {
        assert(head + tail =~= tail);
    } else {
        let whole = head + tail;
        assert(whole[0] == head[0]);
        assert(whole.skip(1) =~= head.skip(1) + tail);
        if R::signal(state, head[0]) != ValueResult::Stop {
            lemma_offer_concat::<T, R>(R::next(state, head[0]), head.skip(1), tail);
        }
    }
}

/// A vector is a receiver that keeps every value and always asks for more.
impl<T> Receiver<T> for Vec<T> {
    type State = Seq<T>;

    open spec fn inv(&self) -> bool {
        true
    }

    open spec fn state(&self) -> Seq<T> {
        self@
    }

    open spec fn admits(state: Seq<T>, value: T) -> bool {
        true
    }

    open spec fn signal(state: Seq<T>, value: T) -> ValueResult {
        ValueResult::MoreValues
    }

    open spec fn next(state: Seq<T>, value: T) -> Seq<T> {
        state.push(value)
    }

    fn accept(&mut self, value: T) -> (res: ValueResult) {
        self.push(value);
        ValueResult::MoreValues
    }
}

/// A vector takes everything it is offered and appends it.
pub proof fn lemma_vec_takes_all<T>(state: Seq<T>, values: Seq<T>)
    ensures
        !halts::<T, Vec<T>>(state, values),
        taken::<T, Vec<T>>(state, values) == values.len(),
        settled::<T, Vec<T>>(state, values) == state + values,
        admits_all::<T, Vec<T>>(state, values),
    decreases values.len(),
{
    if values.len() == 0 {
        assert(state + values =~= state);
    } else {
        lemma_vec_takes_all::<T>(state.push(values[0]), values.skip(1));
        assert(state.push(values[0]) + values.skip(1) =~= state + values);
    }
}

} // verus!
