use crate::receiver::Receiver;
use crate::signal::ValueResult;
use crate::stage::{exhausts, relayed, Stage};
use vstd::prelude::*;
use vstd::std_specs::cmp::PartialEqSpec;

verus! {

/// A stage that collapses runs of equal values: it hands a value on unless it
/// equals the value handed on last.
pub struct Dedup<T> {
    previous: Option<T>,
}

/// Whether `value` repeats the value handed on last.
pub open spec fn repeats<T: PartialEq>(previous: Option<T>, value: T) -> bool {
    match previous {
        Some(last) => last.eq_spec(&value),
        None => false,
    }
}

impl<T> Dedup<T> {
    /// The value handed on last, if any.
    pub closed spec fn previous(&self) -> Option<T> {
        self.previous
    }

    /// The stage that has not seen any value yet.
    pub closed spec fn fresh() -> Self {
        Dedup { previous: None }
    }

    /// The fresh stage has no value to compare with.
    pub proof fn lemma_fresh()
        ensures
            Self::fresh().previous() is None,
    {
    }

    /// A stage that has not seen any value yet.
    pub fn new() -> (res: Self)
        ensures
            res == Self::fresh(),
            res.previous() is None,
    {
        Dedup { previous: None }
    }
}

impl<T: PartialEq + Copy> Stage<T> for Dedup<T> {
    type Output = T;

    type State = Option<T>;

    open spec fn inv(&self) -> bool {
        T::obeys_eq_spec()
    }

    open spec fn state(&self) -> Option<T> {
        self.previous()
    }

    open spec fn emit(state: Option<T>, value: T) -> Option<T> {
        if repeats(state, value) {
            None
        } else {
            Some(value)
        }
    }

    open spec fn next(state: Option<T>, value: T) -> Option<T> {
        if repeats(state, value) {
            state
        } else {
            Some(value)
        }
    }

    open spec fn done(state: Option<T>) -> bool {
        false
    }

    fn is_done(&self) -> (res: bool) {
        false
    }

    /// Drops a value that equals the one handed on last; hands on any other
    /// and keeps it as the new last value, whatever the receiver answers.
    fn process<R: Receiver<T>>(&mut self, value: T, receiver: &mut R) -> (res: ValueResult) {
        let repeated = match &self.previous {
            Some(last) => *last == value,
            None => false,
        };
        if repeated {
            ValueResult::MoreValues
        } else {
            self.previous = Some(value);
            receiver.accept(value)
        }
    }
}

/// `values` with each run of equal values collapsed to its first value; a
/// leading run that repeats `previous` is dropped whole.
pub open spec fn collapsed<T: PartialEq>(previous: Option<T>, values: Seq<T>) -> Seq<T>
    decreases values.len(),
{
    if values.len() == 0 {
        Seq::empty()
    } else if repeats(previous, values[0]) {
        collapsed(previous, values.skip(1))
    } else {
        seq![values[0]] + collapsed(Some(values[0]), values.skip(1))
    }
}

/// A deduplicating stage relays the collapsed values, and is never done.
pub proof fn lemma_dedup_relays<T: PartialEq + Copy>(previous: Option<T>, values: Seq<T>)
    ensures
        relayed::<T, Dedup<T>>(previous, values) == collapsed(previous, values),
        !exhausts::<T, Dedup<T>>(previous, values),
    decreases values.len(),
{
    if values.len() > 0 {
        lemma_dedup_relays::<T>(Dedup::<T>::next(previous, values[0]), values.skip(1));
    }
}

/// Collapsing twice is collapsing once.
pub proof fn lemma_collapsed_idempotent<T: PartialEq>(previous: Option<T>, values: Seq<T>)
    ensures
        collapsed(previous, collapsed(previous, values)) == collapsed(previous, values),
    decreases values.len(),
{
    if values.len() > 0 {
        let rest = values.skip(1);
        if repeats(previous, values[0]) {
            lemma_collapsed_idempotent(previous, rest);
        } else {
            let tail = collapsed(Some(values[0]), rest);
            let once = seq![values[0]] + tail;
            lemma_collapsed_idempotent(Some(values[0]), rest);
            assert(once[0] == values[0]);
            assert(once.skip(1) =~= tail);
        }
    }
}

} // verus!
