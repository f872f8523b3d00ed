use crate::callable::Predicate;
use crate::receiver::Receiver;
use crate::signal::ValueResult;
use crate::stage::{exhausts, relayed, Stage};
use core::marker::PhantomData;
use vstd::prelude::*;

verus! {

/// A stage that hands on the values for which a predicate holds.
pub struct Filter<P, T> {
    predicate: P,
    marker: PhantomData<T>,
}

impl<P: Predicate<T>, T> Filter<P, T> {
    /// The predicate that the stage tests each value with.
    pub closed spec fn predicate(&self) -> P {
        self.predicate
    }

    /// The stage that keeps the values of which `predicate` holds.
    pub closed spec fn keeping(predicate: P) -> Self {
        Filter { predicate, marker: PhantomData }
    }

    /// The stage made of a predicate tests with that predicate.
    pub proof fn lemma_keeping(predicate: P)
        ensures
            Self::keeping(predicate).predicate() == predicate,
    {
    }

    /// A stage that keeps the values of which `predicate` holds.
    pub fn new(predicate: P) -> (res: Self)
        ensures
            res == Self::keeping(predicate),
            res.predicate() == predicate,
    {
        Filter { predicate, marker: PhantomData }
    }
}

impl<P: Predicate<T>, T> Stage<T> for Filter<P, T> {
    type Output = T;

    type State = P;

    open spec fn inv(&self) -> bool {
        self.predicate().sound()
    }

    open spec fn state(&self) -> P {
        self.predicate()
    }

    open spec fn emit(state: P, value: T) -> Option<T> {
        if state.holds(value) {
            Some(value)
        } else {
            None
        }
    }

    open spec fn next(state: P, value: T) -> P {
        state
    }

    open spec fn done(state: P) -> bool {
        false
    }

    fn is_done(&self) -> (res: bool) {
        false
    }

    /// Hands the value on if the predicate holds of it; drops it otherwise.
    fn process<R: Receiver<T>>(&mut self, value: T, receiver: &mut R) -> (res: ValueResult) {
        if self.predicate.test(&value) {
            receiver.accept(value)
        } else {
            ValueResult::MoreValues
        }
    }
}

/// A filtering stage relays the values of which its predicate holds, in
/// their order, and is never done.
pub proof fn lemma_filter_relays<P: Predicate<T>, T>(predicate: P, values: Seq<T>)
    ensures
        relayed::<T, Filter<P, T>>(predicate, values) == values.filter(
            |value: T| predicate.holds(value),
        ),
        !exhausts::<T, Filter<P, T>>(predicate, values),
    decreases values.len(),
{
    let keep = |value: T| predicate.holds(value);
    reveal_with_fuel(Seq::filter, 2);
    if values.len() > 0 {
        let first = seq![values[0]];
        let rest = values.skip(1);
        lemma_filter_relays::<P, T>(predicate, rest);
        Seq::filter_distributes_over_add(first, rest, keep);
        assert(first + rest =~= values);
        assert(first.drop_last() =~= Seq::<T>::empty());
        assert(first.last() == values[0]);
        if keep(values[0]) {
            assert(first.filter(keep) =~= first);
        } else {
            assert(first.filter(keep) =~= Seq::<T>::empty());
            assert(first.filter(keep) + rest.filter(keep) =~= rest.filter(keep));
        }
    }
}

} // verus!
