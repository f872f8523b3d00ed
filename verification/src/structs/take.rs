use crate::receiver::Receiver;
use crate::signal::ValueResult;
use crate::stage::{exhausts, relayed, Stage};
use core::marker::PhantomData;
use vstd::prelude::*;

verus! {

/// A stage that hands on the first values it sees, up to a fixed count over
/// its whole life, and is done once the count is used up.
pub struct Take<T> {
    remaining: usize,
    marker: PhantomData<T>,
}

impl<T> Take<T> {
    /// How many values the stage will still hand on.
    pub closed spec fn remaining(&self) -> nat {
        self.remaining as nat
    }

    /// The stage that hands on `amount` values.
    pub closed spec fn of(amount: usize) -> Self {
        Take { remaining: amount, marker: PhantomData }
    }

    /// The stage made for a count has that count left.
    pub proof fn lemma_of(amount: usize)
        ensures
            Self::of(amount).remaining() == amount,
    {
    }

    /// A stage that hands on `amount` values.
    pub fn new(amount: usize) -> (res: Self)
        ensures
            res == Self::of(amount),
            res.remaining() == amount,
    {
        Take { remaining: amount, marker: PhantomData }
    }
}

impl<T> Stage<T> for Take<T> {
    type Output = T;

    type State = nat;

    open spec fn inv(&self) -> bool {
        true
    }

    open spec fn state(&self) -> nat {
        self.remaining()
    }

    open spec fn emit(state: nat, value: T) -> Option<T> {
        if state > 0 {
            Some(value)
        } else {
            None
        }
    }

    open spec fn next(state: nat, value: T) -> nat {
        if state > 0 {
            (state - 1) as nat
        } else {
            state
        }
    }

    open spec fn done(state: nat) -> bool {
        state == 0
    }

    fn is_done(&self) -> (res: bool) {
        self.remaining == 0
    }

    /// Hands the value on while the count lasts, and answers `Stop` with the
    /// value that uses it up, whatever the receiver answered.
    fn process<R: Receiver<T>>(&mut self, value: T, receiver: &mut R) -> (res: ValueResult) {
        if self.remaining == 0 {
            return ValueResult::Stop;
        }
        self.remaining = self.remaining - 1;
        let answer = receiver.accept(value);
        if self.remaining == 0 {
            ValueResult::Stop
        } else {
            answer
        }
    }
}

/// A taking stage relays the first `amount` of the values that pass through
/// it, or all of them where they are fewer, and is done by the end exactly
/// when the values were enough to use the count up.
pub proof fn lemma_take_relays<T>(amount: nat, values: Seq<T>)
    ensures
        relayed::<T, Take<T>>(amount, values) == values.take(
            if amount <= values.len() {
                amount as int
            } else {
                values.len() as int
            },
        ),
        exhausts::<T, Take<T>>(amount, values) == (amount <= values.len()),
    decreases values.len(),
{
    let kept = if amount <= values.len() {
        amount as int
    } else {
        values.len() as int
    };
    if values.len() == 0 || amount == 0 {
        assert(values.take(kept) =~= Seq::<T>::empty());
    } else {
        let rest = values.skip(1);
        lemma_take_relays::<T>((amount - 1) as nat, rest);
        assert(seq![values[0]] + rest.take(kept - 1) =~= values.take(kept));
    }
}

} // verus!
