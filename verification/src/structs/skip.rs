use crate::receiver::Receiver;
use crate::signal::ValueResult;
use crate::stage::{exhausts, relayed, Stage};
use core::marker::PhantomData;
use vstd::prelude::*;

verus! {

/// A stage that drops the first values it sees, up to a fixed count over its
/// whole life, and hands on every value after them.
pub struct Skip<T> {
    remaining: usize,
    marker: PhantomData<T>,
}

impl<T> Skip<T> {
    /// How many values the stage will still drop.
    pub closed spec fn remaining(&self) -> nat {
        self.remaining as nat
    }

    /// The stage that drops `amount` values.
    pub closed spec fn of(amount: usize) -> Self {
        Skip { remaining: amount, marker: PhantomData }
    }

    /// The stage made for a count has that count left.
    pub proof fn lemma_of(amount: usize)
        ensures
            Self::of(amount).remaining() == amount,
    {
    }

    /// A stage that drops `amount` values.
    pub fn new(amount: usize) -> (res: Self)
        ensures
            res == Self::of(amount),
            res.remaining() == amount,
    {
        Skip { remaining: amount, marker: PhantomData }
    }
}

impl<T> Stage<T> for Skip<T> {
    type Output = T;

    type State = nat;

    open spec fn inv(&self) -> bool {
        true
    }

    open spec fn state(&self) -> nat {
        self.remaining()
    }

    open spec fn emit(state: nat, value: T) -> Option<T> {
        if state > 0 {
            None
        } else {
            Some(value)
        }
    }

    open spec fn next(state: nat, value: T) -> nat {
        if state > 0 {
            (state - 1) as nat
        } else {
            state
        }
    }

    open spec fn done(state: nat) -> bool {
        false
    }

    fn is_done(&self) -> (res: bool) {
        false
    }

    /// Drops the value while the count lasts; hands it on afterwards.
    fn process<R: Receiver<T>>(&mut self, value: T, receiver: &mut R) -> (res: ValueResult) {
        if self.remaining > 0 {
            self.remaining = self.remaining - 1;
            ValueResult::MoreValues
        } else {
            receiver.accept(value)
        }
    }
}

/// A skipping stage relays the values that pass through it without the first
/// `amount` of them, and is never done.
pub proof fn lemma_skip_relays<T>(amount: nat, values: Seq<T>)
    ensures
        relayed::<T, Skip<T>>(amount, values) == values.skip(
            if amount <= values.len() {
                amount as int
            } else {
                values.len() as int
            },
        ),
        !exhausts::<T, Skip<T>>(amount, values),
    decreases values.len(),
{
    let dropped = if amount <= values.len() {
        amount as int
    } else {
        values.len() as int
    };
    if values.len() == 0 {
        assert(values.skip(dropped) =~= Seq::<T>::empty());
    } else {
        let rest = values.skip(1);
        if amount > 0 {
            lemma_skip_relays::<T>((amount - 1) as nat, rest);
            assert(rest.skip(dropped - 1) =~= values.skip(dropped));
        } else {
            lemma_skip_relays::<T>(0, rest);
            assert(rest.skip(0) =~= rest);
            assert(seq![values[0]] + rest =~= values.skip(0));
        }
    }
}

} // verus!
