use crate::receiver::{admits_all, halts, settled, taken, Receiver};
use crate::signal::ValueResult;
use core::marker::PhantomData;
use vstd::prelude::*;

verus! {

/// A terminal stage that hands every value to a consuming function and
/// always asks for more. It keeps a record of the values handed over.
pub struct Collect<F, T> {
    collector: F,
    handed: Ghost<Seq<T>>,
    marker: PhantomData<T>,
}

/// Whether `collector` has been called on each of `values`: what it ensures
/// of a call holds of each.
pub open spec fn collected<F: FnMut(T), T>(collector: F, values: Seq<T>) -> bool {
    forall|i: int| 0 <= i < values.len() ==> call_ensures(collector, (#[trigger] values[i],), ())
}

impl<F: FnMut(T), T> Collect<F, T> {
    /// The function that takes each value.
    pub closed spec fn collector(&self) -> F {
        self.collector
    }

    /// The values handed to the function so far, in order.
    pub closed spec fn handed(&self) -> Seq<T> {
        self.handed@
    }

    /// The terminal stage that hands every value to `collector` and has not
    /// handed over any yet.
    pub closed spec fn into(collector: F) -> Self {
        Collect { collector, handed: Ghost(Seq::empty()), marker: PhantomData }
    }

    /// The stage made of a function holds that function and an empty record.
    pub proof fn lemma_into(collector: F)
        ensures
            Self::into(collector).collector() == collector,
            Self::into(collector).handed() == Seq::<T>::empty(),
    {
    }

    /// A terminal stage that hands every value to `collector`; nothing has
    /// been handed over yet.
    pub fn new(collector: F) -> (res: Self)
        ensures
            res == Self::into(collector),
            res.collector() == collector,
            res.handed() == Seq::<T>::empty(),
            res.inv(),
    {
        Collect { collector, handed: Ghost(Seq::empty()), marker: PhantomData }
    }
}

impl<F: FnMut(T), T> Receiver<T> for Collect<F, T> {
    /// The function and the values handed to it so far.
    type State = (F, Seq<T>);

    open spec fn inv(&self) -> bool {
        collected::<F, T>(self.collector(), self.handed())
    }

    open spec fn state(&self) -> (F, Seq<T>) {
        (self.collector(), self.handed())
    }

    open spec fn admits(state: (F, Seq<T>), value: T) -> bool {
        call_requires(state.0, (value,))
    }

    open spec fn signal(state: (F, Seq<T>), value: T) -> ValueResult {
        ValueResult::MoreValues
    }

    open spec fn next(state: (F, Seq<T>), value: T) -> (F, Seq<T>) {
        (state.0, state.1.push(value))
    }

    /// Calls the function on the value, so that what the function ensures of
    /// the call holds, and adds the value to the record.
    fn accept(&mut self, value: T) -> (res: ValueResult)
        ensures
            call_ensures(old(self).collector(), (value,), ()),
            final(self).collector() == old(self).collector(),
            final(self).handed() == old(self).handed().push(value),
    {
        let ghost given = value;
        let ghost before = self.handed@;
        (self.collector)(value);
        self.handed = Ghost(before.push(given));
        proof {
            assert forall|i: int| 0 <= i < self.handed@.len() implies call_ensures(
                self.collector,
                (#[trigger] self.handed@[i],),
                (),
            ) by {
                if i < before.len() {
                    assert(self.handed@[i] == before[i]);
                }
            }
        }
        ValueResult::MoreValues
    }
}

/// A collecting stage takes everything it is offered and adds it to its
/// record, and may be offered any values that its function can be called on.
pub proof fn lemma_collect_takes_all<F: FnMut(T), T>(
    collector: F,
    handed: Seq<T>,
    values: Seq<T>,
)
    ensures
        !halts::<T, Collect<F, T>>((collector, handed), values),
        taken::<T, Collect<F, T>>((collector, handed), values) == values.len(),
        settled::<T, Collect<F, T>>((collector, handed), values) == (collector, handed + values),
        admits_all::<T, Collect<F, T>>((collector, handed), values) == (forall|i: int|
            0 <= i < values.len() ==> call_requires(collector, (#[trigger] values[i],))),
    decreases values.len(),
{
    if values.len() == 0 {
        assert(handed + values =~= handed);
    } else {
        let rest = values.skip(1);
        let grown = handed.push(values[0]);
        lemma_collect_takes_all::<F, T>(collector, grown, rest);
        assert(grown + rest =~= handed + values);
        if admits_all::<T, Collect<F, T>>((collector, handed), values) {
            assert forall|i: int| 0 <= i < values.len() implies call_requires(
                collector,
                (#[trigger] values[i],),
            ) by {
                if i > 0 {
                    assert(values[i] == rest[i - 1]);
                }
            }
        }
        if forall|i: int| 0 <= i < values.len() ==> call_requires(
            collector,
            (#[trigger] values[i],),
        ) {
            assert forall|i: int| 0 <= i < rest.len() implies call_requires(
                collector,
                (#[trigger] rest[i],),
            ) by {
                assert(rest[i] == values[i + 1]);
            }
        }
    }
}

/// A terminal stage that hands every value to a consuming function and lets
/// its answer decide: `true` asks for more, `false` stops the run.
pub struct End<F, T> {
    consumer: F,
    marker: PhantomData<T>,
}

/// Whether `consumer` asks for more after `value`.
pub open spec fn continues<F: FnMut(T) -> bool, T>(consumer: F, value: T) -> bool {
    call_ensures(consumer, (value,), true)
}

/// Whether the answer of `consumer` depends on the value alone.
pub open spec fn settles<F: FnMut(T) -> bool, T>(consumer: F) -> bool {
    forall|value: T|
        !(#[trigger] call_ensures(consumer, (value,), true) && call_ensures(
            consumer,
            (value,),
            false,
        ))
}

impl<F: FnMut(T) -> bool, T> End<F, T> {
    /// The function that takes each value.
    pub closed spec fn consumer(&self) -> F {
        self.consumer
    }

    /// The terminal stage that hands every value to `consumer`.
    pub closed spec fn with(consumer: F) -> Self {
        End { consumer, marker: PhantomData }
    }

    /// The stage made of a function holds that function.
    pub proof fn lemma_with(consumer: F)
        ensures
            Self::with(consumer).consumer() == consumer,
    {
    }

    /// A terminal stage that hands every value to `consumer`.
    pub fn new(consumer: F) -> (res: Self)
        ensures
            res == Self::with(consumer),
            res.consumer() == consumer,
    {
        End { consumer, marker: PhantomData }
    }
}

impl<F: FnMut(T) -> bool, T> Receiver<T> for End<F, T> {
    type State = F;

    open spec fn inv(&self) -> bool {
        settles::<F, T>(self.consumer())
    }

    open spec fn state(&self) -> F {
        self.consumer()
    }

    open spec fn admits(state: F, value: T) -> bool {
        call_requires(state, (value,))
    }

    open spec fn signal(state: F, value: T) -> ValueResult {
        if continues::<F, T>(state, value) {
            ValueResult::MoreValues
        } else {
            ValueResult::Stop
        }
    }

    open spec fn next(state: F, value: T) -> F {
        state
    }

    fn accept(&mut self, value: T) -> (res: ValueResult) {
        ValueResult::from_bool((self.consumer)(value))
    }
}

/// An ending stage may be offered any values that its function can be called
/// on.
pub proof fn lemma_end_admits<F: FnMut(T) -> bool, T>(consumer: F, values: Seq<T>)
    requires
        forall|i: int| 0 <= i < values.len() ==> call_requires(consumer, (#[trigger] values[i],)),
    ensures
        admits_all::<T, End<F, T>>(consumer, values),
    decreases values.len(),
{
    if values.len() > 0 {
        let rest = values.skip(1);
        assert forall|i: int| 0 <= i < rest.len() implies call_requires(
            consumer,
            (#[trigger] rest[i],),
        ) by {
            assert(rest[i] == values[i + 1]);
        }
        lemma_end_admits::<F, T>(consumer, rest);
    }
}

} // verus!
