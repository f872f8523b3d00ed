use crate::callable::{Mapper, Predicate};
use crate::generator::Generator;
use crate::receiver::{admits_all, lemma_vec_takes_all, Receiver};
use crate::signal::GeneratorResult;
use crate::stage::Then;
use crate::structs::dedup::{collapsed, lemma_dedup_relays, Dedup};
use crate::structs::filter::{lemma_filter_relays, Filter};
use crate::structs::flatten::{all_inv, joined_pending, Flatten};
use crate::structs::iterator::IteratorAdaptor;
use crate::structs::sink::{
    collected, lemma_collect_takes_all, lemma_end_admits, settles, Collect, End,
};
use crate::structs::skip::{lemma_skip_relays, Skip};
use crate::structs::take::{lemma_take_relays, Take};
use crate::structs::transform::{lemma_transform_relays, Transform};
use vstd::prelude::*;
use vstd::std_specs::cmp::PartialEqSpec;

verus! {

/// The first `amount` of `values`, or all of them where they are fewer.
pub open spec fn first_of<T>(values: Seq<T>, amount: nat) -> Seq<T> {
    values.take(
        if amount <= values.len() {
            amount as int
        } else {
            values.len() as int
        },
    )
}

/// `values` without the first `amount` of them; nothing where they are fewer.
pub open spec fn rest_of<T>(values: Seq<T>, amount: nat) -> Seq<T> {
    values.skip(
        if amount <= values.len() {
            amount as int
        } else {
            values.len() as int
        },
    )
}

/// The stages that can be chained behind a generator.
pub trait StageExt: Generator + Sized {
    /// Hands on the first `amount` values over the life of the chain. The run
    /// that delivers the last of them ends with `Stopped`; every later run
    /// completes at once. A count of zero completes at once from the start.
    fn take(self, amount: usize) -> (res: Then<Self, Take<Self::Output>>)
        requires
            self.inv(),
        ensures
            res == Then::chained(self, Take::<Self::Output>::of(amount)),
            res.inv(),
            res.upstream() == self,
            res.stage().remaining() == amount,
            res.pending() == first_of(self.pending(), amount as nat),
            res.burst() == first_of(self.burst(), amount as nat),
            res.interrupts() == (amount > 0 && (amount <= self.burst().len()
                || self.interrupts())),
    {
        proof {
            lemma_take_relays::<Self::Output>(amount as nat, self.pending());
            lemma_take_relays::<Self::Output>(amount as nat, self.burst());
        }
        Then::new(self, Take::new(amount))
    }

    /// Drops the first `amount` values over the life of the chain and hands
    /// on every value after them.
    fn skip(self, amount: usize) -> (res: Then<Self, Skip<Self::Output>>)
        requires
            self.inv(),
        ensures
            res == Then::chained(self, Skip::<Self::Output>::of(amount)),
            res.inv(),
            res.upstream() == self,
            res.stage().remaining() == amount,
            res.pending() == rest_of(self.pending(), amount as nat),
            res.burst() == rest_of(self.burst(), amount as nat),
            res.interrupts() == self.interrupts(),
    {
        proof {
            lemma_skip_relays::<Self::Output>(amount as nat, self.pending());
            lemma_skip_relays::<Self::Output>(amount as nat, self.burst());
        }
        Then::new(self, Skip::new(amount))
    }

    /// Hands on the values of which `predicate` holds.
    fn filter<P>(self, predicate: P) -> (res: Then<Self, Filter<P, Self::Output>>) where
        P: Predicate<Self::Output>,

        requires
            self.inv(),
            predicate.sound(),
        ensures
            res == Then::chained(self, Filter::keeping(predicate)),
            res.inv(),
            res.upstream() == self,
            res.stage().predicate() == predicate,
            res.pending() == self.pending().filter(|value: Self::Output| predicate.holds(value)),
            res.burst() == self.burst().filter(|value: Self::Output| predicate.holds(value)),
            res.interrupts() == self.interrupts(),
    {
        proof {
            lemma_filter_relays::<P, Self::Output>(predicate, self.pending());
            lemma_filter_relays::<P, Self::Output>(predicate, self.burst());
        }
        Then::new(self, Filter::new(predicate))
    }

    /// Hands on the image of each value under `transform`.
    fn transform<T, R>(self, transform: T) -> (res: Then<
        Self,
        Transform<Self::Output, R, T>,
    >) where T: Mapper<Self::Output, R>
        requires
            self.inv(),
            transform.sound(),
        ensures
            res == Then::chained(self, Transform::applying(transform)),
            res.inv(),
            res.upstream() == self,
            res.stage().transform() == transform,
            res.pending() == self.pending().map_values(
                |value: Self::Output| transform.image(value),
            ),
            res.burst() == self.burst().map_values(|value: Self::Output| transform.image(value)),
            res.interrupts() == self.interrupts(),
    {
        proof {
            lemma_transform_relays::<Self::Output, R, T>(transform, self.pending());
            lemma_transform_relays::<Self::Output, R, T>(transform, self.burst());
        }
        Then::new(self, Transform::new(transform))
    }

    /// Collapses each run of equal values to its first value. Where the
    /// values are sorted, what is handed on holds no value twice.
    fn dedup(self) -> (res: Then<Self, Dedup<Self::Output>>) where
        Self::Output: PartialEq + Copy,

        requires
            self.inv(),
            <Self::Output as PartialEqSpec>::obeys_eq_spec(),
        ensures
            res == Then::chained(self, Dedup::<Self::Output>::fresh()),
            res.inv(),
            res.upstream() == self,
            res.stage().previous() is None,
            res.pending() == collapsed(None, self.pending()),
            res.burst() == collapsed(None, self.burst()),
            res.interrupts() == self.interrupts(),
    {
        proof {
            lemma_dedup_relays::<Self::Output>(None, self.pending());
            lemma_dedup_relays::<Self::Output>(None, self.burst());
        }
        Then::new(self, Dedup::new())
    }

    /// Ends the chain with a function that takes every value; it is always
    /// asked for more.
    fn collect<Func>(self, collector: Func) -> (res: Then<Self, Collect<Func, Self::Output>>) where
        Func: FnMut(Self::Output),

        ensures
            res == Then::chained(self, Collect::into(collector)),
            res.whole(),
            res.upstream() == self,
            res.stage().collector() == collector,
            res.stage().handed() == Seq::<Self::Output>::empty(),
            res.stage().inv(),
            res.stage().state() == (collector, Seq::<Self::Output>::empty()),
            (forall|i: int|
                0 <= i < self.burst().len() ==> call_requires(
                    collector,
                    (#[trigger] self.burst()[i],),
                )) ==> admits_all::<Self::Output, Collect<Func, Self::Output>>(
                (collector, Seq::<Self::Output>::empty()),
                self.burst(),
            ),
    {
        proof {
            lemma_collect_takes_all::<Func, Self::Output>(
                collector,
                Seq::empty(),
                self.burst(),
            );
        }
        Then::new(self, Collect::new(collector))
    }

    /// Ends the chain with a function that takes every value and answers
    /// whether the run goes on.
    fn end<T>(self, consumer: T) -> (res: Then<Self, End<T, Self::Output>>) where
        T: FnMut(Self::Output) -> bool,

        ensures
            res == Then::chained(self, End::with(consumer)),
            res.whole(),
            res.upstream() == self,
            res.stage().consumer() == consumer,
            res.stage().state() == consumer,
            settles::<T, Self::Output>(consumer) ==> res.stage().inv(),
            (forall|i: int|
                0 <= i < self.burst().len() ==> call_requires(
                    consumer,
                    (#[trigger] self.burst()[i],),
                )) ==> admits_all::<Self::Output, End<T, Self::Output>>(consumer, self.burst()),
    {
        proof {
            if forall|i: int|
                0 <= i < self.burst().len() ==> call_requires(
                    consumer,
                    (#[trigger] self.burst()[i],),
                ) {
                lemma_end_admits::<T, Self::Output>(consumer, self.burst());
            }
        }
        Then::new(self, End::new(consumer))
    }

    /// Delivers the values of each generator that this generator yields, in
    /// turn, as one flat sequence.
    fn flatten(self) -> (res: Flatten<Self>) where Self::Output: Generator
        requires
            self.inv(),
            all_inv(self.pending()),
        ensures
            res == Flatten::over(self),
            res.inv(),
            res.source() == self,
            res.current() is None,
            res.pending() == joined_pending(self.pending()),
            (forall|i: int| 0 <= i < self.burst().len() ==> !(#[trigger] self.burst()[i])
                .interrupts()) ==> res.burst() == joined_pending(self.burst())
                && res.interrupts() == self.interrupts(),
    {
        Flatten::new(self)
    }

    /// Delivers, for each value in turn, the values of the generator that
    /// `producer` makes of it, as one flat sequence.
    fn flatten_with<F, Inner>(self, producer: F) -> (res: Flatten<
        Then<Self, Transform<Self::Output, Inner, F>>,
    >) where F: Mapper<Self::Output, Inner>, Inner: Generator
        requires
            self.inv(),
            producer.sound(),
            forall|i: int|
                0 <= i < self.pending().len() ==> producer.image(
                    #[trigger] self.pending()[i],
                ).inv(),
        ensures
            res == Flatten::over(Then::chained(self, Transform::applying(producer))),
            res.inv(),
            res.source().upstream() == self,
            res.source().stage().transform() == producer,
            res.current() is None,
            res.pending() == joined_pending(
                self.pending().map_values(|value: Self::Output| producer.image(value)),
            ),
    {
        proof {
            lemma_transform_relays::<Self::Output, Inner, F>(producer, self.pending());
        }
        Flatten::new(Then::new(self, Transform::new(producer)))
    }

    /// Adapts the generator to be pulled one value at a time.
    fn iter(self) -> (res: IteratorAdaptor<Self>)
        ensures
            res == IteratorAdaptor::over(self),
            res.source() == self,
    {
        IteratorAdaptor::new(self)
    }

    /// Runs the generator once into a vector: every value that the run offers
    /// is appended to `out`, which comes back with the result.
    fn drain_into(&mut self, out: Vec<Self::Output>) -> (res: (
        GeneratorResult,
        Vec<Self::Output>,
    ))
        requires
            old(self).inv(),
        ensures
            final(self).inv(),
            res.1@ == out@ + old(self).burst(),
            final(self).pending() == old(self).pending().skip(old(self).burst().len() as int),
            (res.0 == GeneratorResult::Stopped) == old(self).interrupts(),
            res.0 == GeneratorResult::Complete ==> !final(self).interrupts(),
            res.0 == GeneratorResult::Stopped ==> final(self).stops_left() < old(self).stops_left(),
    {
        proof {
            lemma_vec_takes_all::<Self::Output>(out@, self.burst());
        }
        self.run(out)
    }

    /// Runs the generator once into `func`, which is called on every value
    /// that the run offers and is always asked for more.
    fn for_each<Func>(&mut self, func: Func) -> (res: GeneratorResult) where
        Func: FnMut(Self::Output),

        requires
            old(self).inv(),
            forall|i: int|
                0 <= i < old(self).burst().len() ==> call_requires(
                    func,
                    (#[trigger] old(self).burst()[i],),
                ),
        ensures
            final(self).inv(),
            final(self).pending() == old(self).pending().skip(old(self).burst().len() as int),
            (res == GeneratorResult::Stopped) == old(self).interrupts(),
            res == GeneratorResult::Complete ==> !final(self).interrupts(),
            res == GeneratorResult::Stopped ==> final(self).stops_left() < old(self).stops_left(),
            collected::<Func, Self::Output>(func, old(self).burst()),
    {
        proof {
            lemma_collect_takes_all::<Func, Self::Output>(func, Seq::empty(), self.burst());
            assert(Seq::<Self::Output>::empty() + self.burst() =~= self.burst());
        }
        let (res, sink) = self.run(Collect::new(func));
        res
    }
}

impl<G: Generator> StageExt for G {

}

} // verus!
