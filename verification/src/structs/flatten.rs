use crate::generator::Generator;
use crate::receiver::{
    admits_all, halts, lemma_offer_concat, lemma_taken_bounds, settled, taken, Receiver,
};
use crate::signal::{GeneratorResult, ValueResult};
use vstd::prelude::*;

verus! {

/// Everything that the generators `gens` have still to deliver, one generator
/// after the other.
pub open spec fn joined_pending<G: Generator>(gens: Seq<G>) -> Seq<G::Output>
    decreases gens.len(),
{
    if gens.len() == 0 {
        Seq::empty()
    } else {
        gens[0].pending() + joined_pending(gens.skip(1))
    }
}

/// What one run offers when it drives `gens` one after the other: the burst of
/// each, up to and including the first generator that interrupts.
pub open spec fn joined_burst<G: Generator>(gens: Seq<G>) -> Seq<G::Output>
    decreases gens.len(),
{
    if gens.len() == 0 {
        Seq::empty()
    } else if gens[0].interrupts() {
        gens[0].burst()
    } else {
        gens[0].burst() + joined_burst(gens.skip(1))
    }
}

/// Whether one of `gens` interrupts.
pub open spec fn any_interrupts<G: Generator>(gens: Seq<G>) -> bool
    decreases gens.len(),
{
    gens.len() > 0 && (gens[0].interrupts() || any_interrupts(gens.skip(1)))
}

/// The stops that are left to the generators `gens`, taken together.
pub open spec fn joined_stops<G: Generator>(gens: Seq<G>) -> nat
    decreases gens.len(),
{
    if gens.len() == 0 {
        0
    } else {
        gens[0].stops_left() + joined_stops(gens.skip(1))
    }
}

/// Whether each of `gens` is well-formed.
pub open spec fn all_inv<G: Generator>(gens: Seq<G>) -> bool {
    forall|i: int| 0 <= i < gens.len() ==> (#[trigger] gens[i]).inv()
}

/// Where some generators are all well-formed, so are those after the first.
pub proof fn lemma_all_inv_rest<G: Generator>(gens: Seq<G>)
    requires
        all_inv(gens),
        gens.len() > 0,
    ensures
        all_inv(gens.skip(1)),
{
    assert forall|i: int| 0 <= i < gens.skip(1).len() implies (#[trigger] gens.skip(1)[i]).inv() by {
        assert(gens.skip(1)[i] == gens[i + 1]);
    }
}

/// What the generator in `slot`, if any, has still to deliver.
pub open spec fn slot_pending<G: Generator>(slot: Option<G>) -> Seq<G::Output> {
    match slot {
        Some(inner) => inner.pending(),
        None => Seq::empty(),
    }
}

/// What the generator in `slot`, if any, offers in its next run.
pub open spec fn slot_burst<G: Generator>(slot: Option<G>) -> Seq<G::Output> {
    match slot {
        Some(inner) => inner.burst(),
        None => Seq::empty(),
    }
}

/// The stops that are left to the generator in `slot`, if any.
pub open spec fn slot_stops<G: Generator>(slot: Option<G>) -> nat {
    match slot {
        Some(inner) => inner.stops_left(),
        None => 0,
    }
}

/// Whether `slot` holds a generator that interrupts.
pub open spec fn slot_interrupts<G: Generator>(slot: Option<G>) -> bool {
    match slot {
        Some(inner) => inner.interrupts(),
        None => false,
    }
}

/// Whether the run that resumes the generator in `slot` into a receiver in
/// state `receiver` ends with `Stopped`: the receiver stops within what the
/// generator offers, or the generator interrupts.
pub open spec fn resumed_stops<G: Generator, R: Receiver<G::Output>>(
    slot: Option<G>,
    receiver: R::State,
) -> bool {
    slot is Some && (halts::<G::Output, R>(receiver, slot_burst(slot)) || slot_interrupts(slot))
}

/// The receiver that the outer source sees: it takes an inner generator,
/// keeps it in `slot` and drives it into `receiver`.
pub struct FlatLink<G, R> {
    /// The inner generator that was stopped, if any.
    pub slot: Option<G>,
    /// The receiver of the flat sequence; present between calls.
    pub receiver: Option<R>,
    /// The stops that were left to the generator taken last, before it was
    /// driven.
    pub cap: Ghost<nat>,
}

impl<G: Generator, R: Receiver<G::Output>> Receiver<G> for FlatLink<G, R> {
    /// What the kept generator has still to deliver, if one is kept; the
    /// state of the receiver behind; and the stops that were left to the
    /// generator taken last.
    type State = (Option<Seq<G::Output>>, R::State, nat);

    open spec fn inv(&self) -> bool {
        &&& self.receiver is Some
        &&& self.receiver->0.inv()
        &&& self.slot is Some ==> self.slot->0.inv() && self.slot->0.stops_left() < self.cap@
    }

    open spec fn state(&self) -> (Option<Seq<G::Output>>, R::State, nat) {
        (
            match self.slot {
                Some(inner) => Some(inner.pending()),
                None => None,
            },
            self.receiver->0.state(),
            self.cap@,
        )
    }

    open spec fn admits(state: (Option<Seq<G::Output>>, R::State, nat), value: G) -> bool {
        value.inv() && admits_all::<G::Output, R>(state.1, value.burst())
    }

    open spec fn signal(state: (Option<Seq<G::Output>>, R::State, nat), value: G) -> ValueResult {
        if halts::<G::Output, R>(state.1, value.burst()) || value.interrupts() {
            ValueResult::Stop
        } else {
            ValueResult::MoreValues
        }
    }

    open spec fn next(state: (Option<Seq<G::Output>>, R::State, nat), value: G) -> (
        Option<Seq<G::Output>>,
        R::State,
        nat,
    ) {
        (
            if halts::<G::Output, R>(state.1, value.burst()) || value.interrupts() {
                Some(value.pending().skip(taken::<G::Output, R>(state.1, value.burst()) as int))
            } else {
                None
            },
            settled::<G::Output, R>(state.1, value.burst()),
            value.stops_left(),
        )
    }

    /// Drives the inner generator. If its run is stopped the generator stays
    /// in the slot and the answer is `Stop`; if it completes the slot is
    /// cleared and the answer is `MoreValues`, also where it delivered
    /// nothing.
    fn accept(&mut self, value: G) -> (res: ValueResult) {
        let mut inner = value;
        let receiver = self.receiver.take().unwrap();
        let (res, receiver) = inner.run(receiver);
        self.receiver = Some(receiver);
        self.cap = Ghost(value.stops_left());
        match res {
            GeneratorResult::Stopped => {
                self.slot = Some(inner);
                ValueResult::Stop
            },
            GeneratorResult::Complete => {
                self.slot = None;
                ValueResult::MoreValues
            },
        }
    }
}

/// Offering the generators `gens` to a link with an empty slot is offering
/// the receiver behind it their joined burst: the receiver ends in the same
/// state, the offer ends early exactly when the receiver stops or a generator
/// interrupts, and what the kept generator and the untouched generators of a
/// longer input `all` have still to deliver is what `all` had to deliver
/// without the values that the receiver took. A generator is kept exactly
/// when the offer ended early, and the stops left to the untouched generators
/// and the one taken last are no more than were left to all.
pub proof fn lemma_offer_flat<G: Generator, R: Receiver<G::Output>>(
    receiver: R::State,
    cap: nat,
    gens: Seq<G>,
    all: Seq<G>,
)
    requires
        gens.is_prefix_of(all),
        all_inv(all),
    ensures
        ({
            let link = (None::<Seq<G::Output>>, receiver, cap);
            let out = joined_burst(gens);
            let end = settled::<G, FlatLink<G, R>>(link, gens);
            let used = taken::<G, FlatLink<G, R>>(link, gens) as int;
            let kept = match end.0 {
                Some(rest) => rest,
                None => Seq::empty(),
            };
            &&& end.1 == settled::<G::Output, R>(receiver, out)
            &&& halts::<G, FlatLink<G, R>>(link, gens) == (halts::<G::Output, R>(receiver, out)
                || any_interrupts(gens))
            &&& admits_all::<G::Output, R>(receiver, out) ==> admits_all::<G, FlatLink<G, R>>(
                link,
                gens,
            )
            &&& kept + joined_pending(all.skip(used)) == joined_pending(all).skip(
                taken::<G::Output, R>(receiver, out) as int,
            )
            &&& halts::<G, FlatLink<G, R>>(link, gens) == (end.0 is Some)
            &&& halts::<G, FlatLink<G, R>>(link, gens) ==> end.2 + joined_stops(all.skip(used))
                <= joined_stops(all)
            &&& joined_stops(all.skip(used)) <= joined_stops(all)
        }),
    decreases gens.len(),
{
    let link = (None::<Seq<G::Output>>, receiver, cap);
    let whole = joined_pending(all);
    if gens.len() == 0 {
        assert(all.skip(0) =~= all);
        assert(Seq::<G::Output>::empty() + whole =~= whole.skip(0));
    } else {
        let inner = gens[0];
        assert(all[0] == inner);
        assert(gens.skip(1).is_prefix_of(all.skip(1)));
        lemma_all_inv_rest(all);
        inner.lemma_burst();
        let head = inner.burst();
        let tail = joined_burst(gens.skip(1));
        let out = joined_burst(gens);
        let after = joined_pending(all.skip(1));
        let got = taken::<G::Output, R>(receiver, head) as int;
        let receiver1 = settled::<G::Output, R>(receiver, head);
        lemma_taken_bounds::<G::Output, R>(receiver, head);
        assert(whole == inner.pending() + after);
        assert(FlatLink::<G, R>::next(link, inner).1 == receiver1);
        if halts::<G::Output, R>(receiver, head) || inner.interrupts() {
            assert(FlatLink::<G, R>::signal(link, inner) == ValueResult::Stop);
            if inner.interrupts() {
                assert(out == head);
            } else {
                lemma_offer_concat::<G::Output, R>(receiver, head, tail);
            }
            assert(inner.pending().skip(got) + after =~= whole.skip(got));
        } else {
            assert(FlatLink::<G, R>::signal(link, inner) == ValueResult::MoreValues);
            assert(FlatLink::<G, R>::next(link, inner) == (
                None::<Seq<G::Output>>,
                receiver1,
                inner.stops_left(),
            ));
            lemma_offer_concat::<G::Output, R>(receiver, head, tail);
            lemma_offer_flat::<G, R>(receiver1, inner.stops_left(), gens.skip(1), all.skip(1));
            let link1 = (None::<Seq<G::Output>>, receiver1, inner.stops_left());
            let used1 = taken::<G, FlatLink<G, R>>(link1, gens.skip(1)) as int;
            let got1 = taken::<G::Output, R>(receiver1, tail) as int;
            lemma_taken_bounds::<G, FlatLink<G, R>>(link1, gens.skip(1));
            lemma_taken_bounds::<G::Output, R>(receiver1, tail);
            lemma_joined_prefix(gens.skip(1), all.skip(1));
            assert(all.skip(1).skip(used1) =~= all.skip(1 + used1));
            assert(whole.skip(head.len() + got1) =~= after.skip(got1));
        }
    }
}

/// The joined burst of some generators opens what they and any generators
/// after them have still to deliver, and is all of it where none of them
/// interrupts and none comes after.
pub proof fn lemma_joined_prefix<G: Generator>(gens: Seq<G>, all: Seq<G>)
    requires
        gens.is_prefix_of(all),
        all_inv(all),
    ensures
        joined_burst(gens).is_prefix_of(joined_pending(all)),
        !any_interrupts(gens) && gens.len() == all.len() ==> joined_burst(gens) == joined_pending(
            all,
        ),
    decreases gens.len(),
{
    if gens.len() > 0 {
        let inner = gens[0];
        assert(all[0] == inner);
        assert(gens.skip(1).is_prefix_of(all.skip(1)));
        lemma_all_inv_rest(all);
        inner.lemma_burst();
        lemma_joined_prefix(gens.skip(1), all.skip(1));
    }
}

/// A generator of generators as one flat generator: it delivers the values of
/// each inner generator in turn.
///
/// An inner generator whose run was stopped stays in a slot, and the next run
/// resumes it before the outer source is asked for another.
pub struct Flatten<Src> where Src: Generator, Src::Output: Generator {
    source: Src,
    current_generator: Option<Src::Output>,
}

impl<Src> Flatten<Src> where Src: Generator, Src::Output: Generator {
    /// The outer source.
    pub closed spec fn source(&self) -> Src {
        self.source
    }

    /// The inner generator that was stopped, if any.
    pub closed spec fn current(&self) -> Option<Src::Output> {
        self.current_generator
    }

    /// The flattening of `source` with no inner generator active.
    pub closed spec fn over(source: Src) -> Self {
        Flatten { source, current_generator: None }
    }

    /// The flattening of a source holds that source and an empty slot.
    pub proof fn lemma_over(source: Src)
        ensures
            Self::over(source).source() == source,
            Self::over(source).current() is None,
    {
    }

    /// Flattens `source`; no inner generator is active yet.
    pub fn new(source: Src) -> (res: Self)
        requires
            source.inv(),
            all_inv(source.pending()),
        ensures
            res == Self::over(source),
            res.inv(),
            res.source() == source,
            res.current() is None,
            res.pending() == joined_pending(source.pending()),
            (forall|i: int| 0 <= i < source.burst().len() ==> !(#[trigger] source.burst()[i])
                .interrupts()) ==> res.burst() == joined_pending(source.burst())
                && res.interrupts() == source.interrupts(),
    {
        proof {
            source.lemma_burst();
            assert(Seq::<<Src::Output as Generator>::Output>::empty() + joined_pending(
                source.pending(),
            ) =~= joined_pending(source.pending()));
            assert(Seq::<<Src::Output as Generator>::Output>::empty() + joined_burst(
                source.burst(),
            ) =~= joined_burst(source.burst()));
            if forall|i: int| 0 <= i < source.burst().len() ==> !(#[trigger] source.burst()[i])
                .interrupts() {
                assert(all_inv(source.burst())) by {
                    assert forall|i: int| 0 <= i < source.burst().len() implies (
                    #[trigger] source.burst()[i]).inv() by {
                        assert(source.burst()[i] == source.pending()[i]);
                    }
                }
                lemma_joined_uninterrupted(source.burst());
            }
        }
        Flatten { source, current_generator: None }
    }
}

impl<Src> Generator for Flatten<Src> where Src: Generator, Src::Output: Generator {
    type Output = <Src::Output as Generator>::Output;

    open spec fn inv(&self) -> bool {
        &&& self.source().inv()
        &&& all_inv(self.source().pending())
        &&& self.current() is Some ==> self.current()->0.inv()
    }

    open spec fn pending(&self) -> Seq<<Src::Output as Generator>::Output> {
        slot_pending(self.current()) + joined_pending(self.source().pending())
    }

    open spec fn burst(&self) -> Seq<<Src::Output as Generator>::Output> {
        if slot_interrupts(self.current()) {
            slot_burst(self.current())
        } else {
            slot_burst(self.current()) + joined_burst(self.source().burst())
        }
    }

    open spec fn interrupts(&self) -> bool {
        slot_interrupts(self.current()) || any_interrupts(self.source().burst())
            || self.source().interrupts()
    }

    open spec fn stops_left(&self) -> nat {
        slot_stops(self.current()) + joined_stops(self.source().pending())
            + self.source().stops_left()
    }

    proof fn lemma_burst(&self) {
        self.source().lemma_burst();
        lemma_joined_prefix(self.source().burst(), self.source().pending());
        if self.current() is Some {
            self.current()->0.lemma_burst();
        }
    }

    /// Resumes the inner generator left by an earlier run, if there is one,
    /// and returns `Stopped` without touching the outer source if that run is
    /// stopped again. Otherwise the outer source is driven: each inner
    /// generator it yields is kept and driven in turn, and the first one whose
    /// run is stopped stops the outer source too.
    ///
    /// A run that ends while the resumed generator is still at work leaves
    /// the outer source as it was and the slot filled. In every other run the
    /// outer source is driven once, from the state in which the resumed
    /// generator left the receiver: the slot is filled afterwards exactly
    /// when an inner generator was stopped, and is empty once the inner
    /// generator driven last has completed.
    fn run<R: Receiver<<Src::Output as Generator>::Output>>(&mut self, receiver: R) -> (res: (
        GeneratorResult,
        R,
    ))
        ensures
            res.0 == GeneratorResult::Complete ==> final(self).current() is None,
            resumed_stops::<Src::Output, R>(old(self).current(), receiver.state()) ==> final(self).current() is Some && final(self).source() == old(self).source(),
            !resumed_stops::<Src::Output, R>(old(self).current(), receiver.state()) ==> ({
                let link = (
                    None::<Seq<<Src::Output as Generator>::Output>>,
                    settled::<<Src::Output as Generator>::Output, R>(
                        receiver.state(),
                        slot_burst(old(self).current()),
                    ),
                    0nat,
                );
                let offered = old(self).source().burst();
                &&& (final(self).current() is Some) == halts::<
                    Src::Output,
                    FlatLink<Src::Output, R>,
                >(link, offered)
                &&& final(self).source().pending() == old(self).source().pending().skip(
                    taken::<Src::Output, FlatLink<Src::Output, R>>(link, offered) as int,
                )
                &&& (res.0 == GeneratorResult::Stopped) == (halts::<
                    Src::Output,
                    FlatLink<Src::Output, R>,
                >(link, offered) || old(self).source().interrupts())
                &&& res.0 == GeneratorResult::Complete ==> !final(self).source().interrupts()
                &&& res.0 == GeneratorResult::Stopped ==> final(self).source().stops_left() < old(self).source().stops_left()
            }),
    {
        let ghost first = receiver.state();
        let ghost head = slot_burst(self.current_generator);
        let ghost tail = joined_burst(self.source.burst());
        proof {
            self.lemma_burst();
            self.source.lemma_burst();
            lemma_offer_concat::<<Src::Output as Generator>::Output, R>(first, head, tail);
            lemma_taken_bounds::<<Src::Output as Generator>::Output, R>(first, head);
        }
        let receiver = match self.current_generator.take() {
            Some(inner) => {
                let mut inner = inner;
                proof {
                    inner.lemma_burst();
                }
                let (res, receiver) = inner.run(receiver);
                match res {
                    GeneratorResult::Stopped => {
                        self.current_generator = Some(inner);
                        proof {
                            let got = taken::<<Src::Output as Generator>::Output, R>(
                                first,
                                head,
                            ) as int;
                            assert(self.pending() =~= old(self).pending().skip(got));
                        }
                        return (GeneratorResult::Stopped, receiver);
                    },
                    GeneratorResult::Complete => {},
                }
                receiver
            },
            None => {
                proof {
                    assert(head + tail =~= tail);
                }
                receiver
            },
        };
        let ghost middle = receiver.state();
        proof {
            lemma_offer_flat::<Src::Output, R>(
                middle,
                0,
                self.source.burst(),
                self.source.pending(),
            );
            lemma_taken_bounds::<Src::Output, FlatLink<Src::Output, R>>(
                (None, middle, 0),
                self.source.burst(),
            );
            lemma_taken_bounds::<<Src::Output as Generator>::Output, R>(middle, tail);
            lemma_joined_prefix(self.source.burst(), self.source.pending());
        }
        let link = FlatLink { slot: None, receiver: Some(receiver), cap: Ghost(0) };
        let (res, link) = self.source.run(link);
        let FlatLink { slot, receiver, cap } = link;
        self.current_generator = slot;
        proof {
            let got = taken::<<Src::Output as Generator>::Output, R>(middle, tail) as int;
            let whole = joined_pending(old(self).source.pending());
            assert(old(self).pending().skip(head.len() + got) =~= whole.skip(got));
            assert(all_inv(self.source.pending()));
            if res == GeneratorResult::Complete {
                self.source.lemma_burst();
            }
        }
        (res, receiver.unwrap())
    }
}

/// Where none of some well-formed generators interrupts, one run offers all
/// that they have to deliver.
pub proof fn lemma_joined_uninterrupted<G: Generator>(gens: Seq<G>)
    requires
        all_inv(gens),
        forall|i: int| 0 <= i < gens.len() ==> !(#[trigger] gens[i]).interrupts(),
    ensures
        !any_interrupts(gens),
        joined_burst(gens) == joined_pending(gens),
    decreases gens.len(),
{
    if gens.len() > 0 {
        gens[0].lemma_burst();
        lemma_all_inv_rest(gens);
        assert forall|i: int| 0 <= i < gens.skip(1).len() implies !(#[trigger] gens.skip(
            1,
        )[i]).interrupts() by {
            assert(gens.skip(1)[i] == gens[i + 1]);
        }
        lemma_joined_uninterrupted(gens.skip(1));
    }
}

/// What some generators have still to deliver, joined, is the flattening of
/// what each has to deliver.
pub proof fn lemma_joined_is_flattened<G: Generator>(gens: Seq<G>)
    ensures
        joined_pending(gens) == gens.map_values(|inner: G| inner.pending()).flatten(),
    decreases gens.len(),
{
    let each = gens.map_values(|inner: G| inner.pending());
    if gens.len() > 0 {
        lemma_joined_is_flattened(gens.skip(1));
        assert(each.drop_first() =~= gens.skip(1).map_values(|inner: G| inner.pending()));
    }
}

} // verus!
