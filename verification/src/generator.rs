use crate::receiver::{admits_all, halts, settled, taken, Receiver};
use crate::signal::GeneratorResult;
use vstd::prelude::*;

verus! {

/// A push-style producer: `run` drives values into a receiver until the
/// receiver stops it or the generator has to end the run itself.
///
/// Three spec functions describe a generator. `pending` is every value it has
/// still to deliver over the rest of its life, in order. `burst` is what the
/// next run offers: a prefix of `pending`. `interrupts` says that the next run
/// reports `Stopped` even when the receiver takes the whole burst; where it is
/// false the burst is all that is pending and the run completes.
pub trait Generator {
    /// The type of the delivered values.
    type Output;

    /// Well-formedness of the generator.
    spec fn inv(&self) -> bool;

    /// Every value still to be delivered, in order.
    spec fn pending(&self) -> Seq<Self::Output>;

    /// The values that the next run offers, in order.
    spec fn burst(&self) -> Seq<Self::Output>;

    /// Whether the next run ends with `Stopped` of its own accord.
    spec fn interrupts(&self) -> bool;

    /// A bound on how often the generator can still be stopped: it goes down
    /// with every run that ends with `Stopped`, so that driving a generator
    /// again and again comes to a run that completes.
    spec fn stops_left(&self) -> nat;

    /// The burst opens the pending values, and is all of them unless the
    /// generator interrupts the run.
    proof fn lemma_burst(&self)
        requires
            self.inv(),
        ensures
            self.burst().is_prefix_of(self.pending()),
            !self.interrupts() ==> self.burst() == self.pending(),
    ;

    /// Offers the burst to `receiver`, value by value and in order, and ends
    /// with the first value that the receiver answers by `Stop`. The receiver
    /// comes back with the result.
    ///
    /// The values taken leave `pending`, so a later run resumes with the value
    /// after the last one delivered. The result is `Stopped` exactly when the
    /// receiver stopped or the generator interrupts; after `Complete` nothing
    /// is pending and later runs complete at once. Every run that ends with
    /// `Stopped` uses up one of the stops that are left.
    fn run<R: Receiver<Self::Output>>(&mut self, receiver: R) -> (res: (GeneratorResult, R))
        requires
            old(self).inv(),
            receiver.inv(),
            admits_all::<Self::Output, R>(receiver.state(), old(self).burst()),
        ensures
            final(self).inv(),
            res.1.inv(),
            res.1.state() == settled::<Self::Output, R>(receiver.state(), old(self).burst()),
            final(self).pending() == old(self).pending().skip(
                taken::<Self::Output, R>(receiver.state(), old(self).burst()) as int,
            ),
            (res.0 == GeneratorResult::Stopped) == (halts::<Self::Output, R>(
                receiver.state(),
                old(self).burst(),
            ) || old(self).interrupts()),
            res.0 == GeneratorResult::Complete ==> !final(self).interrupts(),
            res.0 == GeneratorResult::Stopped ==> final(self).stops_left() < old(self).stops_left(),
    ;
}

} // verus!
