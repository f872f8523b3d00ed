use crate::callable::{Mapper, Predicate};
use crate::generator::Generator;
use crate::receiver::{halts, settled, taken, Receiver};
use crate::signal::ValueResult;
use crate::stage::{relayed, Link, Stage, Then};
use crate::stage_ext::{first_of, rest_of};
use crate::structs::dedup::{collapsed, lemma_collapsed_idempotent, lemma_dedup_relays, Dedup};
use crate::structs::filter::{lemma_filter_relays, Filter};
use crate::structs::flatten::{joined_pending, lemma_joined_is_flattened, Flatten};
use crate::structs::skip::{lemma_skip_relays, Skip};
use crate::structs::take::{lemma_take_relays, Take};
use crate::structs::transform::{lemma_transform_relays, Transform};
use vstd::prelude::*;

verus! {

/// A filter behind any generator delivers the upstream values of which the
/// predicate holds, in their order, as filtering the sequence of upstream
/// values does, and ends its runs as the upstream does.
pub proof fn lemma_filter_matches_sequence<G: Generator, P: Predicate<G::Output>>(
    chain: Then<G, Filter<P, G::Output>>,
)
    ensures
        chain.pending() == chain.upstream().pending().filter(
            |value: G::Output| chain.stage().predicate().holds(value),
        ),
        chain.burst() == chain.upstream().burst().filter(
            |value: G::Output| chain.stage().predicate().holds(value),
        ),
        chain.interrupts() == chain.upstream().interrupts(),
{
    let predicate = chain.stage().predicate();
    lemma_filter_relays::<P, G::Output>(predicate, chain.upstream().pending());
    lemma_filter_relays::<P, G::Output>(predicate, chain.upstream().burst());
}

/// A transform behind any generator delivers the image of each upstream
/// value, in their order, as mapping the sequence of upstream values does,
/// and ends its runs as the upstream does.
pub proof fn lemma_transform_matches_sequence<G: Generator, Out, F: Mapper<G::Output, Out>>(
    chain: Then<G, Transform<G::Output, Out, F>>,
)
    ensures
        chain.pending() == chain.upstream().pending().map_values(
            |value: G::Output| chain.stage().transform().image(value),
        ),
        chain.burst() == chain.upstream().burst().map_values(
            |value: G::Output| chain.stage().transform().image(value),
        ),
        chain.interrupts() == chain.upstream().interrupts(),
{
    let transform = chain.stage().transform();
    lemma_transform_relays::<G::Output, Out, F>(transform, chain.upstream().pending());
    lemma_transform_relays::<G::Output, Out, F>(transform, chain.upstream().burst());
}

/// A filter followed by a transform delivers what filtering and then mapping
/// the sequence of source values gives.
pub proof fn lemma_filter_then_transform<
    G: Generator,
    P: Predicate<G::Output>,
    Out,
    F: Mapper<G::Output, Out>,
>(chain: Then<Then<G, Filter<P, G::Output>>, Transform<G::Output, Out, F>>)
    ensures
        chain.pending() == chain.upstream().upstream().pending().filter(
            |value: G::Output| chain.upstream().stage().predicate().holds(value),
        ).map_values(|value: G::Output| chain.stage().transform().image(value)),
{
    lemma_filter_matches_sequence::<G, P>(chain.upstream());
    lemma_transform_matches_sequence::<Then<G, Filter<P, G::Output>>, Out, F>(chain);
}

/// Deduplicating twice is deduplicating once: a fresh deduplicating stage
/// behind another delivers what the first one delivers.
pub proof fn lemma_dedup_idempotent<G: Generator>(
    chain: Then<Then<G, Dedup<G::Output>>, Dedup<G::Output>>,
) where G::Output: PartialEq + Copy
    requires
        chain.stage().previous() is None,
        chain.upstream().stage().previous() is None,
    ensures
        chain.pending() == chain.upstream().pending(),
        chain.pending() == collapsed(None, chain.upstream().upstream().pending()),
{
    let source = chain.upstream().upstream().pending();
    lemma_dedup_relays::<G::Output>(None, source);
    lemma_dedup_relays::<G::Output>(None, collapsed(None, source));
    lemma_collapsed_idempotent::<G::Output>(None, source);
}

/// A run leaves pending what was pending without the values that the
/// receiver took. So where a consumer stopped after the `k`-th value, the
/// next run opens with the value after it: what it offers opens the old
/// pending values from position `k` on, and it offers at least one value
/// unless the generator interrupts.
pub proof fn lemma_resumes_where_stopped<G: Generator, R: Receiver<G::Output>>(
    before: G,
    after: G,
    receiver: R::State,
)
    requires
        after.inv(),
        halts::<G::Output, R>(receiver, before.burst()),
        taken::<G::Output, R>(receiver, before.burst()) < before.pending().len(),
        after.pending() == before.pending().skip(
            taken::<G::Output, R>(receiver, before.burst()) as int,
        ),
    ensures
        ({
            let k = taken::<G::Output, R>(receiver, before.burst()) as int;
            &&& after.burst().is_prefix_of(before.pending().skip(k))
            &&& after.burst().len() > 0 ==> after.burst()[0] == before.pending()[k]
            &&& !after.interrupts() ==> after.burst().len() > 0
        }),
{
    after.lemma_burst();
}

/// What a flattening generator has pending is the flattening of what its
/// inner generators have pending, the one that was stopped first.
pub proof fn lemma_flatten_pending<Src>(flat: Flatten<Src>) where
    Src: Generator,
    Src::Output: Generator,

    ensures
        flat.current() is None ==> flat.pending() == flat.source().pending().map_values(
            |inner: Src::Output| inner.pending(),
        ).flatten(),
        flat.current() is Some ==> flat.pending() == flat.current()->0.pending()
            + flat.source().pending().map_values(|inner: Src::Output| inner.pending()).flatten(),
{
    lemma_joined_is_flattened(flat.source().pending());
    if flat.current() is None {
        assert(Seq::<<Src::Output as Generator>::Output>::empty() + joined_pending(
            flat.source().pending(),
        ) =~= joined_pending(flat.source().pending()));
    }
}

/// A taking stage with count `n` behind a generator that does not interrupt
/// and has `m` values delivers the first `min(n, m)` of them. The run that
/// delivers them ends with `Stopped` exactly when `0 < n <= m`.
pub proof fn lemma_take_exact<G: Generator>(chain: Then<G, Take<G::Output>>)
    requires
        chain.upstream().inv(),
        !chain.upstream().interrupts(),
    ensures
        chain.burst() == first_of(chain.upstream().pending(), chain.stage().remaining()),
        chain.pending() == chain.burst(),
        chain.interrupts() == (0 < chain.stage().remaining() <= chain.upstream().pending().len()),
{
    chain.upstream().lemma_burst();
    lemma_take_relays::<G::Output>(chain.stage().remaining(), chain.upstream().pending());
}

/// A taking stage with count `n` behind a generator that does not interrupt
/// and has `m` values ends the run that delivers them with `Stopped` exactly
/// when `n < m`. Two cases are left out: a count of zero before a source that
/// holds values, which completes at once, and a count that is exactly the
/// number of values, where the stage stops the source with its last value.
pub proof fn lemma_take_signal<G: Generator>(chain: Then<G, Take<G::Output>>)
    requires
        chain.upstream().inv(),
        !chain.upstream().interrupts(),
        chain.stage().remaining() == 0 ==> chain.upstream().pending().len() == 0,
        chain.stage().remaining() == chain.upstream().pending().len()
            ==> chain.stage().remaining() == 0,
    ensures
        chain.interrupts() == (chain.stage().remaining() < chain.upstream().pending().len()),
{
    lemma_take_exact::<G>(chain);
}

/// A taking stage counts what it hands on: while the count lasts, the count
/// after some values have been offered through it is the count before less
/// the values that the receiver took.
pub proof fn lemma_take_counts<T, R: Receiver<T>>(amount: nat, receiver: R::State, values: Seq<T>)
    requires
        amount > 0,
    ensures
        settled::<T, Link<Take<T>, R>>((amount, receiver), values).0 == amount - taken::<T, R>(
            receiver,
            relayed::<T, Take<T>>(amount, values),
        ),
    decreases values.len(),
{
    if values.len() > 0 {
        let value = values[0];
        let rest = values.skip(1);
        let left = (amount - 1) as nat;
        let out = relayed::<T, Take<T>>(amount, values);
        let tail = relayed::<T, Take<T>>(left, rest);
        let receiver1 = R::next(receiver, value);
        assert(out == seq![value] + tail);
        assert(out[0] == value);
        assert(out.skip(1) =~= tail);
        assert(Link::<Take<T>, R>::next((amount, receiver), value) == (left, receiver1));
        if R::signal(receiver, value) != ValueResult::Stop {
            if left == 0 {
                assert(tail =~= Seq::<T>::empty());
                assert(taken::<T, R>(receiver1, tail) == 0);
            } else {
                lemma_take_counts::<T, R>(left, receiver1, rest);
            }
        }
    }
}

/// The count of a taking chain is not renewed: a run takes from it what the
/// receiver took, and once it is used up the chain offers nothing and
/// completes at once, in every later run.
pub proof fn lemma_take_spends<G: Generator, R: Receiver<G::Output>>(
    before: Then<G, Take<G::Output>>,
    after: Then<G, Take<G::Output>>,
    receiver: R::State,
)
    requires
        before.stage().remaining() > 0,
        after.stage().state() == settled::<G::Output, Link<Take<G::Output>, R>>(
            (before.stage().state(), receiver),
            before.upstream().burst(),
        ).0,
    ensures
        after.stage().remaining() == before.stage().remaining() - taken::<G::Output, R>(
            receiver,
            before.burst(),
        ),
        after.stage().remaining() == 0 ==> after.burst() =~= Seq::empty() && after.pending()
            =~= Seq::empty() && !after.interrupts(),
{
    lemma_take_counts::<G::Output, R>(
        before.stage().remaining(),
        receiver,
        before.upstream().burst(),
    );
}

/// A skipping stage with count `n` behind a generator with `m` values
/// delivers the values after the first `n`, which are `max(m - n, 0)`, and
/// ends its runs as the upstream does.
pub proof fn lemma_skip_exact<G: Generator>(chain: Then<G, Skip<G::Output>>)
    ensures
        chain.pending() == rest_of(chain.upstream().pending(), chain.stage().remaining()),
        chain.pending().len() == (if chain.stage().remaining()
            <= chain.upstream().pending().len() {
            chain.upstream().pending().len() - chain.stage().remaining()
        } else {
            0
        }),
        chain.burst() == rest_of(chain.upstream().burst(), chain.stage().remaining()),
        chain.interrupts() == chain.upstream().interrupts(),
{
    lemma_skip_relays::<G::Output>(chain.stage().remaining(), chain.upstream().pending());
    lemma_skip_relays::<G::Output>(chain.stage().remaining(), chain.upstream().burst());
}

} // verus!
