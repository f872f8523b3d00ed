use crate::generator::Generator;
use crate::receiver::{admits_all, halts, lemma_taken_bounds, settled, taken, Receiver};
use crate::signal::{GeneratorResult, ValueResult};
use vstd::prelude::*;

verus! {

/// One link of a chain: it takes a value from upstream and hands on at most
/// one value to the receiver behind it.
///
/// A stage is modelled as a deterministic machine over `State`: `emit` says
/// what it hands on for a value, `next` what it becomes, and `done` that it
/// takes no further input.
pub trait Stage<In> {
    /// The type of the values handed on.
    type Output;

    /// The mathematical state that the stage's decisions depend on.
    type State;

    /// Well-formedness of the stage.
    spec fn inv(&self) -> bool;

    /// The stage's present state.
    spec fn state(&self) -> Self::State;

    /// What the stage hands on for `value` in `state`, if anything.
    spec fn emit(state: Self::State, value: In) -> Option<Self::Output>;

    /// The state after `value` has been processed in `state`.
    spec fn next(state: Self::State, value: In) -> Self::State;

    /// Whether the stage in `state` takes no further input.
    spec fn done(state: Self::State) -> bool;

    /// Whether the stage takes no further input.
    fn is_done(&self) -> (res: bool)
        requires
            self.inv(),
        ensures
            res == Self::done(self.state()),
    ;

    /// Processes one value: hands on what `emit` gives, if anything, and
    /// answers `Stop` exactly when the receiver stopped or the stage is done
    /// afterwards. The stage's state advances whatever the receiver answered.
    fn process<R: Receiver<Self::Output>>(&mut self, value: In, receiver: &mut R) -> (res:
        ValueResult)
        requires
            old(self).inv(),
            old(receiver).inv(),
            match Self::emit(old(self).state(), value) {
                Some(out) => R::admits(old(receiver).state(), out),
                None => true,
            },
        ensures
            final(self).inv(),
            final(receiver).inv(),
            final(self).state() == Self::next(old(self).state(), value),
            final(receiver).state() == (match Self::emit(old(self).state(), value) {
                Some(out) => R::next(old(receiver).state(), out),
                None => old(receiver).state(),
            }),
            (res == ValueResult::Stop) == (Self::done(Self::next(old(self).state(), value)) || (
            match Self::emit(old(self).state(), value) {
                Some(out) => R::signal(old(receiver).state(), out) == ValueResult::Stop,
                None => false,
            })),
    ;
}

/// Whether the receiver admits what the stage hands on for `value`.
pub open spec fn handover_admits<In, S: Stage<In>, R: Receiver<S::Output>>(
    stage: S::State,
    receiver: R::State,
    value: In,
) -> bool {
    match S::emit(stage, value) {
        Some(out) => R::admits(receiver, out),
        None => true,
    }
}

/// The receiver's state after the stage has processed `value`.
pub open spec fn handover_next<In, S: Stage<In>, R: Receiver<S::Output>>(
    stage: S::State,
    receiver: R::State,
    value: In,
) -> R::State {
    match S::emit(stage, value) {
        Some(out) => R::next(receiver, out),
        None => receiver,
    }
}

/// The answer that goes upstream after the stage has processed `value`.
pub open spec fn handover_signal<In, S: Stage<In>, R: Receiver<S::Output>>(
    stage: S::State,
    receiver: R::State,
    value: In,
) -> ValueResult {
    let stopped = match S::emit(stage, value) {
        Some(out) => R::signal(receiver, out) == ValueResult::Stop,
        None => false,
    };
    if stopped || S::done(S::next(stage, value)) {
        ValueResult::Stop
    } else {
        ValueResult::MoreValues
    }
}

/// What a stage that starts in `state` hands on while `values` pass through
/// it, up to the point where it is done.
pub open spec fn relayed<In, S: Stage<In>>(state: S::State, values: Seq<In>) -> Seq<S::Output>
    decreases values.len(),
{
    if values.len() == 0 || S::done(state) {
        Seq::empty()
    } else {
        let rest = relayed::<In, S>(S::next(state, values[0]), values.skip(1));
        match S::emit(state, values[0]) {
            Some(out) => seq![out] + rest,
            None => rest,
        }
    }
}

/// Whether a stage that starts in `state` is done at some point while
/// `values` pass through it.
pub open spec fn exhausts<In, S: Stage<In>>(state: S::State, values: Seq<In>) -> bool
    decreases values.len(),
{
    if S::done(state) {
        true
    } else if values.len() == 0 {
        false
    } else {
        exhausts::<In, S>(S::next(state, values[0]), values.skip(1))
    }
}

/// The receiver that an upstream generator sees when a stage stands between
/// it and the receiver proper.
pub struct Link<S, R> {
    /// The stage that each value passes through.
    pub stage: S,
    /// The receiver behind the stage.
    pub receiver: R,
}

impl<In, S: Stage<In>, R: Receiver<S::Output>> Receiver<In> for Link<S, R> {
    type State = (S::State, R::State);

    open spec fn inv(&self) -> bool {
        self.stage.inv() && self.receiver.inv()
    }

    open spec fn state(&self) -> (S::State, R::State) {
        (self.stage.state(), self.receiver.state())
    }

    open spec fn admits(state: (S::State, R::State), value: In) -> bool {
        handover_admits::<In, S, R>(state.0, state.1, value)
    }

    open spec fn signal(state: (S::State, R::State), value: In) -> ValueResult {
        handover_signal::<In, S, R>(state.0, state.1, value)
    }

    open spec fn next(state: (S::State, R::State), value: In) -> (S::State, R::State) {
        (S::next(state.0, value), handover_next::<In, S, R>(state.0, state.1, value))
    }

    fn accept(&mut self, value: In) -> (res: ValueResult) {
        self.stage.process(value, &mut self.receiver)
    }
}

/// Offering `values` through a stage that is not done is offering the
/// receiver what the stage relays: the receiver ends in the same state, the
/// offer ends early exactly when the receiver stops or the stage is done, and
/// what a longer input `all` would still relay afterwards is what it relays
/// in full without the values that the receiver took.
pub proof fn lemma_offer_through<In, S: Stage<In>, R: Receiver<S::Output>>(
    stage: S::State,
    receiver: R::State,
    values: Seq<In>,
    all: Seq<In>,
)
    requires
        !S::done(stage),
        values.is_prefix_of(all),
    ensures
        ({
            let link = (stage, receiver);
            let out = relayed::<In, S>(stage, values);
            let end = settled::<In, Link<S, R>>(link, values);
            let used = taken::<In, Link<S, R>>(link, values) as int;
            &&& end.1 == settled::<S::Output, R>(receiver, out)
            &&& halts::<In, Link<S, R>>(link, values) == (halts::<S::Output, R>(receiver, out)
                || exhausts::<In, S>(stage, values))
            &&& admits_all::<S::Output, R>(receiver, out) ==> admits_all::<In, Link<S, R>>(
                link,
                values,
            )
            &&& relayed::<In, S>(end.0, all.skip(used)) == relayed::<In, S>(stage, all).skip(
                taken::<S::Output, R>(receiver, out) as int,
            )
            &&& !halts::<In, Link<S, R>>(link, values) ==> !S::done(end.0)
        }),
    decreases values.len(),
{
    let link = (stage, receiver);
    let whole = relayed::<In, S>(stage, all);
    if values.len() == 0 {
        assert(all.skip(0) =~= all);
        assert(whole.skip(0) =~= whole);
    } else {
        let value = values[0];
        assert(all[0] == value);
        assert(values.skip(1).is_prefix_of(all.skip(1)));
        let stage1 = S::next(stage, value);
        let receiver1 = handover_next::<In, S, R>(stage, receiver, value);
        let out = relayed::<In, S>(stage, values);
        let rest = relayed::<In, S>(stage1, values.skip(1));
        let all_rest = relayed::<In, S>(stage1, all.skip(1));
        let stops = handover_signal::<In, S, R>(stage, receiver, value) == ValueResult::Stop;
        assert(Link::<S, R>::signal(link, value) == handover_signal::<In, S, R>(
            stage,
            receiver,
            value,
        ));
        assert(Link::<S, R>::next(link, value) == (stage1, receiver1));
        assert(exhausts::<In, S>(stage, values) == exhausts::<In, S>(stage1, values.skip(1)));
        if S::done(stage1) {
            assert(rest =~= Seq::<S::Output>::empty());
            assert(all_rest =~= Seq::<S::Output>::empty());
        }
        if !stops {
            lemma_offer_through::<In, S, R>(stage1, receiver1, values.skip(1), all.skip(1));
            lemma_taken_bounds::<In, Link<S, R>>((stage1, receiver1), values.skip(1));
            lemma_taken_bounds::<S::Output, R>(receiver1, rest);
            lemma_relayed_prefix::<In, S>(stage1, values.skip(1), all.skip(1));
            let used1 = taken::<In, Link<S, R>>((stage1, receiver1), values.skip(1)) as int;
            assert(all.skip(1).skip(used1) =~= all.skip(1 + used1));
        }
        match S::emit(stage, value) {
            Some(first) => {
                assert(out == seq![first] + rest);
                assert(out[0] == first);
                assert(out.skip(1) =~= rest);
                assert(whole == seq![first] + all_rest);
                assert(whole.skip(1) =~= all_rest);
                if stops {
                    assert(all_rest.skip(0) =~= all_rest);
                    if R::signal(receiver, first) != ValueResult::Stop {
                        assert(taken::<S::Output, R>(receiver1, rest) == 0);
                        assert(settled::<S::Output, R>(receiver1, rest) == receiver1);
                    }
                    assert(settled::<S::Output, R>(receiver, out) == receiver1);
                } else {
                    let got1 = taken::<S::Output, R>(receiver1, rest) as int;
                    assert(whole.skip(1 + got1) =~= all_rest.skip(got1));
                    assert(settled::<S::Output, R>(receiver, out) == settled::<S::Output, R>(
                        receiver1,
                        rest,
                    ));
                }
            },
            None => {
                assert(out == rest);
                assert(whole == all_rest);
                if stops {
                    assert(all_rest.skip(0) =~= all_rest);
                    assert(settled::<S::Output, R>(receiver, out) == receiver);
                }
            },
        }
    }
}

/// A stage relays no less from a longer input: what it hands on for a prefix
/// opens what it hands on for the whole.
pub proof fn lemma_relayed_prefix<In, S: Stage<In>>(state: S::State, part: Seq<In>, whole: Seq<In>)
    requires
        part.is_prefix_of(whole),
    ensures
        relayed::<In, S>(state, part).is_prefix_of(relayed::<In, S>(state, whole)),
        !exhausts::<In, S>(state, part) && part.len() == whole.len() ==> relayed::<In, S>(
            state,
            part,
        ) == relayed::<In, S>(state, whole),
    decreases part.len(),
{
    if part.len() == whole.len() {
        assert(part =~= whole);
    }
    if part.len() == 0 || S::done(state) {
    } else {
        assert(part[0] == whole[0]);
        assert(part.skip(1).is_prefix_of(whole.skip(1)));
        lemma_relayed_prefix::<In, S>(S::next(state, part[0]), part.skip(1), whole.skip(1));
    }
}

/// An upstream generator followed by a stage, as one generator.
pub struct Then<G, S> {
    upstream: G,
    stage: Option<S>,
}

impl<G, S> Then<G, S> {
    /// The generator that feeds the stage.
    pub closed spec fn upstream(&self) -> G {
        self.upstream
    }

    /// The stage that every value passes through.
    pub closed spec fn stage(&self) -> S {
        self.stage->0
    }

    /// Whether the chain holds its stage, as it does between runs.
    pub closed spec fn whole(&self) -> bool {
        self.stage is Some
    }

    /// The chain of `stage` behind `upstream`.
    pub closed spec fn chained(upstream: G, stage: S) -> Self {
        Then { upstream, stage: Some(stage) }
    }

    /// The chain of a stage behind a generator holds the two, and every chain
    /// that holds its stage is the chain of its two parts.
    pub proof fn lemma_chained(upstream: G, stage: S)
        ensures
            Self::chained(upstream, stage).whole(),
            Self::chained(upstream, stage).upstream() == upstream,
            Self::chained(upstream, stage).stage() == stage,
            forall|chain: Self|
                chain.whole() ==> chain == #[trigger] Self::chained(
                    chain.upstream(),
                    chain.stage(),
                ),
    {
    }

    /// Chains `stage` behind `upstream`.
    pub fn new(upstream: G, stage: S) -> (res: Self)
        ensures
            res == Self::chained(upstream, stage),
            res.whole(),
            res.upstream() == upstream,
            res.stage() == stage,
    {
        Then { upstream, stage: Some(stage) }
    }

    /// Takes the chain apart into its generator and its stage, each as the
    /// runs so far have left it.
    pub fn into_parts(self) -> (res: (G, S))
        requires
            self.whole(),
        ensures
            res.0 == self.upstream(),
            res.1 == self.stage(),
    {
        (self.upstream, self.stage.unwrap())
    }
}

impl<G: Generator, S: Receiver<G::Output>> Then<G, S> {
    /// Runs a chain that ends in a terminal stage: the upstream generator is
    /// driven into the stage, and its result is the result of the chain.
    pub fn drive(&mut self) -> (res: GeneratorResult)
        requires
            old(self).whole(),
            old(self).upstream().inv(),
            old(self).stage().inv(),
            admits_all::<G::Output, S>(old(self).stage().state(), old(self).upstream().burst()),
        ensures
            final(self).whole(),
            final(self).upstream().inv(),
            final(self).stage().inv(),
            final(self).stage().state() == settled::<G::Output, S>(
                old(self).stage().state(),
                old(self).upstream().burst(),
            ),
            final(self).upstream().pending() == old(self).upstream().pending().skip(
                taken::<G::Output, S>(
                    old(self).stage().state(),
                    old(self).upstream().burst(),
                ) as int,
            ),
            (res == GeneratorResult::Stopped) == (halts::<G::Output, S>(
                old(self).stage().state(),
                old(self).upstream().burst(),
            ) || old(self).upstream().interrupts()),
            res == GeneratorResult::Complete ==> !final(self).upstream().interrupts(),
            res == GeneratorResult::Stopped ==> final(self).upstream().stops_left() < old(self).upstream().stops_left(),
    {
        let stage = self.stage.take().unwrap();
        let (res, stage) = self.upstream.run(stage);
        self.stage = Some(stage);
        res
    }
}

impl<G: Generator, S: Stage<G::Output>> Generator for Then<G, S> {
    type Output = S::Output;

    open spec fn inv(&self) -> bool {
        self.whole() && self.upstream().inv() && self.stage().inv()
    }

    open spec fn pending(&self) -> Seq<S::Output> {
        relayed::<G::Output, S>(self.stage().state(), self.upstream().pending())
    }

    open spec fn burst(&self) -> Seq<S::Output> {
        relayed::<G::Output, S>(self.stage().state(), self.upstream().burst())
    }

    open spec fn interrupts(&self) -> bool {
        !S::done(self.stage().state()) && (exhausts::<G::Output, S>(
            self.stage().state(),
            self.upstream().burst(),
        ) || self.upstream().interrupts())
    }

    open spec fn stops_left(&self) -> nat {
        self.upstream().stops_left()
    }

    proof fn lemma_burst(&self) {
        self.upstream().lemma_burst();
        lemma_relayed_prefix::<G::Output, S>(
            self.stage().state(),
            self.upstream().burst(),
            self.upstream().pending(),
        );
    }

    /// A stage that is done ends the run at once with `Complete` and leaves
    /// the chain as it was; otherwise the upstream generator runs once into
    /// the stage and its result is the result of the chain. The stage and the
    /// upstream generator are afterwards as that run left them.
    fn run<R: Receiver<S::Output>>(&mut self, receiver: R) -> (res: (GeneratorResult, R))
        ensures
            S::done(old(self).stage().state()) ==> final(self).stage() == old(self).stage()
                && final(self).upstream() == old(self).upstream(),
            !S::done(old(self).stage().state()) ==> ({
                let link = (old(self).stage().state(), receiver.state());
                let offered = old(self).upstream().burst();
                &&& final(self).stage().state() == settled::<G::Output, Link<S, R>>(
                    link,
                    offered,
                ).0
                &&& final(self).upstream().pending() == old(self).upstream().pending().skip(
                    taken::<G::Output, Link<S, R>>(link, offered) as int,
                )
                &&& (res.0 == GeneratorResult::Stopped) == (halts::<G::Output, Link<S, R>>(
                    link,
                    offered,
                ) || old(self).upstream().interrupts())
                &&& res.0 == GeneratorResult::Complete ==> !final(self).upstream().interrupts()
                &&& res.0 == GeneratorResult::Stopped ==> final(self).upstream().stops_left()
                    < old(self).upstream().stops_left()
            }),
    {
        let stage = self.stage.take().unwrap();
        if stage.is_done() {
            self.stage = Some(stage);
            proof {
                assert(self.pending().skip(0) =~= self.pending());
            }
            return (GeneratorResult::Complete, receiver);
        }
        proof {
            self.upstream.lemma_burst();
            lemma_offer_through::<G::Output, S, R>(
                stage.state(),
                receiver.state(),
                self.upstream.burst(),
                self.upstream.pending(),
            );
        }
        let ghost start = (stage.state(), receiver.state());
        let (res, link) = self.upstream.run(Link { stage, receiver });
        let Link { stage, receiver } = link;
        self.stage = Some(stage);
        proof {
            if res == GeneratorResult::Complete {
                lemma_taken_bounds::<G::Output, Link<S, R>>(start, old(self).upstream.burst());
                self.upstream.lemma_burst();
            }
        }
        (res, receiver)
    }
}

} // verus!
