use crate::callable::Mapper;
use crate::receiver::Receiver;
use crate::signal::ValueResult;
use crate::stage::{exhausts, relayed, Stage};
use core::marker::PhantomData;
use vstd::prelude::*;

verus! {

/// A stage that hands on the image of each value under a function.
pub struct Transform<In, Out, F> {
    transform: F,
    marker: PhantomData<(In, Out)>,
}

impl<In, Out, F: Mapper<In, Out>> Transform<In, Out, F> {
    /// The function that the stage applies to each value.
    pub closed spec fn transform(&self) -> F {
        self.transform
    }

    /// The stage that hands on the image of each value under `transform`.
    pub closed spec fn applying(transform: F) -> Self {
        Transform { transform, marker: PhantomData }
    }

    /// The stage made of a function applies that function.
    pub proof fn lemma_applying(transform: F)
        ensures
            Self::applying(transform).transform() == transform,
    {
    }

    /// A stage that hands on the image of each value under `transform`.
    pub fn new(transform: F) -> (res: Self)
        ensures
            res == Self::applying(transform),
            res.transform() == transform,
    {
        Transform { transform, marker: PhantomData }
    }
}

impl<In, Out, F: Mapper<In, Out>> Stage<In> for Transform<In, Out, F> {
    type Output = Out;

    type State = F;

    open spec fn inv(&self) -> bool {
        self.transform().sound()
    }

    open spec fn state(&self) -> F {
        self.transform()
    }

    open spec fn emit(state: F, value: In) -> Option<Out> {
        Some(state.image(value))
    }

    open spec fn next(state: F, value: In) -> F {
        state
    }

    open spec fn done(state: F) -> bool {
        false
    }

    fn is_done(&self) -> (res: bool) {
        false
    }

    /// Hands on the image of the value.
    fn process<R: Receiver<Out>>(&mut self, value: In, receiver: &mut R) -> (res: ValueResult) {
        let out = self.transform.apply(&value);
        receiver.accept(out)
    }
}

/// A transforming stage relays the image of each value that passes through
/// it, in their order, and is never done.
pub proof fn lemma_transform_relays<In, Out, F: Mapper<In, Out>>(transform: F, values: Seq<In>)
    ensures
        relayed::<In, Transform<In, Out, F>>(transform, values) == values.map_values(
            |value: In| transform.image(value),
        ),
        !exhausts::<In, Transform<In, Out, F>>(transform, values),
    decreases values.len(),
{
    let apply = |value: In| transform.image(value);
    if values.len() > 0 {
        let rest = values.skip(1);
        lemma_transform_relays::<In, Out, F>(transform, rest);
        assert(seq![apply(values[0])] + rest.map_values(apply) =~= values.map_values(apply));
    } else {
        assert(values.map_values(apply) =~= Seq::<Out>::empty());
    }
}

} // verus!
