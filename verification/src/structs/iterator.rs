use crate::callable::Combiner;
use crate::generator::Generator;
use crate::receiver::{admits_all, halts, settled, taken, Receiver};
use crate::signal::{GeneratorResult, ValueResult};
use core::marker::PhantomData;
use vstd::prelude::*;

verus! {

/// A receiver that keeps the one value it is handed and stops the run.
pub struct Single<T> {
    /// The value taken, if any.
    pub value: Option<T>,
}

impl<T> Receiver<T> for Single<T> {
    type State = Option<T>;

    open spec fn inv(&self) -> bool {
        true
    }

    open spec fn state(&self) -> Option<T> {
        self.value
    }

    open spec fn admits(state: Option<T>, value: T) -> bool {
        true
    }

    open spec fn signal(state: Option<T>, value: T) -> ValueResult {
        ValueResult::Stop
    }

    open spec fn next(state: Option<T>, value: T) -> Option<T> {
        Some(value)
    }

    fn accept(&mut self, value: T) -> (res: ValueResult) {
        self.value = Some(value);
        ValueResult::Stop
    }
}

/// A receiver that folds every value into an accumulator and always asks for
/// more.
pub struct Folder<B, T, F> {
    acc: Option<B>,
    combine: F,
    marker: PhantomData<T>,
}

impl<B, T, F: Combiner<B, T>> Folder<B, T, F> {
    /// The accumulator; present between calls.
    pub closed spec fn acc(&self) -> Option<B> {
        self.acc
    }

    /// The combining function.
    pub closed spec fn combine(&self) -> F {
        self.combine
    }

    /// A folder that starts from `init`.
    pub fn new(init: B, combine: F) -> (res: Self)
        ensures
            res.acc() == Some(init),
            res.combine() == combine,
    {
        Folder { acc: Some(init), combine, marker: PhantomData }
    }

    /// The accumulator.
    pub fn finish(self) -> (res: B)
        requires
            self.acc() is Some,
        ensures
            Some(res) == self.acc(),
    {
        self.acc.unwrap()
    }
}

impl<B, T, F: Combiner<B, T>> Receiver<T> for Folder<B, T, F> {
    type State = (B, F);

    open spec fn inv(&self) -> bool {
        self.acc() is Some && self.combine().sound()
    }

    open spec fn state(&self) -> (B, F) {
        (self.acc()->0, self.combine())
    }

    open spec fn admits(state: (B, F), value: T) -> bool {
        true
    }

    open spec fn signal(state: (B, F), value: T) -> ValueResult {
        ValueResult::MoreValues
    }

    open spec fn next(state: (B, F), value: T) -> (B, F) {
        (state.1.combine(state.0, value), state.1)
    }

    fn accept(&mut self, value: T) -> (res: ValueResult) {
        let acc = self.acc.take().unwrap();
        let out = self.combine.merge(acc, value);
        self.acc = Some(out);
        ValueResult::MoreValues
    }
}

/// A folder takes everything it is offered, and ends with the left fold of
/// the values over its accumulator.
pub proof fn lemma_folder_folds<B, T, F: Combiner<B, T>>(acc: B, combine: F, values: Seq<T>)
    ensures
        !halts::<T, Folder<B, T, F>>((acc, combine), values),
        taken::<T, Folder<B, T, F>>((acc, combine), values) == values.len(),
        admits_all::<T, Folder<B, T, F>>((acc, combine), values),
        settled::<T, Folder<B, T, F>>((acc, combine), values) == (
            values.fold_left(acc, |a: B, x: T| combine.combine(a, x)),
            combine,
        ),
    decreases values.len(),
{
    let step = |a: B, x: T| combine.combine(a, x);
    lemma_folder_folds_alt::<B, T, F>(acc, combine, values);
    values.lemma_fold_left_alt(acc, step);
}

proof fn lemma_folder_folds_alt<B, T, F: Combiner<B, T>>(acc: B, combine: F, values: Seq<T>)
    ensures
        !halts::<T, Folder<B, T, F>>((acc, combine), values),
        taken::<T, Folder<B, T, F>>((acc, combine), values) == values.len(),
        admits_all::<T, Folder<B, T, F>>((acc, combine), values),
        settled::<T, Folder<B, T, F>>((acc, combine), values) == (
            values.fold_left_alt(acc, |a: B, x: T| combine.combine(a, x)),
            combine,
        ),
    decreases values.len(),
{
    let step = |a: B, x: T| combine.combine(a, x);
    if values.len() > 0 {
        lemma_folder_folds_alt::<B, T, F>(step(acc, values[0]), combine, values.skip(1));
        assert(values.skip(1) =~= values.subrange(1, values.len() as int));
    }
}

/// A generator seen one value at a time.
pub struct IteratorAdaptor<Src> where Src: Generator {
    source: Src,
}

impl<Src> IteratorAdaptor<Src> where Src: Generator {
    /// The generator behind the adaptor.
    pub closed spec fn source(&self) -> Src {
        self.source
    }

    /// The adaptor of `source`.
    pub closed spec fn over(source: Src) -> Self {
        IteratorAdaptor { source }
    }

    /// The adaptor of a generator holds that generator.
    pub proof fn lemma_over(source: Src)
        ensures
            Self::over(source).source() == source,
    {
    }

    /// Adapts `source`.
    pub fn new(source: Src) -> (res: Self)
        ensures
            res == Self::over(source),
            res.source() == source,
    {
        Self { source }
    }

    /// The next value, or `None` when the generator has nothing left. The
    /// generator is run into a receiver that takes one value and stops; a run
    /// that ends with `Stopped` before any value is not the end, and the
    /// generator is run again.
    pub fn next(&mut self) -> (res: Option<Src::Output>)
        requires
            old(self).source().inv(),
        ensures
            final(self).source().inv(),
            res == (if old(self).source().pending().len() > 0 {
                Some(old(self).source().pending()[0])
            } else {
                None
            }),
            final(self).source().pending() == (if old(self).source().pending().len() > 0 {
                old(self).source().pending().skip(1)
            } else {
                old(self).source().pending()
            }),
    {
        loop
            invariant
                self.source.inv(),
                self.source.pending() == old(self).source.pending(),
            decreases self.source.stops_left(),
        {
            proof {
                self.source.lemma_burst();
                assert(self.source.pending().skip(0) =~= self.source.pending());
            }
            let (res, single) = self.source.run(Single { value: None });
            match single.value {
                Some(value) => {
                    return Some(value);
                },
                None => {
                    match res {
                        GeneratorResult::Complete => {
                            return None;
                        },
                        GeneratorResult::Stopped => {},
                    }
                },
            }
        }
    }

    /// Folds every value that the generator has still to deliver: `f` is
    /// applied to the accumulator and each value in turn, starting from
    /// `init`. The generator is run again whenever a run ends with `Stopped`,
    /// until a run completes.
    pub fn fold<B, F>(self, init: B, f: F) -> (res: B) where F: Combiner<B, Src::Output>
        requires
            self.source().inv(),
            f.sound(),
        ensures
            res == self.source().pending().fold_left(
                init,
                |acc: B, value: Src::Output| f.combine(acc, value),
            ),
    {
        let mut source = self.source;
        let mut folder = Folder::new(init, f);
        let ghost all = source.pending();
        let ghost step = |acc: B, value: Src::Output| f.combine(acc, value);
        let ghost mut done: int = 0;
        proof {
            assert(all.skip(0) =~= all);
            assert(all.take(0) =~= Seq::<Src::Output>::empty());
        }
        loop
            invariant
                source.inv(),
                folder.inv(),
                folder.combine() == f,
                step == |acc: B, value: Src::Output| f.combine(acc, value),
                0 <= done <= all.len(),
                source.pending() == all.skip(done),
                folder.acc() == Some(all.take(done).fold_left(init, step)),
            ensures
                folder.acc() == Some(all.fold_left(init, step)),
            decreases source.stops_left(),
        {
            let ghost offered = source.burst();
            let ghost acc = folder.acc()->0;
            proof {
                source.lemma_burst();
                lemma_folder_folds::<B, Src::Output, F>(acc, f, offered);
                let upto = all.take(done + offered.len());
                upto.lemma_fold_left_split(init, step, done);
                assert(upto.subrange(0, done) =~= all.take(done));
                assert(upto.subrange(done, upto.len() as int) =~= offered);
                assert(all.skip(done).skip(offered.len() as int) =~= all.skip(
                    done + offered.len(),
                ));
            }
            let (res, next) = source.run(folder);
            folder = next;
            proof {
                done = done + offered.len();
            }
            match res {
                GeneratorResult::Complete => {
                    proof {
                        assert(all.take(done) =~= all);
                    }
                    break ;
                },
                GeneratorResult::Stopped => {},
            }
        }
        folder.finish()
    }
}

} // verus!
