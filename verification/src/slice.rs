use crate::generator::Generator;
use crate::receiver::{admits_all, halts, settled, taken, Receiver};
use crate::signal::{GeneratorResult, ValueResult};
use vstd::prelude::*;

verus! {

/// A generator over a borrowed slice: it delivers a reference to each element,
/// in order, and never ends a run of its own accord.
pub struct SliceGenerator<'a, T> {
    data: &'a [T],
    index: usize,
    items: Ghost<Seq<T>>,
}

/// References to the elements of `items` from position `from` on.
pub open spec fn refs_from<'a, T>(items: Seq<T>, from: int) -> Seq<&'a T> {
    Seq::new((items.len() - from) as nat, |i: int| &items[from + i])
}

/// The slice that holds `items`.
pub closed spec fn slice_of<'a, T>(items: Seq<T>) -> &'a [T] {
    choose|data: &'a [T]| data@ == items
}

/// The slice that holds the elements of a slice is that slice.
pub proof fn lemma_slice_of<T>(data: &[T])
    ensures
        slice_of::<T>(data@) == data,
{
    broadcast use vstd::slice::axiom_slice_ext_equal;

    assert(slice_of::<T>(data@)@ == data@);
    assert(slice_of::<T>(data@) =~= data);
}

impl<'a, T> SliceGenerator<'a, T> {
    #[verifier::type_invariant]
    spec fn backed(&self) -> bool {
        self.data@ == self.items@
    }

    /// The elements of the slice that the generator walks.
    pub closed spec fn items(&self) -> Seq<T> {
        self.items@
    }

    /// How many elements have been delivered.
    pub closed spec fn position(&self) -> int {
        self.index as int
    }

    /// The generator that has all of `items` to deliver.
    pub closed spec fn over(items: Seq<T>) -> Self {
        SliceGenerator { data: slice_of(items), index: 0, items: Ghost(items) }
    }

    /// The generator over some elements is well-formed and stands before the
    /// first of them.
    pub proof fn lemma_over(items: Seq<T>)
        ensures
            Self::over(items).inv(),
            Self::over(items).items() == items,
            Self::over(items).position() == 0,
    {
    }

    /// A generator that delivers every element of `data`.
    pub fn new(data: &'a [T]) -> (res: Self)
        ensures
            res == Self::over(data@),
            res.inv(),
            res.items() == data@,
            res.position() == 0,
    {
        proof {
            broadcast use vstd::slice::axiom_slice_ext_equal;

            assert(slice_of::<T>(data@)@ == data@);
            assert(slice_of::<T>(data@) =~= data);
        }
        SliceGenerator { data, index: 0, items: Ghost(data@) }
    }
}

impl<'a, T> Generator for SliceGenerator<'a, T> {
    type Output = &'a T;

    closed spec fn inv(&self) -> bool {
        self.index <= self.items@.len()
    }

    open spec fn pending(&self) -> Seq<&'a T> {
        refs_from(self.items(), self.position())
    }

    open spec fn burst(&self) -> Seq<&'a T> {
        self.pending()
    }

    open spec fn interrupts(&self) -> bool {
        false
    }

    open spec fn stops_left(&self) -> nat {
        self.pending().len()
    }

    proof fn lemma_burst(&self) {
    }

    /// Delivers the elements from the present position on. The slice stays
    /// the same and the position moves past the elements taken.
    fn run<R: Receiver<&'a T>>(&mut self, receiver: R) -> (res: (GeneratorResult, R))
        ensures
            final(self).items() == old(self).items(),
            final(self).position() == old(self).position() + taken::<&'a T, R>(
                receiver.state(),
                old(self).burst(),
            ),
    {
        let mut sink = receiver;
        let ghost offered = self.burst();
        let ghost start = self.index as int;
        proof {
            use_type_invariant(&*self);
        }
        assert(offered.skip(0) =~= offered);
        while self.index < self.data.len()
            invariant
                self.data == old(self).data,
                self.items == old(self).items,
                self.data@ == self.items@,
                start == old(self).index,
                offered == old(self).burst(),
                start <= self.index <= self.data@.len(),
                sink.inv(),
                admits_all::<&'a T, R>(sink.state(), offered.skip(self.index - start)),
                taken::<&'a T, R>(receiver.state(), offered) == (self.index - start) + taken::<
                    &'a T,
                    R,
                >(sink.state(), offered.skip(self.index - start)),
                halts::<&'a T, R>(receiver.state(), offered) == halts::<&'a T, R>(
                    sink.state(),
                    offered.skip(self.index - start),
                ),
                settled::<&'a T, R>(receiver.state(), offered) == settled::<&'a T, R>(
                    sink.state(),
                    offered.skip(self.index - start),
                ),
            decreases self.data.len() - self.index,
        {
            let ghost rest = offered.skip(self.index - start);
            let ghost before = sink.state();
            let value = &self.data[self.index];
            assert(rest.len() > 0 && rest[0] == value);
            assert(rest.skip(1) =~= offered.skip(self.index + 1 - start));
            self.index += 1;
            match sink.accept(value) {
                ValueResult::Stop => {
                    assert(self.pending().len() < old(self).pending().len());
                    assert(taken::<&'a T, R>(before, rest) == 1);
                    assert(settled::<&'a T, R>(before, rest) == sink.state());
                    assert(self.pending() =~= old(self).pending().skip(self.index - start));
                    return (GeneratorResult::Stopped, sink);
                },
                ValueResult::MoreValues => {
                    assert(taken::<&'a T, R>(before, rest) == 1 + taken::<&'a T, R>(
                        sink.state(),
                        rest.skip(1),
                    ));
                },
            }
        }
        assert(self.pending() =~= old(self).pending().skip(self.index - start));
        (GeneratorResult::Complete, sink)
    }
}

} // verus!
