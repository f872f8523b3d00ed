use crate::generator::Generator;
use crate::receiver::{admits_all, halts, settled, taken, Receiver};
use crate::signal::{GeneratorResult, ValueResult};
use crate::slice::{lemma_slice_of, refs_from, slice_of};
use vstd::prelude::*;

verus! {

/// A generator over a borrowed slice that interrupts itself once: the run in
/// which it has delivered `stop_at` values ends with `Stopped`, whatever the
/// receiver answered. A later run resumes with the next element. A negative
/// `stop_at` never interrupts.
pub struct StoppingGen<'a, T> {
    stop_at: i32,
    data: &'a [T],
    index: usize,
    items: Ghost<Seq<T>>,
}

impl<'a, T> StoppingGen<'a, T> {
    #[verifier::type_invariant]
    spec fn backed(&self) -> bool {
        self.data@ == self.items@
    }

    /// The elements of the slice that the generator walks.
    pub closed spec fn items(&self) -> Seq<T> {
        self.items@
    }

    /// How many elements have been delivered.
    pub closed spec fn position(&self) -> int {
        self.index as int
    }

    /// How many more values are delivered before the interruption; negative
    /// once it is past.
    pub closed spec fn stop_at(&self) -> int {
        self.stop_at as int
    }

    /// The generator that has all of `items` to deliver and interrupts
    /// itself after `stop_at` of them.
    pub closed spec fn over(stop_at: i32, items: Seq<T>) -> Self {
        StoppingGen { stop_at, data: slice_of(items), index: 0, items: Ghost(items) }
    }

    /// The generator over some elements is well-formed, stands before the
    /// first of them and has its countdown untouched.
    pub proof fn lemma_over(stop_at: i32, items: Seq<T>)
        ensures
            Self::over(stop_at, items).inv(),
            Self::over(stop_at, items).items() == items,
            Self::over(stop_at, items).position() == 0,
            Self::over(stop_at, items).stop_at() == stop_at,
    {
    }

    /// A generator over `data` that interrupts itself after `stop_at` values.
    pub fn new(stop_at: i32, data: &'a [T]) -> (res: Self)
        ensures
            res == Self::over(stop_at, data@),
            res.inv(),
            res.items() == data@,
            res.position() == 0,
            res.stop_at() == stop_at,
    {
        proof {
            lemma_slice_of(data);
        }
        StoppingGen { stop_at, data, index: 0, items: Ghost(data@) }
    }
}

impl<'a, T> Generator for StoppingGen<'a, T> {
    type Output = &'a T;

    closed spec fn inv(&self) -> bool {
        self.index <= self.items@.len()
    }

    open spec fn pending(&self) -> Seq<&'a T> {
        refs_from(self.items(), self.position())
    }

    open spec fn burst(&self) -> Seq<&'a T> {
        if self.interrupts() {
            self.pending().take(self.stop_at())
        } else {
            self.pending()
        }
    }

    open spec fn interrupts(&self) -> bool {
        0 <= self.stop_at() <= self.pending().len()
    }

    open spec fn stops_left(&self) -> nat {
        if self.stop_at() >= 0 {
            self.pending().len() + 1
        } else {
            self.pending().len()
        }
    }

    proof fn lemma_burst(&self) {
    }

    /// Delivers the elements from the present position on, up to the
    /// interruption. The countdown goes down by the elements taken; it turns
    /// negative when the run ends with the interruption, and stays at zero
    /// when the receiver stopped with the very element that used it up, so
    /// that the next run is interrupted before its first element.
    fn run<R: Receiver<&'a T>>(&mut self, receiver: R) -> (res: (GeneratorResult, R))
        ensures
            final(self).items() == old(self).items(),
            final(self).position() == old(self).position() + taken::<&'a T, R>(
                receiver.state(),
                old(self).burst(),
            ),
            final(self).stop_at() == (if old(self).stop_at() < 0 {
                old(self).stop_at()
            } else if old(self).interrupts() && !halts::<&'a T, R>(
                receiver.state(),
                old(self).burst(),
            ) {
                -1
            } else {
                old(self).stop_at() - taken::<&'a T, R>(receiver.state(), old(self).burst())
            }),
    {
        let mut sink = receiver;
        let ghost offered = self.burst();
        let ghost start = self.index as int;
        let ghost countdown = self.stop_at as int;
        proof {
            use_type_invariant(&*self);
        }
        if self.stop_at == 0 {
            self.stop_at = -1;
            proof {
                assert(offered =~= Seq::<&'a T>::empty());
                assert(self.pending().skip(0) =~= self.pending());
            }
            return (GeneratorResult::Stopped, sink);
        }
        assert(offered.skip(0) =~= offered);
        while self.index < self.data.len()
            invariant
                self.data == old(self).data,
                self.items == old(self).items,
                self.data@ == self.items@,
                start == old(self).index,
                countdown == old(self).stop_at,
                offered == old(self).burst(),
                start <= self.index <= self.data@.len(),
                countdown != 0,
                countdown < 0 ==> self.stop_at == countdown,
                countdown > 0 ==> self.stop_at == countdown - (self.index - start) && self.stop_at
                    > 0,
                self.index - start <= offered.len(),
                sink.inv(),
                admits_all::<&'a T, R>(sink.state(), offered.skip(self.index - start)),
                taken::<&'a T, R>(receiver.state(), offered) == (self.index - start) + taken::<
                    &'a T,
                    R,
                >(sink.state(), offered.skip(self.index - start)),
                halts::<&'a T, R>(receiver.state(), offered) == halts::<&'a T, R>(
                    sink.state(),
                    offered.skip(self.index - start),
                ),
                settled::<&'a T, R>(receiver.state(), offered) == settled::<&'a T, R>(
                    sink.state(),
                    offered.skip(self.index - start),
                ),
            decreases self.data.len() - self.index,
        {
            let ghost rest = offered.skip(self.index - start);
            let ghost before = sink.state();
            let value = &self.data[self.index];
            assert(rest.len() > 0 && rest[0] == value);
            assert(rest.skip(1) =~= offered.skip(self.index + 1 - start));
            self.index += 1;
            if self.stop_at > 0 {
                self.stop_at = self.stop_at - 1;
            }
            match sink.accept(value) {
                ValueResult::Stop => {
                    assert(taken::<&'a T, R>(before, rest) == 1);
                    assert(settled::<&'a T, R>(before, rest) == sink.state());
                    assert(self.pending() =~= old(self).pending().skip(self.index - start));
                    return (GeneratorResult::Stopped, sink);
                },
                ValueResult::MoreValues => {
                    assert(taken::<&'a T, R>(before, rest) == 1 + taken::<&'a T, R>(
                        sink.state(),
                        rest.skip(1),
                    ));
                    assert(settled::<&'a T, R>(before, rest) == settled::<&'a T, R>(
                        sink.state(),
                        rest.skip(1),
                    ));
                },
            }
            if self.stop_at == 0 {
                self.stop_at = -1;
                proof {
                    assert(rest.skip(1) =~= Seq::<&'a T>::empty());
                    assert(!halts::<&'a T, R>(sink.state(), rest.skip(1)));
                    assert(halts::<&'a T, R>(before, rest) == halts::<&'a T, R>(
                        sink.state(),
                        rest.skip(1),
                    ));
                    assert(old(self).interrupts());
                    assert(settled::<&'a T, R>(sink.state(), rest.skip(1)) == sink.state());
                    assert(self.pending() =~= old(self).pending().skip(self.index - start));
                }
                return (GeneratorResult::Stopped, sink);
            }
        }
        assert(self.pending() =~= old(self).pending().skip(self.index - start));
        (GeneratorResult::Complete, sink)
    }
}

} // verus!
