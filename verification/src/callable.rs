use vstd::prelude::*;

verus! {

/// A test on values whose answer depends on the value alone.
///
/// Closures implement it. A caller that wants a proof about a chain writes a
/// type of its own and says in `holds` what the test decides.
pub trait Predicate<T> {
    /// Whether the predicate can be called on every value and answers as
    /// `holds` says.
    spec fn sound(&self) -> bool;

    /// Whether the predicate holds of `value`.
    spec fn holds(&self, value: T) -> bool;

    /// Tests `value`.
    fn test(&self, value: &T) -> (res: bool)
        requires
            self.sound(),
        ensures
            res == self.holds(*value),
    ;
}

/// A function on values whose result depends on the value alone.
///
/// Closures implement it. A caller that wants a proof about a chain writes a
/// type of its own and says in `image` what the function computes.
pub trait Mapper<In, Out> {
    /// Whether the function can be called on every value and returns what
    /// `image` says.
    spec fn sound(&self) -> bool;

    /// The image of `value`.
    spec fn image(&self, value: In) -> Out;

    /// Computes the image of `value`.
    fn apply(&self, value: &In) -> (res: Out)
        requires
            self.sound(),
        ensures
            res == self.image(*value),
    ;
}

/// A function that folds a value into an accumulator, with a result that
/// depends on the two alone.
///
/// Closures implement it. A caller that wants a proof about a fold writes a
/// type of its own and says in `combine` what the function computes.
pub trait Combiner<B, T> {
    /// Whether the function can be called on every accumulator and value and
    /// returns what `combine` says.
    spec fn sound(&self) -> bool;

    /// The accumulator after `value` has been folded into `acc`.
    spec fn combine(&self, acc: B, value: T) -> B;

    /// Folds `value` into `acc`.
    fn merge(&self, acc: B, value: T) -> (res: B)
        requires
            self.sound(),
        ensures
            res == self.combine(acc, value),
    ;
}

/// A closure is a predicate: it holds of the values for which it can answer
/// `true`, and is sound where it can be called on every value and never
/// answers both ways.
impl<T, F: Fn(&T) -> bool> Predicate<T> for F {
    open spec fn sound(&self) -> bool {
        &&& forall|value: T| #[trigger] call_requires(*self, (&value,))
        &&& forall|value: T|
            !(#[trigger] call_ensures(*self, (&value,), true) && call_ensures(
                *self,
                (&value,),
                false,
            ))
    }

    open spec fn holds(&self, value: T) -> bool {
        call_ensures(*self, (&value,), true)
    }

    fn test(&self, value: &T) -> (res: bool) {
        self(value)
    }
}

/// A closure is a mapper: the image of a value is what it returns for it, and
/// it is sound where it can be called on every value and returns one result
/// for each.
impl<In, Out, F: Fn(&In) -> Out> Mapper<In, Out> for F {
    open spec fn sound(&self) -> bool {
        &&& forall|value: In| #[trigger] call_requires(*self, (&value,))
        &&& forall|value: In, one: Out, other: Out|
            #[trigger] call_ensures(*self, (&value,), one) && #[trigger] call_ensures(
                *self,
                (&value,),
                other,
            ) ==> one == other
    }

    open spec fn image(&self, value: In) -> Out {
        choose|out: Out| call_ensures(*self, (&value,), out)
    }

    fn apply(&self, value: &In) -> (res: Out) {
        self(value)
    }
}

/// A closure is a combiner: it combines an accumulator and a value to what
/// it returns for them, and is sound where it can be called on every pair and
/// returns one result for each.
impl<B, T, F: Fn(B, T) -> B> Combiner<B, T> for F {
    open spec fn sound(&self) -> bool {
        &&& forall|acc: B, value: T| #[trigger] call_requires(*self, (acc, value))
        &&& forall|acc: B, value: T, one: B, other: B|
            #[trigger] call_ensures(*self, (acc, value), one) && #[trigger] call_ensures(
                *self,
                (acc, value),
                other,
            ) ==> one == other
    }

    open spec fn combine(&self, acc: B, value: T) -> B {
        choose|out: B| call_ensures(*self, (acc, value), out)
    }

    fn merge(&self, acc: B, value: T) -> (res: B) {
        self(acc, value)
    }
}

/// A closure that can be called on every value and never answers both ways
/// is a sound predicate, and holds of exactly the values for which it can
/// answer `true`.
pub proof fn lemma_closure_predicate<T, F: Fn(&T) -> bool>(f: F)
    requires
        forall|value: T| #[trigger] call_requires(f, (&value,)),
        forall|value: T|
            !(#[trigger] call_ensures(f, (&value,), true) && call_ensures(f, (&value,), false)),
    ensures
        Predicate::<T>::sound(&f),
        forall|value: T| #[trigger] Predicate::<T>::holds(&f, value) == call_ensures(
            f,
            (&value,),
            true,
        ),
{
}

/// A closure that can be called on every value and returns one result for
/// each is a sound mapper, and the image of a value is any result that the
/// closure can return for it.
pub proof fn lemma_closure_mapper<In, Out, F: Fn(&In) -> Out>(f: F)
    requires
        forall|value: In| #[trigger] call_requires(f, (&value,)),
        forall|value: In, one: Out, other: Out|
            #[trigger] call_ensures(f, (&value,), one) && #[trigger] call_ensures(
                f,
                (&value,),
                other,
            ) ==> one == other,
    ensures
        Mapper::<In, Out>::sound(&f),
        forall|value: In, out: Out| #[trigger]
            call_ensures(f, (&value,), out) ==> Mapper::<In, Out>::image(&f, value) == out,
{
}

/// A closure that can be called on every accumulator and value and returns
/// one result for each pair is a sound combiner, and combines a pair to any
/// result that the closure can return for it.
pub proof fn lemma_closure_combiner<B, T, F: Fn(B, T) -> B>(f: F)
    requires
        forall|acc: B, value: T| #[trigger] call_requires(f, (acc, value)),
        forall|acc: B, value: T, one: B, other: B|
            #[trigger] call_ensures(f, (acc, value), one) && #[trigger] call_ensures(
                f,
                (acc, value),
                other,
            ) ==> one == other,
    ensures
        Combiner::<B, T>::sound(&f),
        forall|acc: B, value: T, out: B| #[trigger]
            call_ensures(f, (acc, value), out) ==> Combiner::<B, T>::combine(&f, acc, value)
                == out,
{
}

} // verus!
