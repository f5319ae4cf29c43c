//! What all optimizers share: gradients are clipped, then values are updated.

use vstd::prelude::*;

use crate::numbers::Arithmetic;
use crate::optimizers::clipping::{clipped, clips, ClippingStrategy};
use crate::optimizers::rule::{can_step, grads_match, grads_of, matches_data, values_of};
use crate::param::{same_shape, Param};

verus! {

/// Whether two lists of matrices have the same shapes.
pub open spec fn same_shapes<T, U>(a: Seq<Seq<Seq<T>>>, b: Seq<Seq<Seq<U>>>) -> bool {
    a.len() == b.len() && forall|k: int| 0 <= k < a.len() ==> same_shape(a[k], #[trigger] b[k])
}

/// Clipping keeps the shapes of the gradients.
pub proof fn law_clipping_keeps_shapes<N: Arithmetic>(
    n: &N,
    strategy: ClippingStrategy<N::Num>,
    grads: Seq<Seq<Seq<N::Num>>>,
)
    ensures
        same_shapes(grads, clipped(n, strategy, grads)),
{
}

/// Where there was a gradient for every value there is one in gradients of the same shapes.
pub proof fn lemma_shapes_match<T>(
    values: Seq<Seq<Seq<T>>>,
    before: Seq<Seq<Seq<T>>>,
    after: Seq<Seq<Seq<T>>>,
)
    requires
        grads_match(values, before),
        same_shapes(before, after),
    ensures
        grads_match(values, after),
{
    assert forall|k: int| 0 <= k < values.len() implies matches_data(values[k], #[trigger] after[k]) by {
        assert(matches_data(values[k], before[k]) && same_shape(before[k], after[k]));
        assert forall|i: int| 0 <= i < values[k].len() implies (#[trigger] after[k][i]).len() >= values[k][i].len() by {
            assert(before[k][i].len() == after[k][i].len());
        }
    }
}

/// Where a step could be taken it can be taken with gradients of the same shapes.
pub proof fn lemma_shapes_step<T, S>(
    slots: Seq<Seq<Seq<S>>>,
    values: Seq<Seq<Seq<T>>>,
    before: Seq<Seq<Seq<T>>>,
    after: Seq<Seq<Seq<T>>>,
)
    requires
        can_step(slots, values, before),
        same_shapes(before, after),
    ensures
        can_step(slots, values, after),
{
    lemma_shapes_match(values, before, after);
}

/// A way to learn from gradients. The optimizer owns what it remembers and how it clips; the
/// parameters own values and gradients.
pub trait Optimizer<N: Arithmetic>: Sized {
    /// Whether these values can be updated with these gradients.
    spec fn can_update(&self, values: Seq<Seq<Seq<N::Num>>>, grads: Seq<Seq<Seq<N::Num>>>) -> bool;

    /// The values after an update.
    spec fn updated(
        &self,
        n: &N,
        values: Seq<Seq<Seq<N::Num>>>,
        grads: Seq<Seq<Seq<N::Num>>>,
    ) -> Seq<Seq<Seq<N::Num>>>;

    /// Whether `next` is the optimizer after an update.
    spec fn becomes(
        &self,
        n: &N,
        values: Seq<Seq<Seq<N::Num>>>,
        grads: Seq<Seq<Seq<N::Num>>>,
        next: Self,
    ) -> bool;

    /// Only the shapes of the gradients decide whether values can be updated.
    proof fn lemma_shapes_decide(
        &self,
        values: Seq<Seq<Seq<N::Num>>>,
        before: Seq<Seq<Seq<N::Num>>>,
        after: Seq<Seq<Seq<N::Num>>>,
    )
        requires
            self.can_update(values, before),
            same_shapes(before, after),
        ensures
            self.can_update(values, after),
    ;

    /// Updates the values with the gradients as they are. The gradients stay.
    fn update(&mut self, n: &N, params: &mut Vec<&mut Param<N::Num>>)
        requires
            n.wf(),
            old(self).can_update(values_of(old(params)@), grads_of(old(params)@)),
        ensures
            final(params)@.len() == old(params)@.len(),
            forall|k: int|
                0 <= k < old(params)@.len() ==> *final(#[trigger] final(params)@[k]) == *final(old(params)@[k]),
            grads_of(final(params)@) == grads_of(old(params)@),
            values_of(final(params)@) == old(self).updated(n, values_of(old(params)@), grads_of(old(params)@)),
            old(self).becomes(n, values_of(old(params)@), grads_of(old(params)@), *final(self)),
    ;

    /// How this optimizer keeps gradients in bounds: not at all, unless it says otherwise.
    fn clipping(&self, n: &N) -> (r: &ClippingStrategy<N::Num>)
        default_ensures
            *r == ClippingStrategy::<N::Num>::Off,
    {
        &ClippingStrategy::Off
    }

    /// Clips the gradients by the strategy that `clipping` gives and updates the values with what is
    /// left of them. Every parameter is changed where it stands.
    fn step(&mut self, n: &N, params: &mut Vec<&mut Param<N::Num>>)
        requires
            n.wf(),
            old(self).can_update(values_of(old(params)@), grads_of(old(params)@)),
            forall|s: &ClippingStrategy<N::Num>| #[trigger]
                call_ensures(Self::clipping, (&*old(self), n), s) ==> clips(n, *s, grads_of(old(params)@)),
        ensures
            final(params)@.len() == old(params)@.len(),
            forall|k: int|
                0 <= k < old(params)@.len() ==> *final(#[trigger] final(params)@[k]) == *final(old(params)@[k]),
            exists|s: &ClippingStrategy<N::Num>| #[trigger]
                call_ensures(Self::clipping, (&*old(self), n), s) && ({
                    let values = values_of(old(params)@);
                    let grads = clipped(n, *s, grads_of(old(params)@));
                    &&& grads_of(final(params)@) == grads
                    &&& values_of(final(params)@) == old(self).updated(n, values, grads)
                    &&& old(self).becomes(n, values, grads, *final(self))
                }),
    {
        let ghost values = values_of(params@);
        let ghost grads = grads_of(params@);
        let strategy = self.clipping(n);
        let ghost by = *strategy;
        assert(call_ensures(Self::clipping, (&*old(self), n), strategy));
        strategy.apply(n, params);
        proof {
            law_clipping_keeps_shapes(n, by, grads);
            self.lemma_shapes_decide(values, grads, clipped(n, by, grads));
        }
        self.update(n, params);
        assert(call_ensures(Self::clipping, (&*old(self), n), &by));
    }
}

} // verus!
