//! The group whose elements serve as digests.

use crate::natural::Natural;
use vstd::prelude::*;

verus! {

/// A set with an associative operation, of which only repetition is needed here.
pub trait SemiGroup: Sized {
    /// The elements.
    type Elem: Clone;

    /// Combines `e` times the element `b`.
    fn power(&self, b: &Self::Elem, e: &Natural) -> Self::Elem;
}

/// Whether a group may return `r` for the power of `b` by `e`.
pub open spec fn is_power<G: SemiGroup>(group: G, b: G::Elem, e: Natural, r: G::Elem) -> bool {
    call_ensures(G::power, (&group, &b, &e), r)
}

/// Whether a group returns for each power what a function says, which depends on the value of the
/// exponent alone.
pub open spec fn has_powers<G: SemiGroup>(
    group: G,
    power: spec_fn(G::Elem, nat) -> G::Elem,
) -> bool {
    forall|b: G::Elem, e: Natural, r: G::Elem|
        #[trigger] is_power(group, b, e, r) ==> r == power(b, e@)
}

/// Whether to raise an element to one power and then to another is to raise it to their product.
pub open spec fn powers_compose<E>(power: spec_fn(E, nat) -> E) -> bool {
    forall|b: E, m: nat, n: nat| #[trigger] power(power(b, m), n) == power(b, m * n)
}

} // verus!
