//! The comparison that places values in the tree, as a relation in
//! specifications.

use vstd::prelude::*;
use vstd::std_specs::cmp::PartialOrdIs;
use vstd::std_specs::cmp::PartialOrdSpec;

verus! {

/// `a > b`, as the type's `PartialOrd` defines it.
pub open spec fn exceeds<T: PartialOrd>(a: T, b: T) -> bool {
    a.is_gt(&b)
}

/// Whether the executable comparison of `T` is known to agree with its
/// specification, so that `a > b` computes `exceeds(a, b)`.
pub open spec fn comparison_is_specified<T: PartialOrd>() -> bool {
    T::obeys_partial_cmp_spec()
}

/// `>` is asymmetric and transitive on `T`.
pub open spec fn is_strict_order<T: PartialOrd>() -> bool {
    &&& forall|a: T, b: T| #[trigger] exceeds(a, b) ==> !exceeds(b, a)
    &&& forall|a: T, b: T, c: T|
        #[trigger] exceeds(a, b) && #[trigger] exceeds(b, c) ==> exceeds(a, c)
}

/// `>` is a strict weak order on `T`: a strict order in which, besides,
/// `a > b` leaves every `c` with `a > c` or `c > b`. Values of which neither
/// is greater than the other then form classes of equals.
pub open spec fn is_weak_order<T: PartialOrd>() -> bool {
    &&& is_strict_order::<T>()
    &&& forall|a: T, b: T, c: T|
        #![trigger exceeds(a, b), exceeds(a, c)]
        #![trigger exceeds(a, b), exceeds(c, b)]
        exceeds(a, b) ==> exceeds(a, c) || exceeds(c, b)
}

} // verus!
