use vstd::prelude::*;
use vstd::std_specs::cmp::PartialEqSpec;

verus! {

/// The type's `==` tells whether two values have the same view.
pub open spec fn compares_by_view<T: PartialEq + View>() -> bool {
    &&& T::obeys_eq_spec()
    &&& forall|a: T, b: T| #[trigger] a.eq_spec(&b) <==> a@ == b@
}

/// A clone of a value of the type has the view of the value.
pub open spec fn clones_keep_view<T: Clone + View>() -> bool {
    forall|a: T, b: T| #[trigger] cloned(a, b) ==> a@ == b@
}

} // verus!
