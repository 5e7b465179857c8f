//! Values with more than one owner.
use std::sync::Arc;
use vstd::prelude::*;

verus! {

/// `Arc::clone` gives another pointer to the same value.
#[verifier::external_body]
pub(crate) fn share<T>(value: &Arc<T>) -> (r: Arc<T>)
    ensures
        *r == **value,
{
    Arc::clone(value)
}

/// `Arc::make_mut` gives access to the value, or to a clone of it where it has another owner; what
/// is written there is the value from then on.
#[verifier::external_body]
pub(crate) fn make_mut<T: Clone>(value: &mut Arc<T>) -> (r: &mut T)
    ensures
        cloned::<T>(**old(value), *r),
        **final(value) == *final(r),
{
    Arc::make_mut(value)
}

} // verus!
