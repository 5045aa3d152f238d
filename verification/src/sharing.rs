//! Values shared between snapshots.
use std::sync::Arc;
use vstd::prelude::*;

verus! {

/// `Arc::clone`: the same value, held once more.
#[verifier::external_body]
pub(crate) fn share<T>(value: &Arc<T>) -> (shared: Arc<T>)
    ensures
        shared == *value,
{
    Arc::clone(value)
}

/// `Arc::get_mut`: access to a value that nothing else holds.
#[verifier::external_body]
pub(crate) fn unshared<T>(value: &mut Arc<T>) -> (owned: Option<&mut T>)
    ensures
        match owned {
            Some(inner) => *inner == **old(value) && **final(value) == *final(inner),
            None => *final(value) == *old(value),
        },
{
    Arc::get_mut(value)
}

/// `Arc::ptr_eq`: two holders of one allocation hold the same value.
#[verifier::external_body]
pub(crate) fn same_allocation<T>(a: &Arc<T>, b: &Arc<T>) -> (same: bool)
    ensures
        same ==> *a == *b,
{
    Arc::ptr_eq(a, b)
}

} // verus!
