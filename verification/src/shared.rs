//! Shared ownership of revisions.

use vstd::prelude::*;
use std::sync::Arc;

verus! {

/// `Arc::clone`: another handle to the same value.
#[verifier::external_body]
pub(crate) fn share<T>(handle: &Arc<T>) -> (other: Arc<T>)
    ensures
        other == *handle,
{
    Arc::clone(handle)
}

/// `Arc::try_unwrap`: the value itself if this was the only handle to it,
/// else the handle back. Which of the two depends on who else holds one.
#[verifier::external_body]
pub(crate) fn sole_owner<T>(handle: Arc<T>) -> (taken: Result<T, Arc<T>>)
    ensures
        match taken {
            Ok(value) => value == *handle,
            Err(back) => back == handle,
        },
{
    Arc::try_unwrap(handle)
}

/// `Arc::ptr_eq`: whether two handles point to the same allocation. Handles
/// that do hold the same value; handles that do not may hold equal values.
#[verifier::external_body]
pub(crate) fn same_handle<T>(a: &Arc<T>, b: &Arc<T>) -> (same: bool)
    ensures
        same ==> *a == *b,
{
    Arc::ptr_eq(a, b)
}

} // verus!
