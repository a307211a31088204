//! Per-thread scratch storage for the score matrices.
//!
//! Each calling thread lazily owns one pair of growable cell buffers; the
//! matchers borrow a buffer for the duration of one call and may hand it
//! back afterwards, so capacity grows to the high-water mark of inputs seen
//! by that thread. Nothing is promised about a buffer's contents: the
//! matrices overwrite every cell they read.
use vstd::prelude::*;

use std::cell::RefCell;
use thread_local::ThreadLocal;

use crate::v2::MatrixCell;

verus! {

#[verifier::external_type_specification]
#[verifier::external_body]
#[verifier::reject_recursive_types(T)]
pub struct ExThreadLocal<T: Send>(ThreadLocal<T>);

#[verifier::external_type_specification]
#[verifier::external_body]
#[verifier::reject_recursive_types(T)]
pub struct ExRefCell<T: ?Sized>(RefCell<T>);

/// Relies on thread_local::ThreadLocal::new: a store with no per-thread
/// values yet.
#[verifier::external_body]
pub(crate) fn scratch_new() -> ThreadLocal<RefCell<Vec<MatrixCell>>> {
    ThreadLocal::new()
}

/// Relies on thread_local::ThreadLocal::get_or_default and
/// std::cell::RefCell::replace: hands out the calling thread's scratch
/// buffer, leaving an empty one in its place.
#[verifier::external_body]
pub(crate) fn scratch_take(cache: &ThreadLocal<RefCell<Vec<MatrixCell>>>) -> Vec<MatrixCell> {
    cache.get_or_default().replace(Vec::new())
}

/// Relies on thread_local::ThreadLocal::get_or_default and
/// std::cell::RefCell::replace: stores the buffer as the calling thread's
/// scratch, releasing whatever it held.
#[verifier::external_body]
pub(crate) fn scratch_put(cache: &ThreadLocal<RefCell<Vec<MatrixCell>>>, buf: Vec<MatrixCell>) {
    let _ = cache.get_or_default().replace(buf);
}

} // verus!
