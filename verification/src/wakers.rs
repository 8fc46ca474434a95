//! Task wakers, as handed out by the standard library's task machinery.

use vstd::prelude::*;

verus! {

/// The standard library's task waker. Nothing inside it is visible to proofs:
/// the library only stores wakers and fires them.
#[verifier::external_type_specification]
#[verifier::external_body]
pub struct ExWaker(std::task::Waker);

/// Fires a waker, consuming it (`Waker::wake`). What waking does is up to the
/// executor that made the waker; nothing is stated of it.
#[verifier::external_body]
pub(crate) fn wake(waker: std::task::Waker) {
    waker.wake()
}

/// Fires a waker without consuming it (`Waker::wake_by_ref`). Nothing is
/// stated of the effect.
#[verifier::external_body]
pub(crate) fn wake_by_ref(waker: &std::task::Waker) {
    waker.wake_by_ref()
}

/// A new handle to the same task (`Waker::clone`). Wakers are opaque here, so
/// nothing is stated of the copy.
#[verifier::external_body]
pub(crate) fn clone_waker(waker: &std::task::Waker) -> std::task::Waker {
    waker.clone()
}

/// Overwrites `target` with a handle to the task of `source`
/// (`Waker::clone_from`). Nothing is stated of the result.
#[verifier::external_body]
pub(crate) fn clone_waker_into(target: &mut std::task::Waker, source: &std::task::Waker) {
    target.clone_from(source)
}

} // verus!
