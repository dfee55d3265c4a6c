//! A yes-or-no state that other threads can watch.

use std::sync::atomic::{AtomicBool, Ordering};
use std::sync::Arc;

use vstd::prelude::*;

verus! {

/// A flag that is shared with its handles, opaque to the proofs.
///
/// The proofs speak of the value that was last stored through this struct. Any
/// holder of a handle could store another value, so what a handle reads is not
/// claimed.
#[verifier::external_body]
#[derive(Debug)]
pub struct ActiveFlag {
    shared: Arc<AtomicBool>,
}

/// The value that was last handed to the atomic through `flag`: `false` when it
/// was created, and what was given to `AtomicBool::store` after that.
pub uninterp spec fn last_stored(flag: ActiveFlag) -> bool;

/// The atomic behind `flag`, which all its handles share.
pub uninterp spec fn shared_atomic(flag: ActiveFlag) -> Arc<AtomicBool>;

impl View for ActiveFlag {
    type V = bool;

    /// The value that was stored last.
    open spec fn view(&self) -> bool {
        last_stored(*self)
    }
}

impl ActiveFlag {
    /// The atomic that all handles share.
    pub open spec fn shared(&self) -> Arc<AtomicBool> {
        shared_atomic(*self)
    }

    /// `Arc::default`: a new atomic with the default value of `AtomicBool`,
    /// which is `false`.
    #[verifier::external_body]
    fn create() -> (flag: ActiveFlag)
        ensures
            last_stored(flag) == false,
    {
        ActiveFlag { shared: Arc::default() }
    }

    /// `AtomicBool::store`, with release ordering: the atomic is given `value`,
    /// and it is the same atomic as before.
    #[verifier::external_body]
    fn store(&mut self, value: bool)
        ensures
            last_stored(*final(self)) == value,
            shared_atomic(*final(self)) == shared_atomic(*old(self)),
    {
        self.shared.store(value, Ordering::Release);
    }

    /// `Arc::clone`: one more owner of the same atomic.
    #[verifier::external_body]
    fn share(&self) -> (handle: Arc<AtomicBool>)
        ensures
            handle == shared_atomic(*self),
    {
        self.shared.clone()
    }

    /// A new flag that was given `false`.
    pub fn new() -> (flag: ActiveFlag)
        ensures
            flag@ == false,
    {
        ActiveFlag::create()
    }

    /// A handle to the flag, for reading it elsewhere.
    pub fn handle(&self) -> (handle: Arc<AtomicBool>)
        ensures
            handle == self.shared(),
    {
        self.share()
    }

    /// Stores `value` for every handle to see.
    pub fn set(&mut self, value: bool)
        ensures
            final(self)@ == value,
            final(self).shared() == old(self).shared(),
    {
        self.store(value);
    }
}

} // verus!
