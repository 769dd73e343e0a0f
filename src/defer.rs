use vstd::prelude::*;

verus! {

/// A guard that runs its closure when dropped, unless it was disarmed first.
pub struct Deferred<F: FnOnce()>(Option<F>);

impl<F: FnOnce()> Deferred<F> {
    /// A pending closure may be called.
    #[verifier::type_invariant]
    spec fn callable(self) -> bool {
        match self.0 {
            Some(f) => f.requires(()),
            None => true,
        }
    }

    /// The closure that the guard will run when dropped.
    pub closed spec fn pending(self) -> Option<F> {
        self.0
    }

    /// Drops the guard without running its closure.
    pub fn disarm(self) {
        let mut guard = self;
        guard.0 = None;
    }
}

impl<F: FnOnce()> Drop for Deferred<F> {
    /// Relies on the caller's closure: Verus holds every drop to a promise not
    /// to unwind, which it cannot show of a closure it does not see, so this
    /// body is taken on trust. The closure's precondition holds here, as `defer`
    /// admits only a closure that may be called; it unwinds only where the
    /// closure panics of itself.
    #[verifier::external_body]
    fn drop(&mut self)
        opens_invariants none
        no_unwind
    {
        if let Some(f) = self.0.take() {
            f()
        }
    }
}

/// Wraps `f` in a guard that calls it when the guard is dropped.
pub fn defer<F: FnOnce()>(f: F) -> (r: Deferred<F>)
    requires
        f.requires(()),
    ensures
        r.pending() == Some(f),
{
    Deferred(Some(f))
}

} // verus!
