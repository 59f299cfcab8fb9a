use std::sync::atomic::{AtomicBool, Ordering};
use std::sync::Arc;
use vstd::prelude::*;

verus! {

/// A handle that can set the cancellation flag of an execution context.
///
/// The flag is shared: every clone of the `Arc` reads the same value, and the
/// handle can only ever set it, never clear it.
#[derive(Debug, Default)]
pub struct Canceller {
    /// A reference to the cancelled value of a context.
    cancelled: Arc<AtomicBool>,
}

impl Canceller {
    /// The shared flag this handle sets.
    pub closed spec fn flag(&self) -> Arc<AtomicBool> {
        self.cancelled
    }

    /// Wraps the shared flag of a context.
    pub fn new(cancelled: Arc<AtomicBool>) -> (r: Canceller)
        ensures
            r.flag() == cancelled,
    {
        Canceller { cancelled }
    }

    /// Sets the shared flag; idempotent, and never fails.
    pub fn cancel(&self) {
        self.cancelled.store(true, Ordering::Relaxed);
    }

    /// Whether the shared flag has been set.
    pub fn is_cancelled(&self) -> bool {
        self.cancelled.load(Ordering::Relaxed)
    }
}

} // verus!
