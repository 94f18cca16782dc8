use std::sync::atomic::{AtomicBool, Ordering};
use std::sync::Arc;
use vstd::prelude::*;

use crate::heartbeat::store_release;

verus! {

/// Cancels the work that holds its tokens when it is dropped.
pub struct CancellationGuard {
    cancelled: Arc<AtomicBool>,
}

impl CancellationGuard {
    /// The flag shared with the tokens.
    pub closed spec fn flag(&self) -> Arc<AtomicBool> {
        self.cancelled
    }

    /// A guard whose work is not cancelled yet.
    pub fn new() -> CancellationGuard {
        CancellationGuard { cancelled: Arc::new(AtomicBool::new(false)) }
    }

    /// A token that observes this guard.
    pub fn token(&self) -> (r: CancellationToken)
        ensures
            r.flag() == self.flag(),
    {
        CancellationToken { cancelled: Arc::clone(&self.cancelled) }
    }

    /// Cancels the work now, by dropping the guard.
    pub fn cancel(self) {
    }
}

impl Drop for CancellationGuard {
    fn drop(&mut self)
        opens_invariants none
        no_unwind
    {
        store_release(&self.cancelled, true);
    }
}

/// Observes whether the work was cancelled.
#[derive(Clone)]
pub struct CancellationToken {
    cancelled: Arc<AtomicBool>,
}

impl CancellationToken {
    /// The flag shared with the guard.
    pub closed spec fn flag(&self) -> Arc<AtomicBool> {
        self.cancelled
    }

    /// Whether the guard was dropped.
    pub fn is_canceled(&self) -> bool {
        self.cancelled.load(Ordering::Acquire)
    }
}

} // verus!
