use std::sync::atomic::{AtomicBool, Ordering};
use std::sync::Arc;
use vstd::prelude::*;

verus! {

/// The two ends of a liveness signal: the monitor reports live until the
/// controller is dropped.
pub fn heartbeat() -> (r: (HeartbeatController, HeartbeatMonitor))
    ensures
        r.0.signal() == r.1.signal(),
{
    let live = Arc::new(AtomicBool::new(true));
    let c = HeartbeatController { live: Arc::clone(&live) };
    (c, HeartbeatMonitor { live })
}

/// The end whose lifetime is watched.
pub struct HeartbeatController {
    live: Arc<AtomicBool>,
}

/// The end that watches.
#[derive(Clone)]
pub struct HeartbeatMonitor {
    live: Arc<AtomicBool>,
}

impl HeartbeatController {
    /// The flag both ends share.
    pub closed spec fn signal(&self) -> Arc<AtomicBool> {
        self.live
    }
}

impl Drop for HeartbeatController {
    fn drop(&mut self)
        opens_invariants none
        no_unwind
    {
        store_release(&self.live, false);
    }
}

/// `AtomicBool::store` with `Ordering::Release`. The standard library panics
/// only for the orderings `Acquire` and `AcqRel`, so this call returns
/// normally and opens no invariant; nothing is promised of later loads,
/// which other threads may race with.
#[verifier::external_body]
pub(crate) fn store_release(flag: &AtomicBool, value: bool)
    opens_invariants none
    no_unwind
{
    flag.store(value, Ordering::Release)
}

impl HeartbeatMonitor {
    /// The flag both ends share.
    pub closed spec fn signal(&self) -> Arc<AtomicBool> {
        self.live
    }

    /// Whether the controller is still alive.
    pub fn is_live(&self) -> bool {
        self.live.load(Ordering::Acquire)
    }
}

} // verus!
