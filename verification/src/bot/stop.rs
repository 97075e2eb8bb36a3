use std::sync::atomic::{AtomicBool, Ordering};
use std::sync::Arc;

use vstd::prelude::*;

verus! {

/// A cooperative cancellation signal shared between a bot and the thread
/// that runs it: a thin wrapper over `Arc<AtomicBool>`. Searching bots poll
/// [`StopFlag::should_stop`] and wind down once it is raised; instant bots
/// ignore it. Another thread can raise it at any moment, so nothing is
/// promised about what a poll reads.
#[derive(Debug, Clone)]
pub struct StopFlag {
    flag: Arc<AtomicBool>,
}

impl StopFlag {
    /// A lowered flag.
    pub fn new() -> (r: Self) {
        StopFlag { flag: Arc::new(AtomicBool::new(false)) }
    }

    /// Raises the flag.
    pub fn stop(&self) {
        self.flag.store(true, Ordering::SeqCst);
    }

    /// Whether the flag has been raised.
    pub fn should_stop(&self) -> (r: bool) {
        self.flag.load(Ordering::SeqCst)
    }
}

} // verus!
