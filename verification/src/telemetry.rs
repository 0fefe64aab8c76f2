use vstd::prelude::*;
use std::sync::atomic::{AtomicBool, AtomicUsize, Ordering};
use crate::search::{CancelSignal, SearchTelemetry};

verus! {

/// Telemetry that counts the visited nodes in an atomic counter, readable from other threads.
pub struct ActiveTelemetry {
    pub nodes_explored: AtomicUsize,
}

impl ActiveTelemetry {
    /// A counter at zero.
    pub fn new() -> (r: Self) {
        ActiveTelemetry { nodes_explored: AtomicUsize::new(0) }
    }

    /// The nodes counted so far.
    pub fn nodes(&self) -> usize {
        self.nodes_explored.load(Ordering::Relaxed)
    }
}

impl SearchTelemetry for ActiveTelemetry {
    fn record_node_explored(&self) {
        self.nodes_explored.fetch_add(1, Ordering::Relaxed);
    }
}

/// A flag that another thread (a timer, the user) sets to stop the search.
impl CancelSignal for AtomicBool {
    /// Another thread may set the flag at any time.
    open spec fn can_cancel(&self) -> bool {
        true
    }

    fn is_cancelled(&self) -> bool {
        self.load(Ordering::Relaxed)
    }
}

} // verus!
