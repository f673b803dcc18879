//! Cooperative cancellation of a compilation, and how a cancellable
//! compilation fails.

use std::sync::atomic::{AtomicBool, Ordering};
use std::sync::Arc;
use vstd::prelude::*;

verus! {

/// A flag shared by the clones of one token: the compiling thread polls it at
/// its checkpoints, any holder may set it.
#[derive(Clone)]
pub struct CancellationToken {
    cancelled: Arc<AtomicBool>,
}

impl CancellationToken {
    /// A token not cancelled yet, shared with no other.
    pub fn new() -> Self {
        CancellationToken { cancelled: Arc::new(AtomicBool::new(false)) }
    }

    /// Sets the flag, for this token and all its clones.
    pub fn cancel(&self) {
        self.cancelled.store(true, Ordering::SeqCst);
    }

    /// Whether the flag is set.
    pub fn is_cancelled(&self) -> bool {
        self.cancelled.load(Ordering::SeqCst)
    }
}

/// How a cancellable compilation fails.
#[derive(Debug, Clone, Copy, PartialEq, Eq, Structural)]
pub enum CompileError {
    /// It was cancelled.
    Cancelled,
    /// It reported errors.
    CompilationFailed,
}

} // verus!
