//! Cooperative cancellation for long-running parser operations.
//!
//! An application that owns cancellable jobs clones a [`ParseControl`], passes one
//! clone to the operation and calls [`ParseControl::cancel`] from another thread.
//! The operation gives up at its next check point; partial results are not returned.
use std::sync::atomic::{AtomicBool, Ordering};
use std::sync::Arc;
use vstd::prelude::*;

verus! {

/// A clonable cancellation handle.
///
/// Clones share one flag. A cancelled control stays cancelled, so each independent
/// job gets a fresh control.
#[derive(Clone, Debug)]
pub struct ParseControl {
    cancelled: Arc<AtomicBool>,
}

/// The operation was cancelled.
#[derive(Clone, Copy, PartialEq, Eq, Structural, Debug)]
pub struct ParseCancelled;

/// What a check point answers for the state of the flag that it read.
pub fn check_point(cancelled: bool) -> (r: Result<(), ParseCancelled>)
    ensures
        r is Err <==> cancelled,
{
    if cancelled {
        Err(ParseCancelled)
    } else {
        Ok(())
    }
}

/// Something that may ask a long-running operation to stop.
pub trait Stopper {
    /// Whether this may ever ask to stop.
    spec fn may_stop(&self) -> bool;

    /// Whether this always asks to stop, so that an operation gives up at its first
    /// check point.
    spec fn must_stop(&self) -> bool;

    /// Whether to stop now.
    fn stop_now(&self) -> (b: bool)
        ensures
            b ==> self.may_stop(),
            self.must_stop() ==> b,
    ;
}

/// Never asks to stop.
#[derive(Clone, Copy, Debug)]
pub struct NeverStop;

impl Stopper for NeverStop {
    open spec fn may_stop(&self) -> bool {
        false
    }

    open spec fn must_stop(&self) -> bool {
        false
    }

    fn stop_now(&self) -> (b: bool) {
        false
    }
}

/// A request to stop that was made before the operation.
#[derive(Clone, Copy, Debug)]
pub struct AlwaysStop;

impl Stopper for AlwaysStop {
    open spec fn may_stop(&self) -> bool {
        true
    }

    open spec fn must_stop(&self) -> bool {
        true
    }

    fn stop_now(&self) -> (b: bool) {
        true
    }
}

impl Stopper for ParseControl {
    /// Any thread that holds a clone can cancel.
    open spec fn may_stop(&self) -> bool {
        true
    }

    /// What the flag holds is shared with other threads, so nothing is claimed of it.
    open spec fn must_stop(&self) -> bool {
        false
    }

    fn stop_now(&self) -> (b: bool) {
        self.is_cancelled()
    }
}

impl ParseControl {
    /// A control in the running state.
    pub fn new() -> Self {
        ParseControl { cancelled: Arc::new(AtomicBool::new(false)) }
    }

    /// Requests cancellation. Doing so again changes nothing.
    ///
    /// What the flag holds is shared with other threads, so nothing is claimed here
    /// of what a later [`ParseControl::is_cancelled`] reads.
    pub fn cancel(&self) {
        self.cancelled.store(true, Ordering::Relaxed);
    }

    /// Whether cancellation has been requested.
    pub fn is_cancelled(&self) -> bool {
        self.cancelled.load(Ordering::Relaxed)
    }

    /// Gives up when cancellation has been requested.
    pub fn check(&self) -> Result<(), ParseCancelled> {
        check_point(self.is_cancelled())
    }
}

} // verus!
