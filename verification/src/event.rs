//! How terminal sessions reach the UI.

use vstd::prelude::*;

verus! {

/// Schedules a repaint on the UI thread; the app implements it with its
/// toolkit's repaint request.
pub trait Waker: Send + Sync {
    fn wake(&self);
}

/// A waker that does nothing, for headless use.
pub struct NoopWaker;

impl Waker for NoopWaker {
    fn wake(&self) {
    }
}

} // verus!
