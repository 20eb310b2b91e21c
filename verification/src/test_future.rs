//! A future that stays pending until its waker has been called, and then
//! completes with 200.
use vstd::prelude::*;

verus! {

pub struct TestFuture {
    pub accessed: bool,
}

/// The value a woken `TestFuture` completes with.
pub const TEST_FUTURE_OUTPUT: usize = 200;

impl TestFuture {
    /// A future whose waker has not been called yet.
    pub fn new() -> (f: Self)
        ensures
            !f.accessed,
    {
        TestFuture { accessed: false }
    }

    /// One poll: `Some(200)` once the waker has been called, `None` before
    /// (then the caller hands out a waker that calls `wake`).
    pub fn poll(&self) -> (r: Option<usize>)
        ensures
            r == (if self.accessed { Some(TEST_FUTURE_OUTPUT) } else { None::<usize> }),
    {
        if !self.accessed {
            None
        } else {
            Some(TEST_FUTURE_OUTPUT)
        }
    }

    /// What the future's waker does: marks the future as woken.
    pub fn wake(&mut self)
        ensures
            final(self).accessed,
    {
        self.accessed = true;
    }
}

} // verus!
