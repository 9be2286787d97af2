//! The worker pool capability: a fixed set of workers sharing a queue
//! of jobs. Implementations live with the thread plumbing outside the
//! verified library; the size rule is checked here.

use vstd::prelude::*;

use crate::error::Error;

verus! {

/// A fixed-capacity worker pool.
pub trait ThreadPool: Sized {
    /// A pool of `threads` workers; zero workers is refused.
    fn new(threads: u32) -> Result<Self, Error>;

    /// Enqueues a job to run on some worker eventually. The caller gets
    /// no completion signal and no ordering promise.
    fn spawn<F>(&self, job: F) where F: FnOnce() + Send + 'static;
}

/// The one configuration rule a pool must apply: a pool must have at
/// least one worker.
pub fn check_pool_size(threads: u32) -> (r: Result<u32, Error>)
    ensures
        r == if threads == 0 {
            Err::<u32, Error>(Error::ZeroSizedPool)
        } else {
            Ok::<u32, Error>(threads)
        },
{
    if threads == 0 {
        Err(Error::ZeroSizedPool)
    } else {
        Ok(threads)
    }
}

} // verus!
