use vstd::prelude::*;

verus! {

/// Error enumeration for the failure cases of the producer, consumer and runtime APIs.
#[derive(Debug, Clone, Copy, PartialEq, Eq, Structural)]
pub enum Error {
    /// Catch-all for recoverable invariant violations: bad parameters, unknown
    /// instance, binding mismatch.
    Fail,
    /// An asynchronous receive ran out of time.
    Timeout,
    /// No slot could be handed to the producer.
    AllocateFailed,
    /// No transaction log is left for a new subscriber, or the service is gone.
    SubscribeFailed,
}

} // verus!
