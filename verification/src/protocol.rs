use vstd::prelude::*;

verus! {

/// What the host hands a guest's poll function, one item at a time.
///
/// Handles (`cancel`, `ready`) are the 32-bit representations of the host's
/// task resources; `state` values are the guest's own keys, handed out earlier
/// in a `PollOutput`.
#[derive(Clone, Copy, Debug, PartialEq, Eq, Structural)]
pub enum PollInput {
    /// The host now listens on a task the guest is waiting for.
    Listening { state: u32, cancel: u32 },
    /// A task the guest was waiting for has finished.
    Ready { state: u32, ready: u32 },
    /// The host asks the guest to cancel one of its pending tasks.
    Cancel { state: u32, cancel: u32 },
    /// A cancellation that the guest asked for has finished.
    CancelComplete(u32),
}

/// What a guest's poll function hands back to the host.
#[derive(Clone, Copy, Debug, PartialEq, Eq, Structural)]
pub enum PollOutput {
    /// A guest task has finished; `state` is the guest's key for its result.
    Ready { state: u32, ready: u32 },
    /// The guest waits for the task behind `pending`; `state` is its key.
    Listen { state: u32, pending: u32 },
    /// A guest call did not finish at once; `state` is the guest's key for it.
    Pending { state: u32, cancel: u32 },
    /// The guest no longer waits for the task behind this handle.
    Cancel(u32),
    /// The guest has finished cancelling the task behind this handle.
    CancelComplete(u32),
}

} // verus!
