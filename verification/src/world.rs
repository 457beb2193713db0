use vstd::prelude::*;

verus! {

/// A guest world whose exported calls may finish later; it holds the
/// world's exports.
pub struct OriginalWorldAsync<G>(pub G);

/// The exports of a guest world, called through the protocol: a call
/// either replies at once or hands back a pending handle, after whose ready
/// handle its result is collected.
pub struct Guest<'a, G>(pub &'a G);

/// What a call through `Guest` has just learned.
pub enum CallEvent<R> {
    /// The first call replied: a result, or the handle of a pending task.
    Replied(Result<R, u32>),
    /// The pending task finished; this is its ready handle.
    Ready(u32),
}

/// What a call through `Guest` does next.
pub enum CallAction<R> {
    /// Return this result to the caller.
    Return(R),
    /// Wait for the task behind this pending handle.
    AwaitReady(u32),
    /// Collect the result through this ready handle.
    CollectResult(u32),
}

impl<G> OriginalWorldAsync<G> {
    /// The world's exports, to call through the protocol.
    pub fn component_guest_original_interface_async(&self) -> (r: Guest<'_, G>)
        ensures
            *r.0 == self.0,
    {
        Guest(&self.0)
    }
}

impl<'a, G> Guest<'a, G> {
    /// Decides the next step of a call: a reply with a result is returned,
    /// a pending reply is waited for, and a finished task's result is
    /// collected through its ready handle.
    pub fn next_action<R>(&self, event: CallEvent<R>) -> (a: CallAction<R>)
        ensures
            match event {
                CallEvent::Replied(Ok(r)) => a == CallAction::Return(r),
                CallEvent::Replied(Err(pending)) => a == CallAction::<R>::AwaitReady(pending),
                CallEvent::Ready(ready) => a == CallAction::<R>::CollectResult(ready),
            },
    {
        match event {
            CallEvent::Replied(Ok(r)) => CallAction::Return(r),
            CallEvent::Replied(Err(pending)) => CallAction::AwaitReady(pending),
            CallEvent::Ready(ready) => CallAction::CollectResult(ready),
        }
    }
}

} // verus!
