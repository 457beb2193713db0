use vstd::prelude::*;
use crate::host::{released, HostError, IsyswasfaCtx};
use crate::protocol::{PollInput, PollOutput};
use crate::task::{HostValue, StatePoll, TaskState, TaskStateView, TaskStatus, TaskView};
use std::collections::HashMap;

verus! {

broadcast use vstd::std_specs::hash::group_hash_axioms;

/// The state of a host that waits for one guest task to finish: the task's
/// pending handle, the ready handle once the guest has reported it, and the
/// inputs queued for each poll function, by its index.
pub struct AwaitView {
    pub pending: u32,
    pub result: Option<u32>,
    pub inputs: Map<usize, Seq<PollInput>>,
}

/// The queues after `input` was appended to the queue of poll function
/// `poll`.
pub open spec fn enqueue(inputs: Map<usize, Seq<PollInput>>, poll: usize, input: PollInput) -> Map<
    usize,
    Seq<PollInput>,
> {
    inputs.insert(
        poll,
        if inputs.contains_key(poll) {
            inputs[poll].push(input)
        } else {
            seq![input]
        },
    )
}

/// The handle of the task that a poll output is about.
pub open spec fn output_handle(output: PollOutput) -> u32 {
    match output {
        PollOutput::Ready { ready, .. } => ready,
        PollOutput::Listen { pending, .. } => pending,
        PollOutput::Pending { cancel, .. } => cancel,
        PollOutput::Cancel(cancel) => cancel,
        PollOutput::CancelComplete(cancel) => cancel,
    }
}

/// The outputs that the host can act on: a guest that reports a pending call
/// reports it for a guest task; a guest that cancels or finishes cancelling
/// a wait does so for a task that it listens to, and does not cancel a guest
/// task that finished or one whose cancellation has nowhere to go.
pub open spec fn output_ok(tasks: Map<u32, TaskView>, pending: u32, output: PollOutput) -> bool {
    match output {
        PollOutput::Pending { cancel, .. } => cancel != pending && tasks.contains_key(cancel)
            ==> tasks[cancel].state is GuestPending,
        PollOutput::Cancel(cancel) => tasks.contains_key(cancel) ==> {
            &&& tasks[cancel].listen is Some
            &&& !(tasks[cancel].state is GuestReady)
            &&& (tasks[cancel].state matches TaskStateView::GuestPending { on_cancel }
                ==> on_cancel is Some)
        },
        PollOutput::CancelComplete(cancel) => tasks.contains_key(cancel)
            ==> tasks[cancel].listen is Some,
        _ => true,
    }
}

/// What the host makes of one output of poll function `index`, while it
/// waits for the task behind `aw.pending`: how the tasks change and which
/// inputs it queues for which poll function. A wait cancelled on a guest
/// task becomes a cancel input for the poll function that runs the task,
/// under the key that poll function gave the task in its pending output,
/// since that is the key it reads a cancel input by.
pub open spec fn after_output(
    tasks: Map<u32, TaskView>,
    aw: AwaitView,
    index: usize,
    output: PollOutput,
) -> (Map<u32, TaskView>, AwaitView) {
    match output {
        PollOutput::Ready { state, ready } => {
            let finished = TaskView { state: TaskStateView::GuestReady { state }, ..tasks[ready] };
            if ready == aw.pending {
                (tasks.insert(ready, finished), AwaitView { result: Some(ready), ..aw })
            } else if tasks[ready].listen is Some {
                let listen = tasks[ready].listen->0;
                (
                    tasks,
                    AwaitView {
                        inputs: enqueue(
                            aw.inputs,
                            listen.poll,
                            PollInput::Ready { state: listen.state, ready },
                        ),
                        ..aw
                    },
                )
            } else {
                (tasks.insert(ready, finished), aw)
            }
        },
        PollOutput::Listen { state, pending } => {
            let listened = tasks.insert(
                pending,
                TaskView { listen: Some(StatePoll { state, poll: index }), ..tasks[pending] },
            );
            let listening = PollInput::Listening { state, cancel: pending };
            let ready = PollInput::Ready { state, ready: pending };
            match tasks[pending].state {
                TaskStateView::HostPending { .. } => (
                    listened,
                    AwaitView { inputs: enqueue(aw.inputs, index, listening), ..aw },
                ),
                TaskStateView::HostReady { .. } => (
                    listened,
                    AwaitView { inputs: enqueue(aw.inputs, index, ready), ..aw },
                ),
                TaskStateView::GuestPending { on_cancel } => if on_cancel is Some {
                    (listened, AwaitView { inputs: enqueue(aw.inputs, index, listening), ..aw })
                } else {
                    (released(listened, pending), aw)
                },
                TaskStateView::GuestReady { .. } => (
                    listened,
                    AwaitView { inputs: enqueue(aw.inputs, index, ready), ..aw },
                ),
            }
        },
        PollOutput::Pending { state, cancel } => {
            if cancel == aw.pending {
                (released(tasks, cancel), aw)
            } else {
                let recorded = tasks.insert(
                    cancel,
                    TaskView {
                        state: TaskStateView::GuestPending {
                            on_cancel: Some(StatePoll { state, poll: index }),
                        },
                        ..tasks[cancel]
                    },
                );
                if tasks[cancel].listen is Some {
                    let listen = tasks[cancel].listen->0;
                    (
                        recorded,
                        AwaitView {
                            inputs: enqueue(
                                aw.inputs,
                                listen.poll,
                                PollInput::Listening { state: listen.state, cancel },
                            ),
                            ..aw
                        },
                    )
                } else {
                    (recorded, aw)
                }
            }
        },
        PollOutput::Cancel(cancel) => {
            let listen = tasks[cancel].listen->0;
            let complete = AwaitView {
                inputs: enqueue(aw.inputs, listen.poll, PollInput::CancelComplete(listen.state)),
                ..aw
            };
            match tasks[cancel].state {
                TaskStateView::HostPending { .. } => (
                    released(
                        tasks.insert(
                            cancel,
                            TaskView {
                                state: TaskStateView::HostPending { cancel: None },
                                ..tasks[cancel]
                            },
                        ),
                        cancel,
                    ),
                    complete,
                ),
                TaskStateView::HostReady { .. } => (released(tasks, cancel), complete),
                TaskStateView::GuestPending { on_cancel } => (
                    tasks,
                    AwaitView {
                        inputs: enqueue(
                            aw.inputs,
                            on_cancel->0.poll,
                            PollInput::Cancel { state: on_cancel->0.state, cancel },
                        ),
                        ..aw
                    },
                ),
                TaskStateView::GuestReady { .. } => (tasks, aw),
            }
        },
        PollOutput::CancelComplete(cancel) => {
            let listen = tasks[cancel].listen->0;
            (
                tasks,
                AwaitView {
                    inputs: enqueue(
                        aw.inputs,
                        listen.poll,
                        PollInput::CancelComplete(listen.state),
                    ),
                    ..aw
                },
            )
        },
    }
}

/// What waiting for host calls gave.
pub enum HostEvent {
    /// The host call of the task under the given key finished with a result.
    Finished(u32, HostValue),
    /// No host call is left to wait for.
    Ended,
}

/// What to do next while waiting for a guest task.
#[derive(Clone, Copy, Debug, PartialEq, Eq, Structural)]
pub enum AwaitStep {
    /// Inputs are queued: call the poll functions again.
    Continue,
    /// The task finished; this is its ready handle.
    Finished(u32),
    /// Nothing is queued and the task has not finished: wait for host calls.
    WaitForHost,
}

/// The host's loop that waits for one guest task: it routes what the
/// guest's poll functions report to the poll functions that wait for it.
pub struct AwaitReady {
    pending: u32,
    result: Option<u32>,
    input: HashMap<usize, Vec<PollInput>>,
}

impl View for AwaitReady {
    type V = AwaitView;

    closed spec fn view(&self) -> AwaitView {
        AwaitView {
            pending: self.pending,
            result: self.result,
            inputs: Map::new(|i: usize| self.input@.contains_key(i), |i: usize| self.input@[i]@),
        }
    }
}

impl AwaitReady {
    /// Starts waiting for the task behind `pending`, with nothing queued.
    pub fn new(pending: u32) -> (aw: Self)
        ensures
            aw@.pending == pending,
            aw@.result is None,
            aw@.inputs =~= Map::<usize, Seq<PollInput>>::empty(),
    {
        AwaitReady { pending, result: None, input: HashMap::new() }
    }

    /// Appends an input to the queue of poll function `poll`.
    fn push_input(&mut self, poll: usize, input: PollInput)
        ensures
            final(self)@ == (AwaitView { inputs: enqueue(old(self)@.inputs, poll, input), ..old(self)@ }),
    {
        let queue = self.input.remove(&poll);
        let mut queue = match queue {
            Some(q) => q,
            None => Vec::new(),
        };
        queue.push(input);
        self.input.insert(poll, queue);
        assert(self@.inputs =~= enqueue(old(self)@.inputs, poll, input));
    }

    /// Hands over the inputs queued for poll function `index`, which leave
    /// the queue.
    pub fn take_input(&mut self, index: usize) -> (r: Vec<PollInput>)
        ensures
            r@ == (if old(self)@.inputs.contains_key(index) {
                old(self)@.inputs[index]
            } else {
                Seq::empty()
            }),
            final(self)@ == (AwaitView { inputs: old(self)@.inputs.remove(index), ..old(self)@ }),
    {
        match self.input.remove(&index) {
            Some(taken) => {
                assert(self@.inputs =~= old(self)@.inputs.remove(index));
                taken
            },
            None => {
                assert(self@.inputs =~= old(self)@.inputs.remove(index));
                Vec::new()
            },
        }
    }

    /// Whether the host can act on `output`; an output it cannot act on
    /// breaks the protocol.
    pub fn output_acceptable(&self, ctx: &IsyswasfaCtx, output: PollOutput) -> (r: bool)
        ensures
            r == output_ok(ctx@, self@.pending, output),
    {
        match output {
            PollOutput::Pending { cancel, .. } => {
                if cancel == self.pending {
                    true
                } else {
                    match ctx.task_info(cancel) {
                        Ok(task) => match task.state {
                            TaskStatus::GuestPending { .. } => true,
                            _ => false,
                        },
                        Err(_) => true,
                    }
                }
            },
            PollOutput::Cancel(cancel) => match ctx.task_info(cancel) {
                Ok(task) => task.listen.is_some() && match task.state {
                    TaskStatus::GuestReady { .. } => false,
                    TaskStatus::GuestPending { on_cancel } => on_cancel.is_some(),
                    _ => true,
                },
                Err(_) => true,
            },
            PollOutput::CancelComplete(cancel) => match ctx.task_info(cancel) {
                Ok(task) => task.listen.is_some(),
                Err(_) => true,
            },
            _ => true,
        }
    }

    /// Acts on one output of poll function `index`. Fails, changing nothing,
    /// when the task that the output is about is not in the table.
    pub fn handle_output(&mut self, ctx: &mut IsyswasfaCtx, index: usize, output: PollOutput) -> (r:
        Result<(), HostError>)
        requires
            old(ctx).wf(),
            output_ok(old(ctx)@, old(self)@.pending, output),
        ensures
            final(ctx).wf(),
            r is Ok <==> old(ctx)@.contains_key(output_handle(output)),
            r is Ok ==> (final(ctx)@, final(self)@) == after_output(
                old(ctx)@,
                old(self)@,
                index,
                output,
            ),
            r matches Err(e) ==> e is Table && final(ctx)@ == old(ctx)@ && final(self)@ == old(self)@,
    {
        match output {
            PollOutput::Ready { state, ready } => {
                if ready == self.pending {
                    match ctx.set_state(ready, TaskState::GuestReady(state)) {
                        Ok(()) => {},
                        Err(e) => return Err(e),
                    }
                    self.result = Some(ready);
                    Ok(())
                } else {
                    let task = match ctx.task_info(ready) {
                        Ok(task) => task,
                        Err(e) => return Err(e),
                    };
                    match task.listen {
                        Some(listen) => {
                            self.push_input(listen.poll, PollInput::Ready { state: listen.state, ready });
                            Ok(())
                        },
                        None => ctx.set_state(ready, TaskState::GuestReady(state)),
                    }
                }
            },
            PollOutput::Listen { state, pending } => {
                let task_state = match ctx.set_listen(pending, StatePoll { state, poll: index }) {
                    Ok(task_state) => task_state,
                    Err(e) => return Err(e),
                };
                match task_state {
                    TaskStatus::HostPending { .. } => {
                        self.push_input(index, PollInput::Listening { state, cancel: pending });
                        Ok(())
                    },
                    TaskStatus::HostReady { .. } => {
                        self.push_input(index, PollInput::Ready { state, ready: pending });
                        Ok(())
                    },
                    TaskStatus::GuestPending { on_cancel } => {
                        if on_cancel.is_some() {
                            self.push_input(index, PollInput::Listening { state, cancel: pending });
                            Ok(())
                        } else {
                            ctx.drop(pending)
                        }
                    },
                    TaskStatus::GuestReady { .. } => {
                        self.push_input(index, PollInput::Ready { state, ready: pending });
                        Ok(())
                    },
                }
            },
            PollOutput::Pending { state, cancel } => {
                if cancel == self.pending {
                    ctx.drop(cancel)
                } else {
                    let listen = match ctx.set_on_cancel(cancel, StatePoll { state, poll: index }) {
                        Ok(listen) => listen,
                        Err(e) => return Err(e),
                    };
                    match listen {
                        Some(listen) => {
                            self.push_input(
                                listen.poll,
                                PollInput::Listening { state: listen.state, cancel },
                            );
                            Ok(())
                        },
                        None => Ok(()),
                    }
                }
            },
            PollOutput::Cancel(cancel) => {
                let task = match ctx.task_info(cancel) {
                    Ok(task) => task,
                    Err(e) => return Err(e),
                };
                let listen = task.listen.unwrap();
                match task.state {
                    TaskStatus::HostPending { .. } => {
                        match ctx.set_state(cancel, TaskState::HostPending(None)) {
                            Ok(()) => {},
                            Err(e) => return Err(e),
                        }
                        match ctx.drop(cancel) {
                            Ok(()) => {},
                            Err(e) => return Err(e),
                        }
                        self.push_input(listen.poll, PollInput::CancelComplete(listen.state));
                        Ok(())
                    },
                    TaskStatus::HostReady { .. } => {
                        match ctx.drop(cancel) {
                            Ok(()) => {},
                            Err(e) => return Err(e),
                        }
                        self.push_input(listen.poll, PollInput::CancelComplete(listen.state));
                        Ok(())
                    },
                    TaskStatus::GuestPending { on_cancel } => {
                        let on_cancel = on_cancel.unwrap();
                        self.push_input(
                            on_cancel.poll,
                            PollInput::Cancel { state: on_cancel.state, cancel },
                        );
                        Ok(())
                    },
                    TaskStatus::GuestReady { .. } => Ok(()),
                }
            },
            PollOutput::CancelComplete(cancel) => {
                let task = match ctx.task_info(cancel) {
                    Ok(task) => task,
                    Err(e) => return Err(e),
                };
                let listen = task.listen.unwrap();
                self.push_input(listen.poll, PollInput::CancelComplete(listen.state));
                Ok(())
            },
        }
    }

    /// Records that the host call behind `rep` finished with `value`, and
    /// queues a ready input for the poll function that listens to it.
    pub fn host_task_ready(&mut self, ctx: &mut IsyswasfaCtx, rep: u32, value: HostValue) -> (r:
        Result<(), HostError>)
        requires
            old(ctx).wf(),
            old(ctx)@.contains_key(rep) ==> old(ctx)@[rep].reference_count < u32::MAX,
        ensures
            final(ctx).wf(),
            r is Ok <==> old(ctx)@.contains_key(rep),
            r is Ok ==> final(ctx)@ == old(ctx)@.insert(
                rep,
                TaskView {
                    reference_count: (old(ctx)@[rep].reference_count + 1) as u32,
                    state: TaskStateView::HostReady { value: Some(value) },
                    listen: old(ctx)@[rep].listen,
                },
            ),
            r is Ok ==> final(self)@ == (match old(ctx)@[rep].listen {
                Some(listen) => AwaitView {
                    inputs: enqueue(
                        old(self)@.inputs,
                        listen.poll,
                        PollInput::Ready { state: listen.state, ready: rep },
                    ),
                    ..old(self)@
                },
                None => old(self)@,
            }),
            r matches Err(e) ==> e is Table && final(ctx)@ == old(ctx)@ && final(self)@ == old(self)@,
    {
        let listen = match ctx.host_ready(rep, value) {
            Ok(listen) => listen,
            Err(e) => return Err(e),
        };
        match listen {
            Some(listen) => {
                self.push_input(listen.poll, PollInput::Ready { state: listen.state, ready: rep });
            },
            None => {},
        }
        Ok(())
    }

    /// Acts on what waiting for host calls gave: a finished host call is
    /// recorded as `host_task_ready` does; when no host call is left to
    /// wait for, the awaited guest task can never finish and the wait fails
    /// with `NoPendingHostTasks`, changing nothing.
    pub fn host_event(&mut self, ctx: &mut IsyswasfaCtx, event: HostEvent) -> (r: Result<(), HostError>)
        requires
            old(ctx).wf(),
            event matches HostEvent::Finished(rep, _) ==> (old(ctx)@.contains_key(rep)
                ==> old(ctx)@[rep].reference_count < u32::MAX),
        ensures
            final(ctx).wf(),
            match event {
                HostEvent::Finished(rep, value) => {
                    &&& (r is Ok <==> old(ctx)@.contains_key(rep))
                    &&& r is Ok ==> final(ctx)@ == old(ctx)@.insert(
                        rep,
                        TaskView {
                            reference_count: (old(ctx)@[rep].reference_count + 1) as u32,
                            state: TaskStateView::HostReady { value: Some(value) },
                            listen: old(ctx)@[rep].listen,
                        },
                    )
                    &&& r is Ok ==> final(self)@ == (match old(ctx)@[rep].listen {
                        Some(listen) => AwaitView {
                            inputs: enqueue(
                                old(self)@.inputs,
                                listen.poll,
                                PollInput::Ready { state: listen.state, ready: rep },
                            ),
                            ..old(self)@
                        },
                        None => old(self)@,
                    })
                    &&& r matches Err(e) ==> e is Table && final(ctx)@ == old(ctx)@ && final(self)@
                        == old(self)@
                },
                HostEvent::Ended => r matches Err(e) && e is NoPendingHostTasks && final(ctx)@
                    == old(ctx)@ && final(self)@ == old(self)@,
            },
    {
        match event {
            HostEvent::Finished(rep, value) => self.host_task_ready(ctx, rep, value),
            HostEvent::Ended => Err(HostError::NoPendingHostTasks),
        }
    }

    /// Whether no input is queued for any poll function.
    fn inputs_empty(&self) -> (r: bool)
        ensures
            r <==> self@.inputs.dom() =~= Set::<usize>::empty(),
    {
        let r = self.input.is_empty();
        assert(self@.inputs.dom() =~= self.input@.dom());
        r
    }

    /// Decides what follows a round of calls to the poll functions: another
    /// round while inputs are queued; once none are, the ready handle if the
    /// task has finished (dropping its pending handle), or else a wait for
    /// host calls.
    pub fn next_step(&mut self, ctx: &mut IsyswasfaCtx) -> (r: Result<AwaitStep, HostError>)
        requires
            old(ctx).wf(),
        ensures
            final(ctx).wf(),
            !(old(self)@.inputs.dom() =~= Set::<usize>::empty()) ==> (r matches Ok(AwaitStep::Continue))
                && final(ctx)@ == old(ctx)@ && final(self)@ == old(self)@,
            old(self)@.inputs.dom() =~= Set::<usize>::empty() && old(self)@.result is None
                ==> (r matches Ok(AwaitStep::WaitForHost)) && final(ctx)@ == old(ctx)@ && final(self)@ == old(self)@,
            old(self)@.inputs.dom() =~= Set::<usize>::empty() && old(self)@.result is Some ==> {
                &&& final(self)@ == (AwaitView { result: None, ..old(self)@ })
                &&& (r is Ok <==> old(ctx)@.contains_key(old(self)@.pending))
                &&& r is Ok ==> r == Ok::<AwaitStep, HostError>(AwaitStep::Finished(old(self)@.result->0))
                    && final(ctx)@ == released(old(ctx)@, old(self)@.pending)
                &&& r matches Err(e) ==> e is Table && final(ctx)@ == old(ctx)@
            },
    {
        if !self.inputs_empty() {
            return Ok(AwaitStep::Continue);
        }
        match self.result.take() {
            Some(ready) => match ctx.drop(self.pending) {
                Ok(()) => Ok(AwaitStep::Finished(ready)),
                Err(e) => Err(e),
            },
            None => Ok(AwaitStep::WaitForHost),
        }
    }
}

/// An output of a poll function touches only the task it is about: every
/// other task stays as it was, and no task is created.
pub proof fn law_output_touches_only_its_task(
    tasks: Map<u32, TaskView>,
    aw: AwaitView,
    index: usize,
    output: PollOutput,
)
    requires
        tasks.contains_key(output_handle(output)),
    ensures
        ({
            let after = after_output(tasks, aw, index, output).0;
            &&& after.dom().subset_of(tasks.dom())
            &&& forall|rep: u32|
                rep != output_handle(output) && #[trigger] tasks.contains_key(rep) ==> after.contains_key(rep)
                    && after[rep] == tasks[rep]
        }),
{
}

/// An output queues at most one input, at the end of one queue, and never
/// removes a queued input; the awaited handle never changes, and the wait
/// ends only with a ready output for the awaited task itself.
pub proof fn law_output_queues_at_most_one_input(
    tasks: Map<u32, TaskView>,
    aw: AwaitView,
    index: usize,
    output: PollOutput,
)
    ensures
        ({
            let after = after_output(tasks, aw, index, output).1;
            &&& after.pending == aw.pending
            &&& after.inputs == aw.inputs || exists|poll: usize, input: PollInput|
                after.inputs == #[trigger] enqueue(aw.inputs, poll, input)
            &&& after.result != aw.result ==> after.result == Some(aw.pending)
                && output == (PollOutput::Ready { state: output->Ready_state, ready: aw.pending })
        }),
{
    let after = after_output(tasks, aw, index, output).1;
    match output {
        PollOutput::Ready { state, ready } => {
            if ready != aw.pending && tasks[ready].listen is Some {
                let l = tasks[ready].listen->0;
                assert(after.inputs == enqueue(aw.inputs, l.poll, PollInput::Ready { state: l.state, ready }));
            }
        },
        PollOutput::Listen { state, pending } => {
            let listening = PollInput::Listening { state, cancel: pending };
            let ready = PollInput::Ready { state, ready: pending };
            match tasks[pending].state {
                TaskStateView::HostPending { .. } => {
                    assert(after.inputs == enqueue(aw.inputs, index, listening));
                },
                TaskStateView::HostReady { .. } => {
                    assert(after.inputs == enqueue(aw.inputs, index, ready));
                },
                TaskStateView::GuestPending { on_cancel } => {
                    if on_cancel is Some {
                        assert(after.inputs == enqueue(aw.inputs, index, listening));
                    }
                },
                TaskStateView::GuestReady { .. } => {
                    assert(after.inputs == enqueue(aw.inputs, index, ready));
                },
            }
        },
        PollOutput::Pending { state, cancel } => {
            if cancel != aw.pending && tasks[cancel].listen is Some {
                let l = tasks[cancel].listen->0;
                assert(after.inputs == enqueue(
                    aw.inputs,
                    l.poll,
                    PollInput::Listening { state: l.state, cancel },
                ));
            }
        },
        PollOutput::Cancel(cancel) => {
            let l = tasks[cancel].listen->0;
            match tasks[cancel].state {
                TaskStateView::HostPending { .. } => {
                    assert(after.inputs == enqueue(aw.inputs, l.poll, PollInput::CancelComplete(l.state)));
                },
                TaskStateView::HostReady { .. } => {
                    assert(after.inputs == enqueue(aw.inputs, l.poll, PollInput::CancelComplete(l.state)));
                },
                TaskStateView::GuestPending { on_cancel } => {
                    assert(after.inputs == enqueue(
                        aw.inputs,
                        on_cancel->0.poll,
                        PollInput::Cancel { state: on_cancel->0.state, cancel },
                    ));
                },
                TaskStateView::GuestReady { .. } => {},
            }
        },
        PollOutput::CancelComplete(cancel) => {
            let l = tasks[cancel].listen->0;
            assert(after.inputs == enqueue(aw.inputs, l.poll, PollInput::CancelComplete(l.state)));
        },
    }
}

/// What the host makes of a run of outputs, each with the index of the
/// poll function that gave it, in order.
pub open spec fn after_outputs(
    tasks: Map<u32, TaskView>,
    aw: AwaitView,
    outs: Seq<(usize, PollOutput)>,
) -> (Map<u32, TaskView>, AwaitView)
    decreases outs.len(),
{
    if outs.len() == 0 {
        (tasks, aw)
    } else {
        let before = after_outputs(tasks, aw, outs.drop_last());
        after_output(before.0, before.1, outs.last().0, outs.last().1)
    }
}

/// However many outputs the host acts on, it keeps waiting for the same
/// task, and the only ready handle a wait can end with is the awaited
/// task's own (which `next_step` then hands back as `Finished`).
pub proof fn law_wait_ends_with_the_awaited_handle(
    tasks: Map<u32, TaskView>,
    aw: AwaitView,
    outs: Seq<(usize, PollOutput)>,
)
    requires
        aw.result is None || aw.result == Some(aw.pending),
    ensures
        after_outputs(tasks, aw, outs).1.pending == aw.pending,
        after_outputs(tasks, aw, outs).1.result is None || after_outputs(tasks, aw, outs).1.result
            == Some(aw.pending),
    decreases outs.len(),
{
    if outs.len() > 0 {
        law_wait_ends_with_the_awaited_handle(tasks, aw, outs.drop_last());
        let before = after_outputs(tasks, aw, outs.drop_last());
        law_output_queues_at_most_one_input(before.0, before.1, outs.last().0, outs.last().1);
    }
}

/// `after` is `before` with exactly one input added to the queue of poll
/// function `poll`, after the inputs already queued there; every other
/// queue is as it was.
pub open spec fn one_input_queued(
    before: Map<usize, Seq<PollInput>>,
    after: Map<usize, Seq<PollInput>>,
    poll: usize,
    input: PollInput,
) -> bool {
    let queue = if before.contains_key(poll) {
        before[poll]
    } else {
        Seq::<PollInput>::empty()
    };
    &&& after.contains_key(poll)
    &&& after[poll].len() == queue.len() + 1
    &&& after[poll].subrange(0, queue.len() as int) == queue
    &&& after[poll][queue.len() as int] == input
    &&& forall|k: usize|
        k != poll ==> (#[trigger] after.contains_key(k) <==> before.contains_key(k)) && (
        before.contains_key(k) ==> after[k] == before[k])
}

/// Queuing an input adds exactly that one input, last, to its poll
/// function's queue: the queue grows by one, keeps its inputs in place, and
/// no other queue changes.
pub proof fn law_enqueue_keeps_queued_inputs(inputs: Map<usize, Seq<PollInput>>, poll: usize, input: PollInput)
    ensures
        one_input_queued(inputs, enqueue(inputs, poll, input), poll, input),
{
    let after = enqueue(inputs, poll, input);
    if inputs.contains_key(poll) {
        assert(after[poll].subrange(0, inputs[poll].len() as int) =~= inputs[poll]);
    } else {
        assert(after[poll].subrange(0, 0) =~= Seq::<PollInput>::empty());
    }
}

/// Every input that an output queues goes to the poll function that acts
/// on it: a ready or a listening input for a task goes to the poll function
/// that listens to the task (recorded in the task's listener), or, for a
/// new listener, to the poll function that reported it; a cancel goes to
/// the poll function that runs the guest task, under that poll function's
/// key for it; a completed cancellation goes to the listener's poll
/// function. Each output queues at most that one input.
pub proof fn law_inputs_go_to_the_poll_function_that_acts_on_them(
    tasks: Map<u32, TaskView>,
    aw: AwaitView,
    index: usize,
    output: PollOutput,
)
    requires
        tasks.contains_key(output_handle(output)),
        output_ok(tasks, aw.pending, output),
    ensures
        ({
            let after = after_output(tasks, aw, index, output).1.inputs;
            match output {
                PollOutput::Ready { state, ready } => if ready != aw.pending
                    && tasks[ready].listen is Some {
                    one_input_queued(
                        aw.inputs,
                        after,
                        tasks[ready].listen->0.poll,
                        PollInput::Ready { state: tasks[ready].listen->0.state, ready },
                    )
                } else {
                    after == aw.inputs
                },
                PollOutput::Listen { state, pending } => match tasks[pending].state {
                    TaskStateView::HostPending { .. } => one_input_queued(
                        aw.inputs,
                        after,
                        index,
                        PollInput::Listening { state, cancel: pending },
                    ),
                    TaskStateView::GuestPending { on_cancel } => if on_cancel is Some {
                        one_input_queued(
                            aw.inputs,
                            after,
                            index,
                            PollInput::Listening { state, cancel: pending },
                        )
                    } else {
                        after == aw.inputs
                    },
                    _ => one_input_queued(
                        aw.inputs,
                        after,
                        index,
                        PollInput::Ready { state, ready: pending },
                    ),
                },
                PollOutput::Pending { state, cancel } => if cancel != aw.pending
                    && tasks[cancel].listen is Some {
                    one_input_queued(
                        aw.inputs,
                        after,
                        tasks[cancel].listen->0.poll,
                        PollInput::Listening { state: tasks[cancel].listen->0.state, cancel },
                    )
                } else {
                    after == aw.inputs
                },
                PollOutput::Cancel(cancel) => match tasks[cancel].state {
                    TaskStateView::GuestPending { on_cancel } => one_input_queued(
                        aw.inputs,
                        after,
                        on_cancel->0.poll,
                        PollInput::Cancel { state: on_cancel->0.state, cancel },
                    ),
                    TaskStateView::GuestReady { .. } => after == aw.inputs,
                    _ => one_input_queued(
                        aw.inputs,
                        after,
                        tasks[cancel].listen->0.poll,
                        PollInput::CancelComplete(tasks[cancel].listen->0.state),
                    ),
                },
                PollOutput::CancelComplete(cancel) => one_input_queued(
                    aw.inputs,
                    after,
                    tasks[cancel].listen->0.poll,
                    PollInput::CancelComplete(tasks[cancel].listen->0.state),
                ),
            }
        }),
{
    match output {
        PollOutput::Ready { state, ready } => {
            let l = tasks[ready].listen->0;
            law_enqueue_keeps_queued_inputs(aw.inputs, l.poll, PollInput::Ready { state: l.state, ready });
        },
        PollOutput::Listen { state, pending } => {
            law_enqueue_keeps_queued_inputs(aw.inputs, index, PollInput::Listening { state, cancel: pending });
            law_enqueue_keeps_queued_inputs(aw.inputs, index, PollInput::Ready { state, ready: pending });
        },
        PollOutput::Pending { state, cancel } => {
            let l = tasks[cancel].listen->0;
            law_enqueue_keeps_queued_inputs(
                aw.inputs,
                l.poll,
                PollInput::Listening { state: l.state, cancel },
            );
        },
        PollOutput::Cancel(cancel) => {
            let l = tasks[cancel].listen->0;
            law_enqueue_keeps_queued_inputs(aw.inputs, l.poll, PollInput::CancelComplete(l.state));
            match tasks[cancel].state {
                TaskStateView::GuestPending { on_cancel } => {
                    law_enqueue_keeps_queued_inputs(
                        aw.inputs,
                        on_cancel->0.poll,
                        PollInput::Cancel { state: on_cancel->0.state, cancel },
                    );
                },
                _ => {},
            }
        },
        PollOutput::CancelComplete(cancel) => {
            let l = tasks[cancel].listen->0;
            law_enqueue_keeps_queued_inputs(aw.inputs, l.poll, PollInput::CancelComplete(l.state));
        },
    }
}

/// Task `x` of `before` lost one handle in `after`: it is gone when that
/// was its last handle, and otherwise it has one handle fewer.
pub open spec fn lost_one_handle(before: Map<u32, TaskView>, after: Map<u32, TaskView>, x: u32) -> bool {
    &&& before[x].reference_count <= 1 ==> !after.contains_key(x)
    &&& before[x].reference_count > 1 ==> after.contains_key(x) && after[x].reference_count
        == before[x].reference_count - 1
}

/// What an output does to the task it is about: a finished guest task that
/// nobody listens to, or that is the awaited one, records the guest's key
/// for its result; one that is listened to is left for its listener; a
/// listen output records the listener (where it reports to and under which
/// key), unless the guest task has nowhere to send a cancellation yet, in
/// which case the handle is dropped; a pending output for the awaited task
/// drops the cancel handle, and for another task records where its
/// cancellation goes; a cancelled host task loses the handle (and a running
/// one its sender); other cancellations leave the tasks alone.
pub proof fn law_output_updates_its_task(
    tasks: Map<u32, TaskView>,
    aw: AwaitView,
    index: usize,
    output: PollOutput,
)
    requires
        tasks.contains_key(output_handle(output)),
        output_ok(tasks, aw.pending, output),
    ensures
        ({
            let t = after_output(tasks, aw, index, output).0;
            match output {
                PollOutput::Ready { state, ready } => if ready == aw.pending || tasks[ready].listen is None {
                    &&& t.contains_key(ready)
                    &&& t[ready].state == TaskStateView::GuestReady { state }
                    &&& t[ready].reference_count == tasks[ready].reference_count
                    &&& t[ready].listen == tasks[ready].listen
                } else {
                    t == tasks
                },
                PollOutput::Listen { state, pending } => if tasks[pending].state matches TaskStateView::GuestPending { on_cancel } && on_cancel is None {
                    lost_one_handle(tasks, t, pending)
                } else {
                    &&& t.contains_key(pending)
                    &&& t[pending].listen == Some(StatePoll { state, poll: index })
                    &&& t[pending].reference_count == tasks[pending].reference_count
                    &&& t[pending].state == tasks[pending].state
                },
                PollOutput::Pending { state, cancel } => if cancel == aw.pending {
                    lost_one_handle(tasks, t, cancel)
                } else {
                    &&& t.contains_key(cancel)
                    &&& t[cancel].state == TaskStateView::GuestPending {
                        on_cancel: Some(StatePoll { state, poll: index }),
                    }
                    &&& t[cancel].reference_count == tasks[cancel].reference_count
                    &&& t[cancel].listen == tasks[cancel].listen
                },
                PollOutput::Cancel(cancel) => match tasks[cancel].state {
                    TaskStateView::HostPending { .. } => {
                        &&& lost_one_handle(tasks, t, cancel)
                        &&& t.contains_key(cancel) ==> t[cancel].state == TaskStateView::HostPending {
                            cancel: None,
                        }
                    },
                    TaskStateView::HostReady { .. } => lost_one_handle(tasks, t, cancel),
                    _ => t == tasks,
                },
                PollOutput::CancelComplete(_) => t == tasks,
            }
        }),
{
}

} // verus!
