use vstd::prelude::*;
use futures::channel::oneshot::Sender;
use wasmtime::component::{ResourceTable, ResourceTableError};
use crate::task::{
    info_of, status_of, table_delete, table_get, table_len, table_new, table_parents, table_push,
    table_replace, table_tasks, GuestPending, HostValue, StatePoll, Task, TaskInfo, TaskState,
    TaskStateView, TaskStatus, TaskView,
};

verus! {

/// Why a host operation on the task table failed.
pub enum HostError {
    /// The resource table refused the operation.
    Table(ResourceTableError),
    /// The task is not in the state that the operation needs.
    UnexpectedTaskState,
    /// The awaited guest task is still pending, and no host task is left
    /// whose completion could change that.
    NoPendingHostTasks,
}

/// A task as it is right after it was created for a guest call that did not
/// finish at once: three handles (pending, cancel, ready) refer to it.
pub open spec fn new_guest_task() -> TaskView {
    TaskView {
        reference_count: 3,
        state: TaskStateView::GuestPending { on_cancel: None },
        listen: None,
    }
}

/// A task as it is right after it was created for a host call: one handle
/// refers to it, and it holds the sender that cancels the call.
pub open spec fn new_host_task(cancel: Sender<()>) -> TaskView {
    TaskView {
        reference_count: 1,
        state: TaskStateView::HostPending { cancel: Some(cancel) },
        listen: None,
    }
}

/// The tasks after one handle to `rep` was dropped: the count goes down by
/// one, and the task leaves the table when no handle is left.
pub open spec fn released(tasks: Map<u32, TaskView>, rep: u32) -> Map<u32, TaskView> {
    if tasks[rep].reference_count <= 1 {
        tasks.remove(rep)
    } else {
        tasks.insert(
            rep,
            TaskView { reference_count: (tasks[rep].reference_count - 1) as u32, ..tasks[rep] },
        )
    }
}

/// What stands in a task's place while the task is being changed.
pub open spec fn placeholder_view() -> TaskView {
    TaskView { reference_count: 1, state: TaskStateView::GuestReady { state: 0 }, listen: None }
}

impl Task {
    fn placeholder() -> (task: Task)
        ensures
            task@ == placeholder_view(),
    {
        Task { reference_count: 1, state: TaskState::GuestReady(0), listen: None }
    }

    /// The task as plain values.
    pub fn info(&self) -> (v: TaskInfo)
        ensures
            v == info_of(self@),
    {
        TaskInfo { reference_count: self.reference_count, state: self.state.info(), listen: self.listen }
    }
}

impl TaskState {
    /// The state as plain values.
    pub fn info(&self) -> (v: TaskStatus)
        ensures
            v == status_of(self@),
    {
        match self {
            TaskState::HostPending(tx) => TaskStatus::HostPending { cancel_held: tx.is_some() },
            TaskState::HostReady(v) => TaskStatus::HostReady { value_held: v.is_some() },
            TaskState::GuestPending(g) => TaskStatus::GuestPending { on_cancel: g.on_cancel },
            TaskState::GuestReady(s) => TaskStatus::GuestReady { state: *s },
        }
    }
}

/// The host's side of the protocol: the table of tasks that guests and host
/// calls create, and what handles to them keep them alive.
pub struct IsyswasfaCtx {
    table: ResourceTable,
}

impl View for IsyswasfaCtx {
    type V = Map<u32, TaskView>;

    closed spec fn view(&self) -> Map<u32, TaskView> {
        table_tasks(self.table)
    }
}

impl IsyswasfaCtx {
    /// Every task in the table is referred to by at least one handle, no
    /// entry has children, so that every task can be deleted, and the table
    /// holds nothing but the tasks.
    pub closed spec fn wf(&self) -> bool {
        &&& table_parents(self.table) == Set::<u32>::empty()
        &&& forall|rep: u32| #[trigger] self@.contains_key(rep) ==> self@[rep].reference_count >= 1
        &&& self@.dom().finite()
        &&& table_len(self.table) == self@.dom().len()
    }

    /// An empty table.
    pub fn new() -> (ctx: Self)
        ensures
            ctx.wf(),
            ctx@ =~= Map::<u32, TaskView>::empty(),
    {
        let ctx = IsyswasfaCtx { table: table_new() };
        assert(ctx@.dom() =~= Set::<u32>::empty());
        ctx
    }

    /// Creates the task of a guest call that did not finish at once, and
    /// gives its pending, cancel and ready handles, which are one task.
    /// Succeeds whenever the table has a free key.
    pub fn guest_pending(&mut self) -> (r: Result<(u32, u32, u32), HostError>)
        requires
            old(self).wf(),
        ensures
            final(self).wf(),
            old(self)@.dom().len() <= u32::MAX ==> r is Ok,
            match r {
                Ok((pending, cancel, ready)) => pending == cancel && cancel == ready
                    && !old(self)@.contains_key(pending) && final(self)@ == old(self)@.insert(
                    pending,
                    new_guest_task(),
                ),
                Err(e) => e is Table && final(self)@ == old(self)@,
            },
    {
        let task = Task {
            reference_count: 3,
            state: TaskState::GuestPending(GuestPending { on_cancel: None }),
            listen: None,
        };
        let ghost before = self@;
        match table_push(&mut self.table, task) {
            Ok(rep) => {
                assert(self@.dom() =~= before.dom().insert(rep));
                Ok((rep, rep, rep))
            },
            Err(e) => Err(HostError::Table(e)),
        }
    }

    /// Creates the task of a host call that did not finish at once; dropping
    /// `cancel` from the table cancels the call. Succeeds whenever the table
    /// has a free key.
    pub fn host_pending(&mut self, cancel: Sender<()>) -> (r: Result<u32, HostError>)
        requires
            old(self).wf(),
        ensures
            final(self).wf(),
            old(self)@.dom().len() <= u32::MAX ==> r is Ok,
            match r {
                Ok(rep) => !old(self)@.contains_key(rep) && final(self)@ == old(self)@.insert(
                    rep,
                    new_host_task(cancel),
                ),
                Err(e) => e is Table && final(self)@ == old(self)@,
            },
    {
        let task = Task { reference_count: 1, state: TaskState::HostPending(Some(cancel)), listen: None };
        let ghost before = self@;
        match table_push(&mut self.table, task) {
            Ok(rep) => {
                assert(self@.dom() =~= before.dom().insert(rep));
                Ok(rep)
            },
            Err(e) => Err(HostError::Table(e)),
        }
    }

    /// The guest's key for the result of a finished guest task.
    pub fn guest_state(&self, ready: u32) -> (r: Result<u32, HostError>)
        ensures
            r is Ok <==> self@.contains_key(ready) && self@[ready].state is GuestReady,
            r matches Ok(s) ==> self@[ready].state == (TaskStateView::GuestReady { state: s }),
            r matches Err(e) ==> (e is Table <==> !self@.contains_key(ready)),
            r matches Err(e) ==> (e is UnexpectedTaskState <==> self@.contains_key(ready)),
    {
        match table_get(&self.table, ready) {
            Ok(task) => match &task.state {
                TaskState::GuestReady(s) => Ok(*s),
                _ => Err(HostError::UnexpectedTaskState),
            },
            Err(e) => Err(HostError::Table(e)),
        }
    }

    /// Takes a task out of the table, leaving a placeholder in its place.
    fn take_task(&mut self, rep: u32) -> (r: Result<Task, HostError>)
        requires
            old(self).wf(),
        ensures
            final(self).wf(),
            match r {
                Ok(task) => old(self)@.contains_key(rep) && task@ == old(self)@[rep] && final(self)@
                    == old(self)@.insert(rep, placeholder_view()),
                Err(e) => !old(self)@.contains_key(rep) && e is Table && final(self)@ == old(self)@,
            },
    {
        let ghost before = self@;
        match table_replace(&mut self.table, rep, Task::placeholder()) {
            Ok(task) => {
                assert(self@.dom() =~= before.dom());
                Ok(task)
            },
            Err(e) => Err(HostError::Table(e)),
        }
    }

    /// Puts a task back where `take_task` took it from.
    fn put_task(&mut self, rep: u32, task: Task)
        requires
            old(self).wf(),
            old(self)@.contains_key(rep),
            task.reference_count >= 1,
        ensures
            final(self).wf(),
            final(self)@ == old(self)@.insert(rep, task@),
    {
        let ghost before = self@;
        let r = table_replace(&mut self.table, rep, task);
        assert(self@.dom() =~= before.dom());
    }

    /// Drops one handle to a task: its count goes down by one, and it leaves
    /// the table when no handle is left. Fails, changing nothing, when there is
    /// no such task.
    pub fn drop(&mut self, handle: u32) -> (r: Result<(), HostError>)
        requires
            old(self).wf(),
        ensures
            final(self).wf(),
            r is Ok <==> old(self)@.contains_key(handle),
            r is Ok ==> final(self)@ == released(old(self)@, handle),
            r matches Err(e) ==> e is Table && final(self)@ == old(self)@,
    {
        let task = match self.take_task(handle) {
            Ok(task) => task,
            Err(e) => return Err(e),
        };
        let count = task.reference_count - 1;
        if count == 0 {
            let deleted = table_delete(&mut self.table, handle);
            assert(table_parents(self.table) =~= Set::<u32>::empty());
            match deleted {
                Ok(_) => {
                    assert(self@.dom() =~= old(self)@.dom().remove(handle));
                    assert(self@ =~= released(old(self)@, handle));
                    Ok(())
                },
                Err(e) => Err(HostError::Table(e)),
            }
        } else {
            let kept = Task { reference_count: count, ..task };
            self.put_task(handle, kept);
            assert(self@ =~= released(old(self)@, handle));
            Ok(())
        }
    }

    /// Collects the result of a finished host call and drops the ready
    /// handle. Fails, changing nothing, when there is no such task or it is
    /// not a finished host call.
    pub fn get_ready(&mut self, ready: u32) -> (r: Result<HostValue, HostError>)
        requires
            old(self).wf(),
            old(self)@.contains_key(ready) && old(self)@[ready].state is HostReady
                ==> old(self)@[ready].state->value is Some,
        ensures
            final(self).wf(),
            r is Ok <==> old(self)@.contains_key(ready) && old(self)@[ready].state is HostReady,
            r matches Ok(v) ==> old(self)@[ready].state->value == Some(v),
            r is Ok ==> final(self)@ == released(
                old(self)@.insert(
                    ready,
                    TaskView {
                        state: TaskStateView::HostReady { value: None },
                        ..old(self)@[ready]
                    },
                ),
                ready,
            ),
            r matches Err(e) ==> final(self)@ == old(self)@ && (e is Table <==> !old(self)@.contains_key(
                ready,
            )) && (e is UnexpectedTaskState <==> old(self)@.contains_key(ready)),
    {
        let task = match self.take_task(ready) {
            Ok(task) => task,
            Err(e) => return Err(e),
        };
        let Task { reference_count, state, listen } = task;
        match state {
            TaskState::HostReady(Some(value)) => {
                self.put_task(
                    ready,
                    Task { reference_count, state: TaskState::HostReady(None), listen },
                );
                match self.drop(ready) {
                    Ok(()) => Ok(value),
                    Err(e) => Err(e),
                }
            },
            other => {
                self.put_task(ready, Task { reference_count, state: other, listen });
                assert(self@ =~= old(self)@);
                Err(HostError::UnexpectedTaskState)
            },
        }
    }

    /// Records that the host call behind `rep` finished with `value`: the
    /// task gains a handle (the ready handle that the guest will drop) and
    /// holds the value. Gives the listener that waits for the task, if any.
    pub fn host_ready(&mut self, rep: u32, value: HostValue) -> (r: Result<Option<StatePoll>, HostError>)
        requires
            old(self).wf(),
            old(self)@.contains_key(rep) ==> old(self)@[rep].reference_count < u32::MAX,
        ensures
            final(self).wf(),
            r is Ok <==> old(self)@.contains_key(rep),
            r matches Ok(listen) ==> listen == old(self)@[rep].listen && final(self)@
                == old(self)@.insert(
                rep,
                TaskView {
                    reference_count: (old(self)@[rep].reference_count + 1) as u32,
                    state: TaskStateView::HostReady { value: Some(value) },
                    listen: old(self)@[rep].listen,
                },
            ),
            r matches Err(e) ==> e is Table && final(self)@ == old(self)@,
    {
        let task = match self.take_task(rep) {
            Ok(task) => task,
            Err(e) => return Err(e),
        };
        let listen = task.listen;
        let updated = Task {
            reference_count: task.reference_count + 1,
            state: TaskState::HostReady(Some(value)),
            listen,
        };
        self.put_task(rep, updated);
        Ok(listen)
    }

    /// The task under `rep`, as plain values.
    pub(crate) fn task_info(&self, rep: u32) -> (r: Result<TaskInfo, HostError>)
        ensures
            r is Ok <==> self@.contains_key(rep),
            r matches Ok(t) ==> t == info_of(self@[rep]),
            r matches Err(e) ==> e is Table,
    {
        match table_get(&self.table, rep) {
            Ok(task) => Ok(task.info()),
            Err(e) => Err(HostError::Table(e)),
        }
    }

    /// The task under `rep`, as plain values, if there is one.
    pub fn task(&self, rep: u32) -> (r: Option<TaskInfo>)
        ensures
            r == (if self@.contains_key(rep) {
                Some(info_of(self@[rep]))
            } else {
                None
            }),
    {
        match self.task_info(rep) {
            Ok(task) => Some(task),
            Err(_) => None,
        }
    }

    /// Replaces the state of a task, keeping its count and listener.
    pub(crate) fn set_state(&mut self, rep: u32, state: TaskState) -> (r: Result<(), HostError>)
        requires
            old(self).wf(),
        ensures
            final(self).wf(),
            r is Ok <==> old(self)@.contains_key(rep),
            r is Ok ==> final(self)@ == old(self)@.insert(
                rep,
                TaskView { state: state@, ..old(self)@[rep] },
            ),
            r matches Err(e) ==> e is Table && final(self)@ == old(self)@,
    {
        let task = match self.take_task(rep) {
            Ok(task) => task,
            Err(e) => return Err(e),
        };
        let updated = Task { state, ..task };
        self.put_task(rep, updated);
        Ok(())
    }

    /// Records the listener of a task and gives the task's state.
    pub(crate) fn set_listen(&mut self, rep: u32, listen: StatePoll) -> (r: Result<TaskStatus, HostError>)
        requires
            old(self).wf(),
        ensures
            final(self).wf(),
            r is Ok <==> old(self)@.contains_key(rep),
            r matches Ok(state) ==> state == status_of(old(self)@[rep].state) && final(self)@ == old(self)@.insert(
                rep,
                TaskView { listen: Some(listen), ..old(self)@[rep] },
            ),
            r matches Err(e) ==> e is Table && final(self)@ == old(self)@,
    {
        let task = match self.take_task(rep) {
            Ok(task) => task,
            Err(e) => return Err(e),
        };
        let state = task.state.info();
        let updated = Task { listen: Some(listen), ..task };
        self.put_task(rep, updated);
        Ok(state)
    }

    /// Records where a guest task's cancellation goes, and gives the task's
    /// listener.
    pub(crate) fn set_on_cancel(&mut self, rep: u32, on_cancel: StatePoll) -> (r: Result<Option<StatePoll>, HostError>)
        requires
            old(self).wf(),
            old(self)@.contains_key(rep) ==> old(self)@[rep].state is GuestPending,
        ensures
            final(self).wf(),
            r is Ok <==> old(self)@.contains_key(rep),
            r matches Ok(listen) ==> listen == old(self)@[rep].listen && final(self)@
                == old(self)@.insert(
                rep,
                TaskView {
                    state: TaskStateView::GuestPending { on_cancel: Some(on_cancel) },
                    ..old(self)@[rep]
                },
            ),
            r matches Err(e) ==> e is Table && final(self)@ == old(self)@,
    {
        let task = match self.take_task(rep) {
            Ok(task) => task,
            Err(e) => return Err(e),
        };
        let listen = task.listen;
        let updated = Task {
            state: TaskState::GuestPending(GuestPending { on_cancel: Some(on_cancel) }),
            ..task
        };
        self.put_task(rep, updated);
        Ok(listen)
    }
}

/// What the first poll of a host call gave.
pub enum HostPoll<T> {
    /// The call finished with this result.
    Ready(T),
    /// The call did not finish.
    Pending,
}

impl IsyswasfaCtx {
    /// Settles the first poll of the host call whose task `host_pending`
    /// created under `rep`: a call that finished drops the task's one handle
    /// and hands its result back; a call that did not gives the handle to
    /// wait on, and the table stays as it is.
    pub fn first_poll<T>(&mut self, rep: u32, outcome: HostPoll<T>) -> (r: Result<Result<T, u32>, HostError>)
        requires
            old(self).wf(),
        ensures
            final(self).wf(),
            match outcome {
                HostPoll::Ready(v) => {
                    &&& (r is Ok <==> old(self)@.contains_key(rep))
                    &&& r is Ok ==> r == Ok::<Result<T, u32>, HostError>(Ok(v)) && final(self)@
                        == released(old(self)@, rep)
                    &&& r matches Err(e) ==> e is Table && final(self)@ == old(self)@
                },
                HostPoll::Pending => r == Ok::<Result<T, u32>, HostError>(Err(rep)) && final(self)@
                    == old(self)@,
            },
    {
        match outcome {
            HostPoll::Ready(v) => match self.drop(rep) {
                Ok(()) => Ok(Ok(v)),
                Err(e) => Err(e),
            },
            HostPoll::Pending => Ok(Err(rep)),
        }
    }
}

impl IsyswasfaCtx {
    /// In a well-formed table every task has at least one handle.
    pub proof fn law_every_task_has_a_handle(&self, rep: u32)
        requires
            self.wf(),
            self@.contains_key(rep),
        ensures
            self@[rep].reference_count >= 1,
    {
    }
}

/// The tasks after `n` handles to `rep` were dropped, one after the other.
pub open spec fn released_times(tasks: Map<u32, TaskView>, rep: u32, n: nat) -> Map<u32, TaskView>
    decreases n,
{
    if n == 0 {
        tasks
    } else {
        released(released_times(tasks, rep, (n - 1) as nat), rep)
    }
}

/// A task lives as long as one of its handles does: after `n` of its `c`
/// handles were dropped it is still there with `c - n` handles when
/// `n < c`, and it is gone when `n == c`; no other task changes.
pub proof fn law_task_lives_until_last_handle(tasks: Map<u32, TaskView>, rep: u32, n: nat)
    requires
        tasks.contains_key(rep),
        1 <= tasks[rep].reference_count,
        n <= tasks[rep].reference_count,
    ensures
        n < tasks[rep].reference_count ==> released_times(tasks, rep, n) == tasks.insert(
            rep,
            TaskView { reference_count: (tasks[rep].reference_count - n) as u32, ..tasks[rep] },
        ),
        n == tasks[rep].reference_count ==> released_times(tasks, rep, n) == tasks.remove(rep),
    decreases n,
{
    if n > 0 {
        law_task_lives_until_last_handle(tasks, rep, (n - 1) as nat);
        let before = released_times(tasks, rep, (n - 1) as nat);
        assert(before == tasks.insert(
            rep,
            TaskView { reference_count: (tasks[rep].reference_count - (n - 1)) as u32, ..tasks[rep] },
        ));
        if n == tasks[rep].reference_count {
            assert(released(before, rep) =~= tasks.remove(rep));
        } else {
            assert(released(before, rep) =~= tasks.insert(
                rep,
                TaskView { reference_count: (tasks[rep].reference_count - n) as u32, ..tasks[rep] },
            ));
        }
    } else {
        assert(tasks.insert(rep, TaskView { reference_count: tasks[rep].reference_count, ..tasks[rep] }) =~= tasks);
    }
}

/// Creating the task of a pending guest call and then dropping its
/// pending, cancel and ready handles leaves the table as it was.
pub proof fn law_guest_task_ends_with_its_handles(tasks: Map<u32, TaskView>, rep: u32)
    requires
        !tasks.contains_key(rep),
    ensures
        released_times(tasks.insert(rep, new_guest_task()), rep, 3) == tasks,
{
    let t = tasks.insert(rep, new_guest_task());
    law_task_lives_until_last_handle(t, rep, 3);
    assert(t.remove(rep) =~= tasks);
}

/// Creating the task of a host call and dropping its one handle, as when
/// the call finishes at once, leaves the table as it was.
pub proof fn law_host_task_ends_with_its_handle(tasks: Map<u32, TaskView>, rep: u32, cancel: Sender<()>)
    requires
        !tasks.contains_key(rep),
    ensures
        released(tasks.insert(rep, new_host_task(cancel)), rep) == tasks,
{
    assert(tasks.insert(rep, new_host_task(cancel)).remove(rep) =~= tasks);
}

/// A host call that finished gains the handle that the guest collects its
/// result with, and holds the result; collecting gives that result and
/// drops the handle again: the task keeps its count and listener and no
/// longer holds a result.
pub proof fn law_collecting_a_result_returns_its_handle(
    tasks: Map<u32, TaskView>,
    rep: u32,
    value: HostValue,
)
    requires
        tasks.contains_key(rep),
        1 <= tasks[rep].reference_count < u32::MAX,
    ensures
        ({
            let finished = tasks.insert(
                rep,
                TaskView {
                    reference_count: (tasks[rep].reference_count + 1) as u32,
                    state: TaskStateView::HostReady { value: Some(value) },
                    listen: tasks[rep].listen,
                },
            );
            &&& finished[rep].state->value == Some(value)
            &&& released(
                finished.insert(
                    rep,
                    TaskView { state: TaskStateView::HostReady { value: None }, ..finished[rep] },
                ),
                rep,
            ) == tasks.insert(
                rep,
                TaskView { state: TaskStateView::HostReady { value: None }, ..tasks[rep] },
            )
        }),
{
    let finished = tasks.insert(
        rep,
        TaskView {
            reference_count: (tasks[rep].reference_count + 1) as u32,
            state: TaskStateView::HostReady { value: Some(value) },
            listen: tasks[rep].listen,
        },
    );
    let collected = finished.insert(
        rep,
        TaskView { state: TaskStateView::HostReady { value: None }, ..finished[rep] },
    );
    assert(released(collected, rep) =~= tasks.insert(
        rep,
        TaskView { state: TaskStateView::HostReady { value: None }, ..tasks[rep] },
    ));
}

} // verus!
