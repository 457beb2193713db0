use vstd::prelude::*;
use futures::channel::oneshot::Sender;
use wasmtime::component::{Resource, ResourceTable, ResourceTableError};

verus! {

/// wasmtime's `ResourceTable`, which holds the host's tasks among other
/// resources.
#[verifier::external_type_specification]
#[verifier::external_body]
pub struct ExResourceTable(ResourceTable);

/// wasmtime's `ResourceTableError`, why the table refused an operation.
#[verifier::external_type_specification]
#[verifier::external_body]
pub struct ExResourceTableError(ResourceTableError);

/// The sending half of a `futures` oneshot channel.
#[verifier::external_type_specification]
#[verifier::external_body]
#[verifier::reject_recursive_types(T)]
pub struct ExSender<T>(Sender<T>);

/// The result of a host call that finished, held until the guest collects it.
/// Its content is typed at run time; the verifier does not accept a `dyn`
/// type with more than one trait, so the value is opaque to it and only
/// carried through.
#[verifier::external_body]
pub struct HostValue(pub Box<dyn std::any::Any + Send + Sync>);

/// Where a listener waits: the guest's key for it and the index of the poll
/// function of the guest that owns it.
#[derive(Clone, Copy, Debug, PartialEq, Eq, Structural)]
pub struct StatePoll {
    pub state: u32,
    pub poll: usize,
}

/// A task that a guest created and has not finished yet.
#[derive(Clone, Copy, Debug, PartialEq, Eq, Structural)]
pub struct GuestPending {
    /// Where to send a cancellation, once the guest has said where.
    pub on_cancel: Option<StatePoll>,
}

/// The state of a task, by who runs it and whether it has finished.
pub enum TaskState {
    /// A host call runs; dropping the sender cancels it.
    HostPending(Option<Sender<()>>),
    /// A host call finished; its result waits to be collected.
    HostReady(Option<HostValue>),
    /// A guest call runs.
    GuestPending(GuestPending),
    /// A guest call finished; the number is the guest's key for its result.
    GuestReady(u32),
}

/// An entry of the host's task table.
pub struct Task {
    /// The number of live handles; the entry is deleted when it reaches zero.
    pub reference_count: u32,
    pub state: TaskState,
    /// Where the listener of the entry waits, when there is one.
    pub listen: Option<StatePoll>,
}

/// A task's state as the contracts see it: the sender that cancels a
/// running host call, the result of a finished host call, and what a guest
/// task records.
pub enum TaskStateView {
    HostPending { cancel: Option<Sender<()>> },
    HostReady { value: Option<HostValue> },
    GuestPending { on_cancel: Option<StatePoll> },
    GuestReady { state: u32 },
}

/// A task as the contracts see it.
pub struct TaskView {
    pub reference_count: u32,
    pub state: TaskStateView,
    pub listen: Option<StatePoll>,
}

/// A task's state as plain values a caller can inspect: whether the sender
/// or the result is still held, and what a guest task records.
#[derive(Clone, Copy, Debug, PartialEq, Eq, Structural)]
pub enum TaskStatus {
    HostPending { cancel_held: bool },
    HostReady { value_held: bool },
    GuestPending { on_cancel: Option<StatePoll> },
    GuestReady { state: u32 },
}

/// A task as plain values a caller can inspect.
#[derive(Clone, Copy, Debug, PartialEq, Eq, Structural)]
pub struct TaskInfo {
    pub reference_count: u32,
    pub state: TaskStatus,
    pub listen: Option<StatePoll>,
}

/// The plain values of a task's state.
pub open spec fn status_of(s: TaskStateView) -> TaskStatus {
    match s {
        TaskStateView::HostPending { cancel } => TaskStatus::HostPending { cancel_held: cancel is Some },
        TaskStateView::HostReady { value } => TaskStatus::HostReady { value_held: value is Some },
        TaskStateView::GuestPending { on_cancel } => TaskStatus::GuestPending { on_cancel },
        TaskStateView::GuestReady { state } => TaskStatus::GuestReady { state },
    }
}

/// The plain values of a task.
pub open spec fn info_of(t: TaskView) -> TaskInfo {
    TaskInfo { reference_count: t.reference_count, state: status_of(t.state), listen: t.listen }
}

impl View for TaskState {
    type V = TaskStateView;

    open spec fn view(&self) -> TaskStateView {
        match self {
            TaskState::HostPending(tx) => TaskStateView::HostPending { cancel: *tx },
            TaskState::HostReady(v) => TaskStateView::HostReady { value: *v },
            TaskState::GuestPending(g) => TaskStateView::GuestPending { on_cancel: g.on_cancel },
            TaskState::GuestReady(s) => TaskStateView::GuestReady { state: *s },
        }
    }
}

impl View for Task {
    type V = TaskView;

    open spec fn view(&self) -> TaskView {
        TaskView { reference_count: self.reference_count, state: self.state@, listen: self.listen }
    }
}

/// The tasks that a resource table holds, by the 32-bit representation of
/// their handles. Entries of other types are not in it.
pub uninterp spec fn table_tasks(table: ResourceTable) -> Map<u32, TaskView>;

/// The entries of a resource table that have children, which it refuses to
/// delete.
pub uninterp spec fn table_parents(table: ResourceTable) -> Set<u32>;

/// The number of occupied entries of a resource table, of any type.
pub uninterp spec fn table_len(table: ResourceTable) -> nat;

/// `ResourceTable::new`: an empty table, without entries and without
/// parents.
#[verifier::external_body]
pub(crate) fn table_new() -> (fresh: ResourceTable)
    ensures
        table_tasks(fresh).dom() == Set::<u32>::empty(),
        table_parents(fresh) == Set::<u32>::empty(),
        table_len(fresh) == 0,
{
    ResourceTable::new()
}

/// `ResourceTable::push`: on success the task is stored under a
/// representation that held no task before, taking one more entry; it
/// fails only when no free key is left, that is when all 2^32 keys are
/// occupied, and then nothing changes. Pushing never adds children.
#[verifier::external_body]
pub(crate) fn table_push(table: &mut ResourceTable, task: Task) -> (r: Result<u32, ResourceTableError>)
    ensures
        table_len(*old(table)) <= u32::MAX ==> r is Ok,
        match r {
            Ok(rep) => !table_tasks(*old(table)).contains_key(rep) && table_tasks(*final(table))
                == table_tasks(*old(table)).insert(rep, task@) && table_len(*final(table))
                == table_len(*old(table)) + 1,
            Err(_) => table_tasks(*final(table)) == table_tasks(*old(table)) && table_len(
                *final(table),
            ) == table_len(*old(table)),
        },
        table_parents(*final(table)) == table_parents(*old(table)),
{
    match table.push(task) {
        Ok(resource) => Ok(resource.rep()),
        Err(e) => Err(e),
    }
}

/// `ResourceTable::get`: succeeds exactly for a representation that holds a
/// task, and gives that task.
#[verifier::external_body]
pub(crate) fn table_get(table: &ResourceTable, rep: u32) -> (r: Result<&Task, ResourceTableError>)
    ensures
        r is Ok <==> table_tasks(*table).contains_key(rep),
        r matches Ok(task) ==> task@ == table_tasks(*table)[rep],
{
    table.get(&Resource::<Task>::new_own(rep))
}

/// `ResourceTable::get_mut` followed by a write through the reference:
/// succeeds exactly for a representation that holds a task, puts `task` in
/// its place and gives the previous one back; on failure nothing changes.
#[verifier::external_body]
pub(crate) fn table_replace(table: &mut ResourceTable, rep: u32, task: Task) -> (r: Result<Task, ResourceTableError>)
    ensures
        r is Ok <==> table_tasks(*old(table)).contains_key(rep),
        match r {
            Ok(prev) => prev@ == table_tasks(*old(table))[rep] && table_tasks(*final(table))
                == table_tasks(*old(table)).insert(rep, task@),
            Err(_) => table_tasks(*final(table)) == table_tasks(*old(table)),
        },
        table_parents(*final(table)) == table_parents(*old(table)),
        table_len(*final(table)) == table_len(*old(table)),
{
    match table.get_mut(&Resource::<Task>::new_own(rep)) {
        Ok(slot) => Ok(std::mem::replace(slot, task)),
        Err(e) => Err(e),
    }
}

/// `ResourceTable::delete`: succeeds for a task without children, removing
/// and giving it and freeing its entry; never succeeds for a representation
/// without a task. A failure leaves the tasks as they were and occupies no
/// more entries (an entry of another type under the representation is still
/// freed). Deleting never adds children.
#[verifier::external_body]
pub(crate) fn table_delete(table: &mut ResourceTable, rep: u32) -> (r: Result<Task, ResourceTableError>)
    ensures
        table_tasks(*old(table)).contains_key(rep) && !table_parents(*old(table)).contains(rep)
            ==> r is Ok,
        match r {
            Ok(prev) => table_tasks(*old(table)).contains_key(rep) && prev@ == table_tasks(
                *old(table),
            )[rep] && table_tasks(*final(table)) == table_tasks(*old(table)).remove(rep) && table_len(
                *final(table),
            ) + 1 == table_len(*old(table)),
            Err(_) => table_tasks(*final(table)) == table_tasks(*old(table)) && table_len(
                *final(table),
            ) <= table_len(*old(table)),
        },
        table_parents(*final(table)).subset_of(table_parents(*old(table))),
{
    table.delete(Resource::<Task>::new_own(rep))
}

} // verus!
